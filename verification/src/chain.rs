//! The chain of blocks: adding a block, and mining the chain again after a
//! block has changed.

use vstd::prelude::*;
use crate::block::{Block, BlockView, zero_hash};
use std::time::Duration;
use vstd::string::StringSliceAdditionalSpecFns;
use crate::digest::{Sha256Hash, HASH_BYTE_SIZE, plain_len_ok, nonced_len_ok, mining_ok, nonce_meets, sha256, nonced_contents};

verus! {

/// A chain of blocks, the first one made by `Block::genesis`.
pub struct Blockchain {
    blocks: Vec<Block>,
}

/// Each block after the first records the hash of the block before it.
pub open spec fn linked(v: Seq<BlockView>) -> bool {
    forall|i: int| 0 < i < v.len() ==> #[trigger] v[i].prev_block_hash == v[i - 1].hash
}

/// The first block is attached after the zero hash.
pub open spec fn anchored(v: Seq<BlockView>) -> bool {
    v.len() > 0 && v[0].prev_block_hash == zero_hash()
}

/// Every block sits at the position that its id names.
pub open spec fn ids_in_place(v: Seq<BlockView>) -> bool {
    forall|i: int| 0 <= i < v.len() ==> #[trigger] v[i].id == i
}

/// What `add_block` may make of a chain: the last block mined (where it was
/// not), then a fresh block attached after it.
pub open spec fn add_outcome(
    old: Seq<BlockView>,
    fin: Seq<BlockView>,
    id: u64,
    text: Seq<char>,
    max_nonce: u64,
    leading_zeros: u64,
) -> bool {
    let n = old.len() as int;
    &&& fin.len() == n + 1
    &&& forall|i: int| 0 <= i < n - 1 ==> #[trigger] fin[i] == old[i]
    &&& if old[n - 1].mined {
        fin[n - 1] == old[n - 1]
    } else {
        old[n - 1].mine_outcome(fin[n - 1], max_nonce, leading_zeros)
    }
    &&& fin[n] == BlockView::fresh(id, text, fin[n - 1].hash)
}

/// `check_and_mine_blocks` mines again and writes back the block at position
/// `i`: some block up to it is not mined.
pub open spec fn rewritten(v: Seq<BlockView>, i: int) -> bool {
    exists|t: int| 0 <= t <= i && !#[trigger] v[t].mined
}

/// Every block that `check_and_mine_blocks` writes back (those from the first
/// block that is not mined onward) names a position of the chain, and can be
/// mined with these preferences without overflow.
pub open spec fn remine_ok(v: Seq<BlockView>, max_nonce: u64, leading_zeros: u64) -> bool {
    forall|i: int, t: int|
        #![trigger v[t], v[i]]
        0 <= t <= i < v.len() && !v[t].mined ==> v[i].id < v.len() && v[i].mine_ok(max_nonce, leading_zeros)
}

/// No block among the first `k` that `check_and_mine_blocks` writes back
/// names position `j`.
pub open spec fn untouched_before(v: Seq<BlockView>, k: int, j: int) -> bool {
    forall|i: int, t: int| 0 <= t <= i < k && !#[trigger] v[t].mined ==> #[trigger] v[i].id != j
}

/// No block that `check_and_mine_blocks` writes back names position `j`.
pub open spec fn untouched(v: Seq<BlockView>, j: int) -> bool {
    untouched_before(v, v.len() as int, j)
}

/// The steps of `check_and_mine_blocks` from the `i`-th block of the copy
/// `src` on, with the chain at `cur`, `all_mined` telling whether every block
/// so far was mined, and `prev` the hash of the last block handled, end with
/// the chain at `fin`, where `picks[j]` is what mining made of the `j`-th
/// block. While all blocks so far are mined, a mined block is kept; from the
/// first block that is not mined onward, each block is attached after the
/// last hash, marked as not mined, mined again, and written back at the
/// position of its id.
pub open spec fn check_steps(
    src: Seq<BlockView>,
    i: int,
    cur: Seq<BlockView>,
    all_mined: bool,
    prev: Seq<u8>,
    picks: Seq<BlockView>,
    fin: Seq<BlockView>,
    max_nonce: u64,
    leading_zeros: u64,
) -> bool
    decreases src.len() - i,
{
    if i < 0 || i >= src.len() {
        fin == cur
    } else if src[i].mined && all_mined {
        check_steps(src, i + 1, cur, true, src[i].hash, picks, fin, max_nonce, leading_zeros)
    } else {
        &&& src[i].relinked(prev).mine_outcome(picks[i], max_nonce, leading_zeros)
        &&& check_steps(
            src,
            i + 1,
            cur.update(src[i].id as int, picks[i]),
            false,
            picks[i].hash,
            picks,
            fin,
            max_nonce,
            leading_zeros,
        )
    }
}

/// What `check_and_mine_blocks` may make of the chain `old`: the end of its
/// steps, for some outcome of each mining.
pub open spec fn check_outcome(old: Seq<BlockView>, fin: Seq<BlockView>, max_nonce: u64, leading_zeros: u64) -> bool {
    exists|picks: Seq<BlockView>|
        #[trigger] check_steps(old, 0, old, true, zero_hash(), picks, fin, max_nonce, leading_zeros)
}

/// Mining keeps a block's id, text, and the hash it is attached after; where
/// it marks a block as mined that was not, the block's nonce meets the
/// difficulty and its hash is that of its contents with that nonce.
pub proof fn lemma_mine_outcome_keeps(b: BlockView, r: BlockView, max_nonce: u64, leading_zeros: u64)
    requires
        b.mine_outcome(r, max_nonce, leading_zeros),
    ensures
        r.id == b.id,
        r.prev_block_hash == b.prev_block_hash,
        r.data == b.data,
        r.input_data == b.input_data,
        r.mined && !b.mined ==> nonce_meets(r.data, r.prev_block_hash, r.nonce, leading_zeros)
            && 1 <= r.nonce <= max_nonce,
        r.mined ==> b.mined || r.hash == sha256(nonced_contents(r.data, r.prev_block_hash, r.nonce)),
        !r.mined ==> r == b,
{
    if b.can_be_mined(max_nonce, leading_zeros) {
        let n = choose|n: u64|
            1 <= n <= max_nonce && #[trigger] nonce_meets(b.data, b.prev_block_hash, n, leading_zeros)
                && r == b.mined_with(n);
        assert(r == b.mined_with(n));
    }
}

/// `check_steps` from the `i`-th block on, with the blocks before `i` linked
/// and in place, ends with a linked, anchored chain whose blocks are in place,
/// and where each block is either kept from before or mined anew with a
/// nonce that meets the difficulty.
proof fn lemma_check_steps_linked(
    src: Seq<BlockView>,
    i: int,
    cur: Seq<BlockView>,
    all_mined: bool,
    prev: Seq<u8>,
    picks: Seq<BlockView>,
    fin: Seq<BlockView>,
    max_nonce: u64,
    leading_zeros: u64,
)
    requires
        ids_in_place(src),
        linked(src),
        anchored(src),
        0 <= i <= src.len(),
        cur.len() == src.len(),
        forall|j: int| i <= j < src.len() ==> #[trigger] cur[j] == src[j],
        all_mined ==> forall|j: int| 0 <= j < i ==> #[trigger] cur[j] == src[j],
        forall|j: int| 0 <= j < i ==> (#[trigger] cur[j]).id == j,
        forall|j: int| 0 < j < i ==> #[trigger] cur[j].prev_block_hash == cur[j - 1].hash,
        i == 0 ==> prev == zero_hash() && all_mined,
        i > 0 ==> prev == cur[i - 1].hash && cur[0].prev_block_hash == zero_hash(),
        forall|j: int|
            0 <= j < i && (#[trigger] cur[j]).mined ==> cur[j] == src[j] || nonce_meets(
                cur[j].data,
                cur[j].prev_block_hash,
                cur[j].nonce,
                leading_zeros,
            ),
        check_steps(src, i, cur, all_mined, prev, picks, fin, max_nonce, leading_zeros),
    ensures
        fin.len() == src.len(),
        linked(fin),
        anchored(fin),
        ids_in_place(fin),
        forall|j: int|
            0 <= j < fin.len() && (#[trigger] fin[j]).mined ==> fin[j] == src[j] || nonce_meets(
                fin[j].data,
                fin[j].prev_block_hash,
                fin[j].nonce,
                leading_zeros,
            ),
    decreases src.len() - i,
{
    if i == src.len() {
        assert(fin == cur);
        assert(linked(fin));
    } else if src[i].mined && all_mined {
        if i > 0 {
            assert(src[i].prev_block_hash == src[i - 1].hash);
        }
        lemma_check_steps_linked(src, i + 1, cur, true, src[i].hash, picks, fin, max_nonce, leading_zeros);
    } else {
        let nb = picks[i];
        lemma_mine_outcome_keeps(src[i].relinked(prev), nb, max_nonce, leading_zeros);
        let next = cur.update(src[i].id as int, nb);
        assert(src[i].id == i);
        assert forall|j: int| 0 < j < i + 1 implies #[trigger] next[j].prev_block_hash == next[j - 1].hash by {
            if j < i {
                assert(next[j] == cur[j] && next[j - 1] == cur[j - 1]);
            }
        }
        lemma_check_steps_linked(src, i + 1, next, false, nb.hash, picks, fin, max_nonce, leading_zeros);
    }
}

/// Mining the chain again keeps its length and, for a chain whose blocks are
/// linked, anchored and in place, keeps it so; every block that ends up mined
/// was kept as it was or was mined anew with a nonce that meets the
/// difficulty.
pub proof fn lemma_check_outcome_linked(old: Seq<BlockView>, fin: Seq<BlockView>, max_nonce: u64, leading_zeros: u64)
    requires
        ids_in_place(old),
        linked(old),
        anchored(old),
        check_outcome(old, fin, max_nonce, leading_zeros),
    ensures
        fin.len() == old.len(),
        linked(fin),
        anchored(fin),
        ids_in_place(fin),
        forall|j: int|
            0 <= j < fin.len() && (#[trigger] fin[j]).mined ==> fin[j] == old[j] || nonce_meets(
                fin[j].data,
                fin[j].prev_block_hash,
                fin[j].nonce,
                leading_zeros,
            ),
{
    let picks = choose|picks: Seq<BlockView>|
        #[trigger] check_steps(old, 0, old, true, zero_hash(), picks, fin, max_nonce, leading_zeros);
    lemma_check_steps_linked(old, 0, old, true, zero_hash(), picks, fin, max_nonce, leading_zeros);
}

/// Mining the last block of a linked, anchored chain whose blocks are in
/// place keeps it so.
proof fn lemma_mine_last_keeps_links(mid: Seq<BlockView>, fin: Seq<BlockView>, n: int, max_nonce: u64, leading_zeros: u64)
    requires
        n == mid.len() - 1,
        n >= 0,
        ids_in_place(mid),
        linked(mid),
        anchored(mid),
        mid[n].mine_outcome(fin[n], max_nonce, leading_zeros),
        fin.len() == mid.len(),
        forall|i: int| 0 <= i < mid.len() && i != n ==> #[trigger] fin[i] == mid[i],
    ensures
        ids_in_place(fin),
        linked(fin),
        anchored(fin),
{
    crate::chain::lemma_mine_outcome_keeps(mid[n], fin[n], max_nonce, leading_zeros);
    assert forall|i: int| 0 <= i < fin.len() implies #[trigger] fin[i].id == i by {
        if i != n {
            assert(fin[i] == mid[i]);
        }
    }
    assert forall|i: int| 0 < i < fin.len() implies #[trigger] fin[i].prev_block_hash == fin[i - 1].hash by {
        assert(mid[i].prev_block_hash == mid[i - 1].hash);
        assert(fin[i - 1] == mid[i - 1]);
        if i != n {
            assert(fin[i] == mid[i]);
        }
    }
    if n > 0 {
        assert(fin[0] == mid[0]);
    }
}

/// `check_steps` over blocks that are all mined keeps the chain as it is.
proof fn lemma_check_steps_all_mined(
    src: Seq<BlockView>,
    i: int,
    cur: Seq<BlockView>,
    prev: Seq<u8>,
    picks: Seq<BlockView>,
    fin: Seq<BlockView>,
    max_nonce: u64,
    leading_zeros: u64,
)
    requires
        0 <= i <= src.len(),
        forall|j: int| 0 <= j < src.len() ==> #[trigger] src[j].mined,
        check_steps(src, i, cur, true, prev, picks, fin, max_nonce, leading_zeros),
    ensures
        fin == cur,
    decreases src.len() - i,
{
    if i < src.len() {
        assert(src[i].mined);
        lemma_check_steps_all_mined(src, i + 1, cur, src[i].hash, picks, fin, max_nonce, leading_zeros);
    }
}

/// Mining again a chain whose blocks are all mined leaves it as it is.
pub proof fn lemma_check_outcome_all_mined(old: Seq<BlockView>, fin: Seq<BlockView>, max_nonce: u64, leading_zeros: u64)
    requires
        forall|j: int| 0 <= j < old.len() ==> #[trigger] old[j].mined,
        check_outcome(old, fin, max_nonce, leading_zeros),
    ensures
        fin == old,
{
    let picks = choose|picks: Seq<BlockView>|
        #[trigger] check_steps(old, 0, old, true, zero_hash(), picks, fin, max_nonce, leading_zeros);
    lemma_check_steps_all_mined(old, 0, old, zero_hash(), picks, fin, max_nonce, leading_zeros);
}

/// `check_steps` from the `i`-th block on, for a chain whose blocks are in
/// place, keeps the blocks before `i`, keeps each block up to which all are
/// mined, and makes each other block the mining outcome of itself attached
/// after the block before it.
proof fn lemma_check_steps_direct(
    src: Seq<BlockView>,
    i: int,
    cur: Seq<BlockView>,
    all_mined: bool,
    prev: Seq<u8>,
    picks: Seq<BlockView>,
    fin: Seq<BlockView>,
    max_nonce: u64,
    leading_zeros: u64,
)
    requires
        ids_in_place(src),
        0 <= i <= src.len(),
        cur.len() == src.len(),
        forall|j: int| i <= j < src.len() ==> #[trigger] cur[j] == src[j],
        all_mined == forall|t: int| 0 <= t < i ==> #[trigger] src[t].mined,
        i == 0 ==> prev == zero_hash(),
        i > 0 ==> prev == cur[i - 1].hash,
        check_steps(src, i, cur, all_mined, prev, picks, fin, max_nonce, leading_zeros),
    ensures
        fin.len() == src.len(),
        forall|j: int| 0 <= j < i ==> #[trigger] fin[j] == cur[j],
        forall|j: int| i <= j < src.len() && !rewritten(src, j) ==> #[trigger] fin[j] == src[j],
        forall|j: int|
            i <= j < src.len() && rewritten(src, j) ==> src[j].relinked(
                if j == 0 {
                    zero_hash()
                } else {
                    fin[j - 1].hash
                },
            ).mine_outcome(#[trigger] fin[j], max_nonce, leading_zeros),
    decreases src.len() - i,
{
    if i == src.len() {
    } else if src[i].mined && all_mined {
        lemma_check_steps_direct(src, i + 1, cur, true, src[i].hash, picks, fin, max_nonce, leading_zeros);
        assert(!rewritten(src, i));
    } else {
        let next = cur.update(src[i].id as int, picks[i]);
        assert(src[i].id == i);
        assert(exists|t: int| 0 <= t <= i && !#[trigger] src[t].mined);
        lemma_check_steps_direct(src, i + 1, next, false, picks[i].hash, picks, fin, max_nonce, leading_zeros);
        assert(rewritten(src, i));
        assert(fin[i] == next[i]);
        if i > 0 {
            assert(fin[i - 1] == next[i - 1]);
        }
        assert forall|j: int| i + 1 <= j < src.len() implies rewritten(src, j) by {
            assert(!src[choose|t: int| 0 <= t <= i && !#[trigger] src[t].mined].mined);
        }
    }
}

/// Mining the chain again, for a chain whose blocks are in place: the blocks
/// up to which all are mined are kept, and each other block is what mining
/// makes of it once it is attached after the block before it (the first one
/// after the zero hash) and marked as not mined.
pub proof fn lemma_check_outcome_direct(old: Seq<BlockView>, fin: Seq<BlockView>, max_nonce: u64, leading_zeros: u64)
    requires
        ids_in_place(old),
        check_outcome(old, fin, max_nonce, leading_zeros),
    ensures
        fin.len() == old.len(),
        forall|j: int| 0 <= j < old.len() && !rewritten(old, j) ==> #[trigger] fin[j] == old[j],
        forall|j: int|
            0 <= j < old.len() && rewritten(old, j) ==> old[j].relinked(
                if j == 0 {
                    zero_hash()
                } else {
                    fin[j - 1].hash
                },
            ).mine_outcome(#[trigger] fin[j], max_nonce, leading_zeros),
{
    let picks = choose|picks: Seq<BlockView>|
        #[trigger] check_steps(old, 0, old, true, zero_hash(), picks, fin, max_nonce, leading_zeros);
    lemma_check_steps_direct(old, 0, old, true, zero_hash(), picks, fin, max_nonce, leading_zeros);
}

/// In a linked chain of well-formed blocks, each mined block after the first
/// writes out as its previous hash the same text as the block before it
/// writes out as its hash.
pub proof fn lemma_mined_links_in_text(v: Seq<BlockView>)
    requires
        forall|i: int| 0 <= i < v.len() ==> (#[trigger] v[i]).wf(),
        linked(v),
    ensures
        forall|i: int|
            0 < i < v.len() && (#[trigger] v[i]).mined ==> v[i].encoded_prev_block_hash == v[i - 1].encoded_hash,
{
    assert forall|i: int| 0 < i < v.len() && (#[trigger] v[i]).mined implies v[i].encoded_prev_block_hash
        == v[i - 1].encoded_hash by {
        assert(v[i].wf());
        assert(v[i - 1].wf());
        assert(v[i].prev_block_hash == v[i - 1].hash);
    }
}

/// `add_block` took the chain from `old` to `mid`, and mining its last block
/// then took it to `fin`.
pub open spec fn add_then_mine(
    old: Seq<BlockView>,
    mid: Seq<BlockView>,
    fin: Seq<BlockView>,
    id: u64,
    text: Seq<char>,
    max_nonce: u64,
    leading_zeros: u64,
) -> bool {
    let n = mid.len() - 1;
    &&& add_outcome(old, mid, id, text, max_nonce, leading_zeros)
    &&& mid[n].mine_outcome(fin[n], max_nonce, leading_zeros)
    &&& fin.len() == mid.len()
    &&& forall|i: int| 0 <= i < mid.len() && i != n ==> #[trigger] fin[i] == mid[i]
}

impl View for Blockchain {
    type V = Seq<BlockView>;

    closed spec fn view(&self) -> Seq<BlockView> {
        self.blocks@.map_values(|b: Block| b@)
    }
}

impl Blockchain {
    /// The time that the last successful mining of each block took, as the
    /// blocks record it.
    pub closed spec fn mining_times(&self) -> Seq<Duration> {
        self.blocks@.map_values(|b: Block| b.recorded_mining_time())
    }

    /// The chain records one mining time for each block.
    pub proof fn lemma_mining_times_len(&self)
        ensures
            self.mining_times().len() == self@.len(),
    {
    }

    /// The chain holds at least one block, and every block is well formed.
    pub open spec fn wf(&self) -> bool {
        &&& self@.len() > 0
        &&& forall|i: int| 0 <= i < self@.len() ==> (#[trigger] self@[i]).wf()
    }

    /// A chain of one block, the genesis block with text `data`.
    pub fn new(data: &str) -> (r: Self)
        requires
            plain_len_ok(data.spec_bytes().len() as int),
        ensures
            r@ == seq![BlockView::fresh(0, data@, zero_hash())],
            r.wf(),
            linked(r@),
            anchored(r@),
            ids_in_place(r@),
    {
        let genesis = Block::genesis(data);
        let mut blocks: Vec<Block> = Vec::new();
        blocks.push(genesis);
        let r = Blockchain { blocks };
        assert(r@ =~= seq![BlockView::fresh(0, data@, zero_hash())]);
        r
    }

    /// The number of blocks.
    pub fn len(&self) -> (r: usize)
        ensures
            r == self@.len(),
    {
        self.blocks.len()
    }

    /// The block at position `index`.
    pub fn block(&self, index: usize) -> (r: &Block)
        requires
            index < self@.len(),
        ensures
            r@ == self@[index as int],
    {
        &self.blocks[index]
    }

    /// Mines the last block where it is not mined, then appends a new block
    /// with id `id` and text `data`, attached after the last block.
    pub fn add_block(&mut self, id: u64, data: &str, max_nonce: u64, leading_zeros: u64)
        requires
            old(self).wf(),
            plain_len_ok(data.spec_bytes().len() as int),
            old(self)@.last().mined || old(self)@.last().mine_ok(max_nonce, leading_zeros),
        ensures
            final(self).wf(),
            add_outcome(old(self)@, final(self)@, id, data@, max_nonce, leading_zeros),
            linked(old(self)@) ==> linked(final(self)@),
            anchored(old(self)@) ==> anchored(final(self)@),
            ids_in_place(old(self)@) && id == old(self)@.len() ==> ids_in_place(final(self)@),
            final(self).mining_times().len() == old(self)@.len() + 1,
            forall|i: int| 0 <= i < old(self)@.len() - 1 ==> #[trigger] final(self).mining_times()[i] == old(self).mining_times()[i],
            old(self)@.last().mined || !old(self)@.last().can_be_mined(max_nonce, leading_zeros) ==> final(self).mining_times()[old(self)@.len() - 1] == old(self).mining_times()[old(self)@.len() - 1],
    {
        let ghost old_view = self@;
        let ghost old_blocks = self.blocks@;
        let n = self.blocks.len();
        assert(self.blocks@[n - 1]@ == old_view[n - 1]);
        assert(old_view[n - 1].wf());
        if !self.blocks[n - 1].mined() {
            let mut prev_block = self.blocks.pop().unwrap();
            assert(prev_block@ == old_view[n - 1]);
            assert(prev_block == old_blocks[n - 1]);
            prev_block.mine_block(max_nonce, leading_zeros);
            self.blocks.push(prev_block);
            assert(self.blocks@ =~= old_blocks.update(n - 1, prev_block));
            assert(self@ =~= old_view.update(n - 1, self@[n - 1]));
        }
        let ghost mid_blocks = self.blocks@;
        let last_hash = self.blocks[n - 1].hash();
        let block = Block::new(id, data, last_hash);
        self.blocks.push(block);
        proof {
            let fin = self@;
            assert(fin.len() == n + 1);
            assert(self.blocks@ =~= mid_blocks.push(block));
            assert forall|i: int| 0 <= i < fin.len() implies (#[trigger] fin[i]).wf() by {
                assert(fin[i] == self.blocks@[i]@);
                if i < n - 1 {
                    assert(fin[i] == old_view[i]);
                    assert(old_view[i].wf());
                }
            }
            assert forall|i: int| 0 <= i < n - 1 implies #[trigger] fin[i] == old_view[i] by {}
            assert forall|i: int| 0 <= i < n - 1 implies #[trigger] self.mining_times()[i] == old(self).mining_times()[i] by {
                assert(self.blocks@[i] == old_blocks[i]);
            }
            if linked(old_view) {
                assert forall|i: int| 0 < i < fin.len() implies #[trigger] fin[i].prev_block_hash
                    == fin[i - 1].hash by {
                    if i < n - 1 {
                        assert(old_view[i].prev_block_hash == old_view[i - 1].hash);
                    } else if i == n - 1 {
                        assert(old_view[i].prev_block_hash == old_view[i - 1].hash);
                    }
                }
            }
        }
    }

    /// Adds a block (see `add_block`), then mines it.
    pub fn add_and_mine_block(&mut self, id: u64, data: &str, max_nonce: u64, leading_zeros: u64)
        requires
            old(self).wf(),
            mining_ok(max_nonce, leading_zeros),
            max_nonce == 0 || nonced_len_ok(data.spec_bytes().len() as int),
            plain_len_ok(data.spec_bytes().len() as int),
            old(self)@.last().mined || old(self)@.last().mine_ok(max_nonce, leading_zeros),
            id == old(self)@.len(),
            ids_in_place(old(self)@),
            linked(old(self)@),
            anchored(old(self)@),
        ensures
            final(self).wf(),
            exists|mid: Seq<BlockView>| #[trigger] add_then_mine(old(self)@, mid, final(self)@, id, data@, max_nonce, leading_zeros),
            final(self)@.len() == old(self)@.len() + 1,
            ids_in_place(final(self)@),
            linked(final(self)@),
            anchored(final(self)@),
            forall|i: int| 0 <= i < old(self)@.len() - 1 ==> #[trigger] final(self).mining_times()[i] == old(self).mining_times()[i],
            old(self)@.last().mined || !old(self)@.last().can_be_mined(max_nonce, leading_zeros) ==> final(self).mining_times()[old(self)@.len() - 1] == old(self).mining_times()[old(self)@.len() - 1],
    {
        let ghost old_view = self@;
        let n = self.blocks.len();
        self.add_block(id, data, max_nonce, leading_zeros);
        let ghost mid = self@;
        self.mine_block_at(n, max_nonce, leading_zeros);
        proof {
            lemma_mine_last_keeps_links(mid, self@, n as int, max_nonce, leading_zeros);
            assert(add_then_mine(old_view, mid, self@, id, data@, max_nonce, leading_zeros));
        }
    }

    /// Mines the block at position `index` (see `Block::mine_block`).
    pub fn mine_block_at(&mut self, index: usize, max_nonce: u64, leading_zeros: u64)
        requires
            old(self).wf(),
            index < old(self)@.len(),
            old(self)@[index as int].mine_ok(max_nonce, leading_zeros),
        ensures
            final(self).wf(),
            final(self)@.len() == old(self)@.len(),
            forall|i: int| 0 <= i < old(self)@.len() && i != index ==> #[trigger] final(self)@[i] == old(self)@[i],
            old(self)@[index as int].mine_outcome(final(self)@[index as int], max_nonce, leading_zeros),
            final(self).mining_times().len() == old(self).mining_times().len(),
            forall|i: int| 0 <= i < old(self)@.len() && i != index ==> #[trigger] final(self).mining_times()[i] == old(self).mining_times()[i],
            !old(self)@[index as int].can_be_mined(max_nonce, leading_zeros) ==> final(self).mining_times()[index as int] == old(self).mining_times()[index as int],
    {
        let ghost old_view = self@;
        let ghost old_blocks = self.blocks@;
        let mut b = self.blocks[index].clone();
        assert(b@ == old_view[index as int]);
        assert(old_view[index as int].wf());
        b.mine_block(max_nonce, leading_zeros);
        self.blocks.set(index, b);
        assert(self@ =~= old_view.update(index as int, self@[index as int]));
        assert(self.blocks@ =~= old_blocks.update(index as int, b));
    }

    /// Gives the block at position `index` a new text, to be mined again.
    pub fn set_block_content(&mut self, index: usize, content: &str)
        requires
            old(self).wf(),
            index < old(self)@.len(),
        ensures
            final(self).wf(),
            final(self)@ == old(self)@.update(index as int, old(self)@[index as int].with_content(content@)),
            final(self).mining_times() == old(self).mining_times(),
    {
        let ghost old_view = self@;
        let ghost old_blocks = self.blocks@;
        let mut b = self.blocks[index].clone();
        assert(b@ == old_view[index as int]);
        assert(old_view[index as int].wf());
        b.set_content(content);
        self.blocks.set(index, b);
        assert(self@ =~= old_view.update(index as int, old_view[index as int].with_content(content@)));
        assert(self.blocks@ =~= old_blocks.update(index as int, b));
        assert(self.mining_times() =~= old(self).mining_times());
    }

    /// Keeps the blocks up to the first one that is not mined; from there on,
    /// attaches each block after the one before it, marks it as not mined,
    /// mines it again, and writes it back at the position of its id.
    pub fn check_and_mine_blocks(&mut self, max_nonce: u64, leading_zeros: u64)
        requires
            old(self).wf(),
            remine_ok(old(self)@, max_nonce, leading_zeros),
        ensures
            final(self).wf(),
            check_outcome(old(self)@, final(self)@, max_nonce, leading_zeros),
            final(self)@.len() == old(self)@.len(),
            ids_in_place(old(self)@) && linked(old(self)@) && anchored(old(self)@) ==> ids_in_place(
                final(self)@,
            ) && linked(final(self)@) && anchored(final(self)@),
            final(self).mining_times().len() == old(self).mining_times().len(),
            forall|j: int|
                0 <= j < old(self)@.len() && untouched(old(self)@, j) ==> #[trigger] final(self)@[j] == old(self)@[j]
                    && final(self).mining_times()[j] == old(self).mining_times()[j],
            ids_in_place(old(self)@) ==> forall|j: int|
                0 <= j < old(self)@.len() && !rewritten(old(self)@, j) ==> #[trigger] final(self)@[j] == old(self)@[j]
                    && final(self).mining_times()[j] == old(self).mining_times()[j],
            ids_in_place(old(self)@) ==> forall|j: int|
                0 <= j < old(self)@.len() && rewritten(old(self)@, j) ==> old(self)@[j].relinked(
                    if j == 0 {
                        zero_hash()
                    } else {
                        final(self)@[j - 1].hash
                    },
                ).mine_outcome(#[trigger] final(self)@[j], max_nonce, leading_zeros),
    {
        let ghost src = self@;
        let ghost src_times = self.mining_times();
        let n = self.blocks.len();
        let mut blocks_rev: Vec<Block> = Vec::new();
        let mut k: usize = 0;
        while k < n
            invariant
                n == self.blocks@.len(),
                self@ == src,
                k <= n,
                blocks_rev@.len() == k,
                forall|j: int| 0 <= j < k ==> #[trigger] blocks_rev@[j]@ == src[j],
            decreases n - k,
        {
            blocks_rev.push(self.blocks[k].clone());
            k = k + 1;
        }
        let mut mined = true;
        let mut temp_prev_hash: Sha256Hash = [0u8; HASH_BYTE_SIZE];
        assert(temp_prev_hash@ =~= zero_hash());
        let ghost mut picks: Seq<BlockView> = src;
        let mut i: usize = 0;
        while i < n
            invariant
                n == src.len(),
                n == blocks_rev@.len(),
                forall|j: int| 0 <= j < n ==> #[trigger] blocks_rev@[j]@ == src[j],
                forall|j: int| 0 <= j < n ==> (#[trigger] src[j]).wf(),
                remine_ok(src, max_nonce, leading_zeros),
                src_times.len() == n,
                self.mining_times().len() == n,
                forall|j: int|
                    0 <= j < n && #[trigger] untouched_before(src, i as int, j)
                        ==> self@[j] == src[j] && self.mining_times()[j] == src_times[j],
                i <= n,
                self@.len() == n,
                picks.len() == n,
                self.wf(),
                mined == forall|j: int| 0 <= j < i ==> #[trigger] src[j].mined,
                forall|p: Seq<BlockView>, fin: Seq<BlockView>|
                    (forall|j: int| 0 <= j < i ==> #[trigger] p[j] == picks[j]) && #[trigger] check_steps(
                        src,
                        i as int,
                        self@,
                        mined,
                        temp_prev_hash@,
                        p,
                        fin,
                        max_nonce,
                        leading_zeros,
                    ) ==> check_steps(src, 0, src, true, zero_hash(), p, fin, max_nonce, leading_zeros),
            decreases n - i,
        {
            let mut block = blocks_rev[i].clone();
            let ghost cur = self@;
            let ghost cur_times = self.mining_times();
            let ghost prev = temp_prev_hash@;
            let ghost old_picks = picks;
            if block.mined() && mined {
                temp_prev_hash = block.hash();
                assert forall|j: int|
                    0 <= j < n && #[trigger] untouched_before(src, i + 1, j)
                        implies self@[j] == src[j] && self.mining_times()[j] == src_times[j] by {
                    assert(untouched_before(src, i as int, j));
                }
                assert forall|p: Seq<BlockView>, fin: Seq<BlockView>|
                    (forall|j: int| 0 <= j < i + 1 ==> #[trigger] p[j] == picks[j]) && #[trigger] check_steps(
                        src,
                        i + 1,
                        cur,
                        true,
                        temp_prev_hash@,
                        p,
                        fin,
                        max_nonce,
                        leading_zeros,
                    ) implies check_steps(src, 0, src, true, zero_hash(), p, fin, max_nonce, leading_zeros) by {
                    assert(check_steps(src, i as int, cur, true, prev, p, fin, max_nonce, leading_zeros));
                }
            } else {
                let ghost was_mined = mined;
                assert(block@ == src[i as int]);
                assert(!(src[i as int].mined && was_mined));
                mined = false;
                let ghost t_unmined: int = if !src[i as int].mined {
                    i as int
                } else {
                    choose|j: int| 0 <= j < i && !src[j].mined
                };
                assert(0 <= t_unmined <= i && !src[t_unmined].mined);
                let ghost bi = src[i as int];
                let ghost bt = src[t_unmined];
                assert(bi.id < n && bi.mine_ok(max_nonce, leading_zeros));
                block.relink(temp_prev_hash);
                assert(block@ == src[i as int].relinked(prev));
                block.mine_block(max_nonce, leading_zeros);
                let ghost nb = block@;
                proof {
                    picks = picks.update(i as int, nb);
                }
                let ghost cur_blocks = self.blocks@;
                let idx = block.id() as usize;
                temp_prev_hash = block.hash();
                self.blocks.set(idx, block);
                assert(self@ =~= cur.update(idx as int, nb));
                assert(self.blocks@ =~= cur_blocks.update(idx as int, block));
                assert forall|j: int|
                    0 <= j < n && #[trigger] untouched_before(src, i + 1, j)
                        implies self@[j] == src[j] && self.mining_times()[j] == src_times[j] by {
                    assert(!src[t_unmined].mined);
                    assert(src[i as int].id != j);
                    assert(self.blocks@[j] == cur_blocks[j]);
                    assert(untouched_before(src, i as int, j));
                    assert(cur[j] == src[j] && cur_times[j] == src_times[j]);
                    assert(self.mining_times()[j] == cur_times[j]);
                }
                assert forall|j: int| 0 <= j < self@.len() implies (#[trigger] self@[j]).wf() by {
                    if j != idx {
                        assert(self@[j] == cur[j]);
                    }
                }
                assert forall|p: Seq<BlockView>, fin: Seq<BlockView>|
                    (forall|j: int| 0 <= j < i + 1 ==> #[trigger] p[j] == picks[j]) && #[trigger] check_steps(
                        src,
                        i + 1,
                        self@,
                        false,
                        temp_prev_hash@,
                        p,
                        fin,
                        max_nonce,
                        leading_zeros,
                    ) implies check_steps(src, 0, src, true, zero_hash(), p, fin, max_nonce, leading_zeros) by {
                    assert(p[i as int] == picks[i as int]);
                    assert(picks[i as int] == nb);
                    assert(nb.id == src[i as int].id);
                    assert(check_steps(src, i as int, cur, was_mined, prev, p, fin, max_nonce, leading_zeros));
                    assert forall|j: int| 0 <= j < i implies #[trigger] p[j] == old_picks[j] by {
                        assert(p[j] == picks[j]);
                        assert(picks[j] == old_picks[j]);
                    }
                }
            }
            i = i + 1;
        }
        assert(check_steps(src, n as int, self@, mined, temp_prev_hash@, picks, self@, max_nonce, leading_zeros));
        assert(check_steps(src, 0, src, true, zero_hash(), picks, self@, max_nonce, leading_zeros));
        proof {
            if ids_in_place(src) && linked(src) && anchored(src) {
                lemma_check_outcome_linked(src, self@, max_nonce, leading_zeros);
            }
            assert forall|j: int| 0 <= j < src.len() && untouched(src, j) implies #[trigger] self@[j] == src[j]
                && self.mining_times()[j] == src_times[j] by {
                assert(untouched_before(src, n as int, j));
            }
            if ids_in_place(src) {
                lemma_check_outcome_direct(src, self@, max_nonce, leading_zeros);
                assert forall|j: int| 0 <= j < src.len() && !rewritten(src, j) implies #[trigger] self@[j] == src[j]
                    && self.mining_times()[j] == src_times[j] by {
                    assert forall|i2: int, t: int| 0 <= t <= i2 < src.len() && !#[trigger] src[t].mined implies #[trigger] src[i2].id != j by {
                        if i2 == j {
                            assert(rewritten(src, j));
                        }
                    }
                    assert(untouched(src, j));
                }
            }
        }
    }
}

} // verus!
