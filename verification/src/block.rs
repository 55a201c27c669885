//! A block of the chain: its text, the hash of the block before it, and the
//! nonce that mining found for it.

use vstd::prelude::*;
use vstd::string::StringSliceAdditionalSpecFns;
use vstd::utf8::encode_utf8;
use std::time::Duration;
use std::time::Instant;
use crate::digest::{
    Sha256Hash, HASH_BYTE_SIZE, sha256, hex_lower, nonced_contents, plain_contents, nonce_meets,
    plain_len_ok, nonced_len_ok, mining_ok, hash_without_nonce, nonced_hash, encode_hash, create_nonce_vec, find_nonce,
};

verus! {

#[verifier::external_type_specification]
#[verifier::external_body]
pub struct ExInstant(Instant);

/// Calls `std::time::Instant::now`. Nothing is claimed of the instant it
/// returns: it depends on the clock.
#[verifier::external_body]
fn instant_now() -> Instant {
    Instant::now()
}

/// Calls `std::time::Instant::elapsed`. Nothing is claimed of the duration it
/// returns: it depends on the clock.
#[verifier::external_body]
fn instant_elapsed(start: &Instant) -> Duration {
    start.elapsed()
}

/// The hash that stands before the first block: 32 zero bytes.
pub open spec fn zero_hash() -> Seq<u8> {
    Seq::new(32, |i: int| 0u8)
}

/// What a block holds, apart from the time that mining took.
#[verifier::ext_equal]
pub struct BlockView {
    pub id: u64,
    pub prev_block_hash: Seq<u8>,
    pub nonce: u64,
    pub input_data: Seq<char>,
    pub data: Seq<u8>,
    pub hash: Seq<u8>,
    pub mined: bool,
    pub encoded_hash: Seq<char>,
    pub encoded_prev_block_hash: Seq<char>,
}

/// A block of the chain.
#[derive(Debug)]
pub struct Block {
    id: u64,
    prev_block_hash: Sha256Hash,
    nonce: u64,
    input_data: String,
    data: Vec<u8>,
    hash: Sha256Hash,
    mined: bool,
    mining_time: Duration,
    encoded_hash: String,
    encoded_prev_block_hash: String,
}

impl View for Block {
    type V = BlockView;

    closed spec fn view(&self) -> BlockView {
        BlockView {
            id: self.id,
            prev_block_hash: self.prev_block_hash@,
            nonce: self.nonce,
            input_data: self.input_data@,
            data: self.data@,
            hash: self.hash@,
            mined: self.mined,
            encoded_hash: self.encoded_hash@,
            encoded_prev_block_hash: self.encoded_prev_block_hash@,
        }
    }
}

impl BlockView {
    /// The block holds its text in bytes as the UTF-8 encoding of its text,
    /// its hash is written out in hexadecimal, and a mined block's hash is the
    /// hash of its contents with its nonce, and its previous hash is written
    /// out in hexadecimal.
    pub open spec fn wf(self) -> bool {
        &&& self.data == encode_utf8(self.input_data)
        &&& self.prev_block_hash.len() == 32
        &&& self.hash.len() == 32
        &&& self.encoded_hash == hex_lower(self.hash)
        &&& self.mined ==> self.encoded_prev_block_hash == hex_lower(self.prev_block_hash)
        &&& self.mined ==> self.hash == sha256(
            nonced_contents(self.data, self.prev_block_hash, self.nonce),
        )
    }

    /// The block as `Block::new` makes it from an id, a text and the hash of
    /// the block before.
    pub open spec fn fresh(id: u64, text: Seq<char>, prev_hash: Seq<u8>) -> BlockView {
        let data = encode_utf8(text);
        let hash = sha256(plain_contents(data, prev_hash));
        BlockView {
            id,
            prev_block_hash: prev_hash,
            nonce: 0,
            input_data: text,
            data,
            hash,
            mined: false,
            encoded_hash: hex_lower(hash),
            encoded_prev_block_hash: hex_lower(prev_hash),
        }
    }

    /// The block once mining has found `nonce` for it.
    pub open spec fn mined_with(self, nonce: u64) -> BlockView {
        let hash = sha256(nonced_contents(self.data, self.prev_block_hash, nonce));
        BlockView {
            nonce,
            hash,
            mined: true,
            encoded_hash: hex_lower(hash),
            encoded_prev_block_hash: hex_lower(self.prev_block_hash),
            ..self
        }
    }

    /// Some nonce in `1..=max_nonce` meets the difficulty for this block.
    pub open spec fn can_be_mined(self, max_nonce: u64, leading_zeros: u64) -> bool {
        exists|n: u64|
            1 <= n <= max_nonce && #[trigger] nonce_meets(
                self.data,
                self.prev_block_hash,
                n,
                leading_zeros,
            )
    }

    /// What mining with the candidates `1..=max_nonce` may make of the block:
    /// where some candidate meets the difficulty, the block mined with one of
    /// them (which one is left open); otherwise the block as it was.
    pub open spec fn mine_outcome(self, result: BlockView, max_nonce: u64, leading_zeros: u64) -> bool {
        if self.can_be_mined(max_nonce, leading_zeros) {
            exists|n: u64|
                1 <= n <= max_nonce && #[trigger] nonce_meets(
                    self.data,
                    self.prev_block_hash,
                    n,
                    leading_zeros,
                ) && result == self.mined_with(n)
        } else {
            result == self
        }
    }

    /// `mine_block` with these preferences runs without overflow: the
    /// candidates can be counted and, where there is any candidate, the
    /// difficulty is at most 64 digits and the block's text can be hashed with
    /// a nonce.
    pub open spec fn mine_ok(self, max_nonce: u64, leading_zeros: u64) -> bool {
        mining_ok(max_nonce, leading_zeros) && (max_nonce == 0 || nonced_len_ok(self.data.len() as int))
    }

    /// The block as `Block::refresh_block` leaves it: hashed again without a
    /// nonce, and not mined.
    pub open spec fn refreshed(self) -> BlockView {
        let hash = sha256(plain_contents(self.data, self.prev_block_hash));
        BlockView { hash, mined: false, nonce: 0, encoded_hash: hex_lower(hash), ..self }
    }

    /// The block with a new text, to be mined again.
    pub open spec fn with_content(self, text: Seq<char>) -> BlockView {
        BlockView { input_data: text, data: encode_utf8(text), mined: false, ..self }
    }

    /// The block marked as not mined and attached after `prev_hash`.
    pub open spec fn relinked(self, prev_hash: Seq<u8>) -> BlockView {
        BlockView { mined: false, prev_block_hash: prev_hash, ..self }
    }
}

/// Whatever mining makes of a well-formed block: where it is mined, its hash
/// is that of its contents with its nonce, and both its hash and its previous
/// hash are written out as their lower-case hexadecimal text.
pub proof fn lemma_mined_block_texts(b: BlockView, r: BlockView, max_nonce: u64, leading_zeros: u64)
    requires
        b.wf(),
        b.mine_outcome(r, max_nonce, leading_zeros),
    ensures
        r.mined ==> r.encoded_prev_block_hash == hex_lower(r.prev_block_hash),
        r.mined ==> r.encoded_hash == hex_lower(r.hash),
        r.mined ==> r.hash == sha256(nonced_contents(r.data, r.prev_block_hash, r.nonce)),
{
    if b.can_be_mined(max_nonce, leading_zeros) {
        let n = choose|n: u64|
            1 <= n <= max_nonce && #[trigger] nonce_meets(b.data, b.prev_block_hash, n, leading_zeros)
                && r == b.mined_with(n);
        assert(r == b.mined_with(n));
    }
}

/// Refreshing a block that mining, successful or not, took from its fresh
/// state gives back the fresh block.
pub proof fn lemma_refresh_after_mining_is_fresh(
    id: u64,
    text: Seq<char>,
    prev_hash: Seq<u8>,
    mined: BlockView,
    max_nonce: u64,
    leading_zeros: u64,
)
    requires
        BlockView::fresh(id, text, prev_hash).mine_outcome(mined, max_nonce, leading_zeros),
    ensures
        mined.refreshed() == BlockView::fresh(id, text, prev_hash),
{
    let fresh = BlockView::fresh(id, text, prev_hash);
    if fresh.can_be_mined(max_nonce, leading_zeros) {
        let n = choose|n: u64|
            1 <= n <= max_nonce && #[trigger] nonce_meets(fresh.data, fresh.prev_block_hash, n, leading_zeros)
                && mined == fresh.mined_with(n);
        lemma_refresh_undoes_mining(id, text, prev_hash, n);
    } else {
        assert(fresh.refreshed() =~= fresh);
    }
}

/// Refreshing a block that mining took from its fresh state gives back the
/// fresh block.
pub proof fn lemma_refresh_undoes_mining(id: u64, text: Seq<char>, prev_hash: Seq<u8>, nonce: u64)
    ensures
        BlockView::fresh(id, text, prev_hash).mined_with(nonce).refreshed() == BlockView::fresh(
            id,
            text,
            prev_hash,
        ),
{
    assert(BlockView::fresh(id, text, prev_hash).mined_with(nonce).refreshed() =~= BlockView::fresh(
        id,
        text,
        prev_hash,
    ));
}

/// Copies a byte slice into a new vector.
fn bytes_to_vec(s: &[u8]) -> (r: Vec<u8>)
    ensures
        r@ == s@,
{
    let mut v: Vec<u8> = Vec::new();
    let mut i: usize = 0;
    while i < s.len()
        invariant
            i <= s@.len(),
            v@ == s@.subrange(0, i as int),
        decreases s@.len() - i,
    {
        v.push(s[i]);
        i = i + 1;
        assert(v@ =~= s@.subrange(0, i as int));
    }
    assert(s@.subrange(0, s@.len() as int) =~= s@);
    v
}

/// Copies a string.
fn copy_string(s: &String) -> (r: String)
    ensures
        r@ == s@,
{
    s.as_str().to_owned()
}

impl Clone for Block {
    fn clone(&self) -> (r: Self)
        ensures
            r@ == self@,
            r.recorded_mining_time() == self.recorded_mining_time(),
    {
        Block {
            id: self.id,
            prev_block_hash: self.prev_block_hash,
            nonce: self.nonce,
            input_data: copy_string(&self.input_data),
            data: bytes_to_vec(self.data.as_slice()),
            hash: self.hash,
            mined: self.mined,
            mining_time: self.mining_time,
            encoded_hash: copy_string(&self.encoded_hash),
            encoded_prev_block_hash: copy_string(&self.encoded_prev_block_hash),
        }
    }
}

impl Block {
    /// The time that the last successful mining took, as the block records it.
    pub closed spec fn recorded_mining_time(&self) -> Duration {
        self.mining_time
    }

    /// A block with id `id` and text `data`, attached after `prev_hash`, not
    /// yet mined: its hash is that of its contents without a nonce.
    pub fn new(id: u64, data: &str, prev_hash: Sha256Hash) -> (r: Self)
        requires
            plain_len_ok(data.spec_bytes().len() as int),
        ensures
            r@ == BlockView::fresh(id, data@, prev_hash@),
            r@.wf(),
    {
        let hash = hash_without_nonce(data, prev_hash);
        let before = instant_now();
        let mining_time = instant_elapsed(&before);
        Block {
            id,
            prev_block_hash: prev_hash,
            nonce: 0,
            input_data: data.to_owned(),
            data: bytes_to_vec(data.as_bytes()),
            hash,
            mined: false,
            mining_time,
            encoded_hash: encode_hash(&hash),
            encoded_prev_block_hash: encode_hash(&prev_hash),
        }
    }

    /// The first block of a chain, with id 0, attached after the zero hash.
    pub fn genesis(data: &str) -> (r: Self)
        requires
            plain_len_ok(data.spec_bytes().len() as int),
        ensures
            r@ == BlockView::fresh(0, data@, zero_hash()),
            r@.wf(),
    {
        let zero: Sha256Hash = [0u8; HASH_BYTE_SIZE];
        assert(zero@ =~= zero_hash());
        Self::new(0, data, zero)
    }

    /// Searches the nonces `1..=max_nonce` for one that makes the block's hash
    /// meet the difficulty `leading_zeros`; where one is found, the block is
    /// mined with it and the time the search took is recorded. Otherwise the
    /// block is left as it was.
    pub fn mine_block(&mut self, max_nonce: u64, leading_zeros: u64) -> (r: &Self)
        requires
            old(self)@.wf(),
            old(self)@.mine_ok(max_nonce, leading_zeros),
        ensures
            final(self)@.wf(),
            old(self)@.mine_outcome(final(self)@, max_nonce, leading_zeros),
            final(self)@.mined ==> final(self)@.encoded_prev_block_hash == hex_lower(final(self)@.prev_block_hash)
                && final(self)@.encoded_hash == hex_lower(final(self)@.hash),
            !old(self)@.can_be_mined(max_nonce, leading_zeros) ==> final(self).recorded_mining_time()
                == old(self).recorded_mining_time(),
            r@ == final(self)@,
            r.recorded_mining_time() == final(self).recorded_mining_time(),
    {
        let before = instant_now();
        let mut nonce_vec = create_nonce_vec(max_nonce);
        let data: &str = self.input_data.as_str();
        let nonced = find_nonce(data, self.prev_block_hash, &mut nonce_vec, leading_zeros);
        let elapsed = instant_elapsed(&before);
        let ghost old_view = self@;
        if nonced != 0 {
            proof {
                let k = choose|k: int| 0 <= k < nonce_vec@.len() && nonce_vec@[k] == nonced;
                assert(nonce_vec@[k] == k + 1);
                assert(max_nonce > 0);
            }
            self.nonce = nonced;
            self.hash = nonced_hash(data, self.prev_block_hash, nonced);
            self.mined = true;
            self.mining_time = elapsed;
            self.encoded_hash = encode_hash(&self.hash);
            self.encoded_prev_block_hash = encode_hash(&self.prev_block_hash);
            assert(self@ == old_view.mined_with(nonced));
            self
        } else {
            assert forall|n: u64| 1 <= n <= max_nonce implies !#[trigger] nonce_meets(
                old_view.data,
                old_view.prev_block_hash,
                n,
                leading_zeros,
            ) by {
                assert(nonce_vec@[n - 1] == n);
            }
            self
        }
    }

    /// Hashes the block again without a nonce and marks it as not mined.
    pub fn refresh_block(&mut self)
        requires
            old(self)@.wf(),
            plain_len_ok(old(self)@.data.len() as int),
        ensures
            final(self)@ == old(self)@.refreshed(),
            final(self)@.wf(),
            final(self).recorded_mining_time() == old(self).recorded_mining_time(),
    {
        let hash = hash_without_nonce(self.input_data.as_str(), self.prev_block_hash);
        self.hash = hash;
        self.mined = false;
        self.nonce = 0;
        self.encoded_hash = encode_hash(&hash);
    }

    /// Gives the block a new text, to be mined again.
    pub fn set_content(&mut self, content: &str)
        requires
            old(self)@.wf(),
        ensures
            final(self)@ == old(self)@.with_content(content@),
            final(self)@.wf(),
            final(self).recorded_mining_time() == old(self).recorded_mining_time(),
    {
        self.input_data = content.to_owned();
        self.data = bytes_to_vec(content.as_bytes());
        self.mined = false;
    }

    /// Marks the block as not mined and attaches it after `prev_hash`.
    pub(crate) fn relink(&mut self, prev_hash: Sha256Hash)
        requires
            old(self)@.wf(),
        ensures
            final(self)@ == old(self)@.relinked(prev_hash@),
            final(self)@.wf(),
            final(self).recorded_mining_time() == old(self).recorded_mining_time(),
    {
        self.mined = false;
        self.prev_block_hash = prev_hash;
    }

    pub fn id(&self) -> (r: u64)
        ensures
            r == self@.id,
    {
        self.id
    }

    pub fn prev_block_hash(&self) -> (r: Sha256Hash)
        ensures
            r@ == self@.prev_block_hash,
    {
        self.prev_block_hash
    }

    pub fn nonce(&self) -> (r: u64)
        ensures
            r == self@.nonce,
    {
        self.nonce
    }

    pub fn input_data(&self) -> (r: &str)
        ensures
            r@ == self@.input_data,
    {
        self.input_data.as_str()
    }

    pub fn data(&self) -> (r: &[u8])
        ensures
            r@ == self@.data,
    {
        self.data.as_slice()
    }

    pub fn hash(&self) -> (r: Sha256Hash)
        ensures
            r@ == self@.hash,
    {
        self.hash
    }

    pub fn mined(&self) -> (r: bool)
        ensures
            r == self@.mined,
    {
        self.mined
    }

    /// The time that the last successful mining took.
    pub fn mining_time(&self) -> (r: Duration)
        ensures
            r == self.recorded_mining_time(),
    {
        self.mining_time
    }

    pub fn encoded_hash(&self) -> (r: &str)
        ensures
            r@ == self@.encoded_hash,
    {
        self.encoded_hash.as_str()
    }

    pub fn encoded_prev_block_hash(&self) -> (r: &str)
        ensures
            r@ == self@.encoded_prev_block_hash,
    {
        self.encoded_prev_block_hash.as_str()
    }
}

} // verus!
