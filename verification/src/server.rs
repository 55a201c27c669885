//! The decisions of the block-chain server: for each request it receives, what
//! becomes of the chain and the preferences, which page to answer with, and
//! what to do with the file that holds the chain.

use vstd::prelude::*;
use vstd::string::StringSliceAdditionalSpecFns;
use vstd::utf8::{encode_utf8, decode_utf8, encode_scalar};
use crate::block::{BlockView, zero_hash};
use crate::chain::{Blockchain, linked, anchored, ids_in_place, add_outcome, check_outcome, untouched, remine_ok};
use crate::digest::{mining_ok, text_len_ok, nonced_len_ok};
use std::time::Duration;
use crate::request::{
    lit_at, bytes_at, convert_marker, convert_marker_bytes, request_content_outcome, mine_id_outcome,
    mine_content_outcome, max_nonce_outcome, leading_zeros_outcome, try_get_request_content,
    try_get_mine_id, get_mine_content, try_get_max_nonce, try_get_leading_zeros,
};

verus! {

/// The page that answers a request.
#[derive(PartialEq, Eq, Structural, Debug, Clone, Copy)]
pub enum Page {
    /// The user interface.
    Index,
    /// The file that holds the chain.
    Output,
}

/// What becomes of the file that holds the chain.
#[derive(PartialEq, Eq, Structural, Debug, Clone, Copy)]
pub enum OutputUpdate {
    /// It is left as it is.
    Untouched,
    /// It is emptied.
    Emptied,
    /// It is emptied and the chain is written to it.
    Rewritten,
}

/// Why a request stops the server.
#[derive(PartialEq, Eq, Structural, Debug, Clone, Copy)]
pub enum Fault {
    /// The text of the block to add cannot be cut out of the request.
    BadRequestContent,
    /// The id of the block to mine is missing or too large.
    BadMineId,
    /// No block has the id of the block to mine.
    NoSuchBlock,
    /// The largest nonce is missing or too large.
    BadMaxNonce,
    /// The number of leading zeros is missing or too large.
    BadLeadingZeros,
    /// The preferences do not allow mining: the largest nonce is `u64::MAX`,
    /// or there are candidates and more than 64 leading zeros.
    MiningLimits,
    /// The count of blocks cannot grow.
    BlockCountOverflow,
}

/// What the server does with a request.
#[derive(PartialEq, Eq, Structural, Debug, Clone, Copy)]
pub enum Action {
    /// Answer with `page`, after doing `output` to the file that holds the chain.
    Respond { page: Page, output: OutputUpdate },
    /// Stop, after doing `output` to the file that holds the chain.
    Fail { output: OutputUpdate, fault: Fault },
}

/// The kinds of request that the server tells apart, by how the request
/// begins.
#[derive(PartialEq, Eq, Structural, Debug, Clone, Copy)]
pub enum RequestKind {
    /// A request for the user interface.
    Index,
    /// A request to add a block.
    AddBlock,
    /// A request to change a block and mine again.
    Mine,
    /// A request to change the preferences.
    Settings,
    /// Any other request.
    Other,
}

/// The parameters of a mining request: the text of a block and the mining
/// preferences.
pub struct Input {
    pub content: String,
    pub leading_zeros: u64,
    pub max_nonce: u64,
}

/// The state of the server: the chain, the id of the next block, and the
/// mining preferences.
pub struct Server {
    chain: Blockchain,
    next_id: u64,
    max_nonce: u64,
    leading_zeros: u64,
}

/// What the server holds.
#[verifier::ext_equal]
pub struct ServerView {
    pub chain: Seq<BlockView>,
    pub next_id: u64,
    pub max_nonce: u64,
    pub leading_zeros: u64,
}

/// `GET / HTTP/1.1\r\n`: a request for the user interface.
pub open spec fn index_request() -> Seq<u8> {
    seq![71u8, 69, 84, 32, 47, 32, 72, 84, 84, 80, 47, 49, 46, 49, 13, 10]
}

/// `GET /minebc`: a request to change a block and mine again.
pub open spec fn mine_request() -> Seq<u8> {
    seq![71u8, 69, 84, 32, 47, 109, 105, 110, 101, 98, 99]
}

/// `GET /setting_bc`: a request to change the preferences.
pub open spec fn setting_request() -> Seq<u8> {
    seq![71u8, 69, 84, 32, 47, 115, 101, 116, 116, 105, 110, 103, 95, 98, 99]
}

/// `Null`: the text of the first block.
pub open spec fn genesis_text() -> Seq<char> {
    seq!['N', 'u', 'l', 'l']
}

/// The largest nonce to try, before the preferences are changed.
pub open spec fn default_max_nonce() -> u64 {
    1_000_000
}

/// The number of leading zeros to require, before the preferences are changed.
pub open spec fn default_leading_zeros() -> u64 {
    3
}

/// The server as it starts, and after the number of leading zeros changes.
pub open spec fn started(max_nonce: u64, leading_zeros: u64) -> ServerView {
    ServerView {
        chain: seq![BlockView::fresh(0, genesis_text(), zero_hash())],
        next_id: 1,
        max_nonce,
        leading_zeros,
    }
}

impl ServerView {
    /// The chain is well formed, linked, anchored and in place, the id of the
    /// next block is the number of blocks, and the text of each block can be
    /// hashed with a nonce.
    pub open spec fn wf(self) -> bool {
        &&& self.chain.len() > 0
        &&& forall|i: int| 0 <= i < self.chain.len() ==> (#[trigger] self.chain[i]).wf()
        &&& forall|i: int| 0 <= i < self.chain.len() ==> nonced_len_ok((#[trigger] self.chain[i]).data.len() as int)
        &&& self.next_id == self.chain.len()
        &&& ids_in_place(self.chain)
        &&& linked(self.chain)
        &&& anchored(self.chain)
    }
}

/// The kind of the request whose bytes are `buf`: the first of the request
/// kinds that `buf` begins with.
pub open spec fn kind_of(buf: Seq<u8>) -> RequestKind {
    if lit_at(buf, 0, index_request()) {
        RequestKind::Index
    } else if lit_at(buf, 0, convert_marker()) {
        RequestKind::AddBlock
    } else if lit_at(buf, 0, mine_request()) {
        RequestKind::Mine
    } else if lit_at(buf, 0, setting_request()) {
        RequestKind::Settings
    } else {
        RequestKind::Other
    }
}

/// A request to add a block: the block's text is cut out of the request, the
/// last block is mined where it is not, the new block is appended and mined.
pub open spec fn convert_outcome(old: ServerView, new: ServerView, msg: Seq<u8>, a: Action) -> bool {
    match request_content_outcome(msg) {
        None => new == old && a == (Action::Fail { output: OutputUpdate::Emptied, fault: Fault::BadRequestContent }),
        Some(c) => if !mining_ok(old.max_nonce, old.leading_zeros) {
            new == old && a == (Action::Fail { output: OutputUpdate::Emptied, fault: Fault::MiningLimits })
        } else if old.next_id == u64::MAX {
            new == old && a == (Action::Fail { output: OutputUpdate::Emptied, fault: Fault::BlockCountOverflow })
        } else {
            let n = old.next_id as int;
            &&& a == (Action::Respond { page: Page::Output, output: OutputUpdate::Rewritten })
            &&& new.next_id == old.next_id + 1
            &&& new.max_nonce == old.max_nonce
            &&& new.leading_zeros == old.leading_zeros
            &&& exists|mid: Seq<BlockView>|
                {
                    &&& add_outcome(old.chain, mid, old.next_id, decode_utf8(c), old.max_nonce, old.leading_zeros)
                    &&& #[trigger] mid[n].mine_outcome(new.chain[n], old.max_nonce, old.leading_zeros)
                    &&& new.chain.len() == mid.len()
                    &&& forall|i: int| 0 <= i < mid.len() && i != n ==> #[trigger] new.chain[i] == mid[i]
                }
        },
    }
}

/// A request to change a block: the block named by the id in the request gets
/// the text in the request, and the chain is mined again from the first block
/// that is not mined.
pub open spec fn mine_request_outcome(old: ServerView, new: ServerView, msg: Seq<u8>, a: Action) -> bool {
    match mine_id_outcome(msg) {
        None => new == old && a == (Action::Fail { output: OutputUpdate::Emptied, fault: Fault::BadMineId }),
        Some(id) => if id >= old.chain.len() {
            new == old && a == (Action::Fail { output: OutputUpdate::Emptied, fault: Fault::NoSuchBlock })
        } else if !mining_ok(old.max_nonce, old.leading_zeros) {
            new == old && a == (Action::Fail { output: OutputUpdate::Emptied, fault: Fault::MiningLimits })
        } else {
            let edited = old.chain.update(
                id as int,
                old.chain[id as int].with_content(decode_utf8(mine_content_outcome(msg))),
            );
            &&& a == (Action::Respond { page: Page::Output, output: OutputUpdate::Rewritten })
            &&& check_outcome(edited, new.chain, old.max_nonce, old.leading_zeros)
            &&& new.next_id == old.next_id
            &&& new.max_nonce == old.max_nonce
            &&& new.leading_zeros == old.leading_zeros
        },
    }
}

/// A request to change the preferences: the largest nonce is set; where the
/// number of leading zeros changes, it is set and the chain starts again.
pub open spec fn setting_outcome(old: ServerView, new: ServerView, msg: Seq<u8>, a: Action) -> bool {
    match max_nonce_outcome(msg) {
        None => new == old && a == (Action::Fail { output: OutputUpdate::Emptied, fault: Fault::BadMaxNonce }),
        Some(max_nonce) => match leading_zeros_outcome(msg) {
            None => new == old && a == (Action::Fail { output: OutputUpdate::Emptied, fault: Fault::BadLeadingZeros }),
            Some(leading_zeros) => if leading_zeros != old.leading_zeros {
                new == started(max_nonce, leading_zeros) && a == (Action::Respond {
                    page: Page::Index,
                    output: OutputUpdate::Rewritten,
                })
            } else {
                new == (ServerView { max_nonce, ..old }) && a == (Action::Respond {
                    page: Page::Output,
                    output: OutputUpdate::Emptied,
                })
            },
        },
    }
}

/// What the server does with a request whose bytes are `buf` and whose text
/// is `msg`: the first of the request kinds that `buf` begins with decides.
pub open spec fn handle_outcome(old: ServerView, new: ServerView, buf: Seq<u8>, msg: Seq<u8>, a: Action) -> bool {
    if lit_at(buf, 0, index_request()) {
        new == old && a == (Action::Respond { page: Page::Index, output: OutputUpdate::Untouched })
    } else if lit_at(buf, 0, convert_marker()) {
        convert_outcome(old, new, msg, a)
    } else if lit_at(buf, 0, mine_request()) {
        mine_request_outcome(old, new, msg, a)
    } else if lit_at(buf, 0, setting_request()) {
        setting_outcome(old, new, msg, a)
    } else {
        new == old && a == (Action::Respond { page: Page::Output, output: OutputUpdate::Untouched })
    }
}

/// Adding a block leaves the recorded mining time of the block at position
/// `j` as it was where the request fails, where `j` is before the last block,
/// and for the last block where it was mined or cannot be mined.
pub open spec fn convert_time_kept(old: ServerView, a: Action, j: int) -> bool {
    let n = old.chain.len() - 1;
    a is Fail || j < n || (j == n && (old.chain[n].mined || !old.chain[n].can_be_mined(
        old.max_nonce,
        old.leading_zeros,
    )))
}

/// Changing a block leaves the recorded mining time of the block at position
/// `j` as it was where the request fails, and where mining again writes back
/// no block at `j`.
pub open spec fn mine_time_kept(old: ServerView, msg: Seq<u8>, a: Action, j: int) -> bool {
    a is Fail || match mine_id_outcome(msg) {
        Some(id) => untouched(
            old.chain.update(
                id as int,
                old.chain[id as int].with_content(decode_utf8(mine_content_outcome(msg))),
            ),
            j,
        ),
        None => true,
    }
}

/// Changing the preferences leaves every recorded mining time as it was where
/// the request fails or the number of leading zeros stays the same.
pub open spec fn setting_time_kept(old: ServerView, msg: Seq<u8>, a: Action) -> bool {
    a is Fail || leading_zeros_outcome(msg) == Some(old.leading_zeros)
}

/// Handling the request whose bytes are `buf` and whose text is `msg` leaves
/// the recorded mining time of the block at position `j` as it was.
pub open spec fn time_kept(old: ServerView, buf: Seq<u8>, msg: Seq<u8>, a: Action, j: int) -> bool {
    if lit_at(buf, 0, index_request()) {
        true
    } else if lit_at(buf, 0, convert_marker()) {
        convert_time_kept(old, a, j)
    } else if lit_at(buf, 0, mine_request()) {
        mine_time_kept(old, msg, a, j)
    } else if lit_at(buf, 0, setting_request()) {
        setting_time_kept(old, msg, a)
    } else {
        true
    }
}

/// A UTF-8 encoding takes at most four bytes per character.
proof fn lemma_encode_utf8_len(cs: Seq<char>)
    ensures
        encode_utf8(cs).len() <= 4 * cs.len(),
    decreases cs.len(),
{
    if cs.len() > 0 {
        lemma_encode_utf8_len(cs.drop_first());
        assert(encode_scalar(cs[0] as u32).len() <= 4);
    }
}

fn index_request_bytes() -> (r: [u8; 16])
    ensures
        r@ == index_request(),
{
    let r: [u8; 16] = [71u8, 69, 84, 32, 47, 32, 72, 84, 84, 80, 47, 49, 46, 49, 13, 10];
    assert(r@ =~= index_request());
    r
}

fn mine_request_bytes() -> (r: [u8; 11])
    ensures
        r@ == mine_request(),
{
    let r: [u8; 11] = [71u8, 69, 84, 32, 47, 109, 105, 110, 101, 98, 99];
    assert(r@ =~= mine_request());
    r
}

fn setting_request_bytes() -> (r: [u8; 15])
    ensures
        r@ == setting_request(),
{
    let r: [u8; 15] = [71u8, 69, 84, 32, 47, 115, 101, 116, 116, 105, 110, 103, 95, 98, 99];
    assert(r@ =~= setting_request());
    r
}

/// Tells which kind of request the bytes `buffer` hold.
pub fn request_kind(buffer: &[u8]) -> (r: RequestKind)
    ensures
        r == kind_of(buffer@),
{
    let index = index_request_bytes();
    let convert = convert_marker_bytes();
    let mine = mine_request_bytes();
    let setting = setting_request_bytes();
    if bytes_at(buffer, 0, &index) {
        RequestKind::Index
    } else if bytes_at(buffer, 0, &convert) {
        RequestKind::AddBlock
    } else if bytes_at(buffer, 0, &mine) {
        RequestKind::Mine
    } else if bytes_at(buffer, 0, &setting) {
        RequestKind::Settings
    } else {
        RequestKind::Other
    }
}

/// The state after a block was added and mined is what `convert_outcome` allows.
proof fn lemma_convert_done(old: ServerView, new: ServerView, msg: Seq<u8>, c: Seq<u8>, mid: Seq<BlockView>)
    requires
        request_content_outcome(msg) == Some(c),
        mining_ok(old.max_nonce, old.leading_zeros),
        old.next_id < u64::MAX,
        new.next_id == old.next_id + 1,
        new.max_nonce == old.max_nonce,
        new.leading_zeros == old.leading_zeros,
        old.next_id == old.chain.len(),
        crate::chain::add_then_mine(old.chain, mid, new.chain, old.next_id, decode_utf8(c), old.max_nonce, old.leading_zeros),
    ensures
        convert_outcome(old, new, msg, Action::Respond { page: Page::Output, output: OutputUpdate::Rewritten }),
{
}

impl View for Server {
    type V = ServerView;

    closed spec fn view(&self) -> ServerView {
        ServerView {
            chain: self.chain@,
            next_id: self.next_id,
            max_nonce: self.max_nonce,
            leading_zeros: self.leading_zeros,
        }
    }
}

impl Server {
    /// The well-formedness of the state.
    pub open spec fn wf(&self) -> bool {
        self@.wf()
    }

    /// The time that the last successful mining of each block took, as the
    /// blocks record it.
    pub closed spec fn mining_times(&self) -> Seq<Duration> {
        self.chain.mining_times()
    }

    /// The chain of `max_nonce` and `leading_zeros`, started again.
    fn start(max_nonce: u64, leading_zeros: u64) -> (r: Self)
        ensures
            r.chain.wf(),
            r@ == started(max_nonce, leading_zeros),
            r.wf(),
    {
        let text = "Null";
        proof {
            reveal_strlit("Null");
            lemma_encode_utf8_len(text@);
            assert(text@ == genesis_text());
        }
        let chain = Blockchain::new(text);
        let r = Server { chain, next_id: 1, max_nonce, leading_zeros };
        assert(r@ == started(max_nonce, leading_zeros));
        r
    }

    /// The server as it starts: a chain holding one block with text `Null`,
    /// nonces up to 1 000 000 and 3 leading zeros.
    pub fn new() -> (r: Self)
        ensures
            r@ == started(default_max_nonce(), default_leading_zeros()),
            r.wf(),
    {
        Self::start(1_000_000, 3)
    }

    /// The chain.
    pub fn chain(&self) -> (r: &Blockchain)
        requires
            self.wf(),
        ensures
            r@ == self@.chain,
            r.wf(),
    {
        &self.chain
    }

    /// The id that the next block will get.
    pub fn next_id(&self) -> (r: u64)
        ensures
            r == self@.next_id,
    {
        self.next_id
    }

    /// The largest nonce to try.
    pub fn max_nonce(&self) -> (r: u64)
        ensures
            r == self@.max_nonce,
    {
        self.max_nonce
    }

    /// The number of leading zeros to require.
    pub fn leading_zeros(&self) -> (r: u64)
        ensures
            r == self@.leading_zeros,
    {
        self.leading_zeros
    }

    /// Handles a request whose bytes are `buffer` and whose text is `message`.
    pub fn handle_request(&mut self, buffer: &[u8], message: &str) -> (a: Action)
        requires
            old(self).wf(),
            text_len_ok(message),
        ensures
            final(self).wf(),
            handle_outcome(old(self)@, final(self)@, buffer@, message.spec_bytes(), a),
            final(self).mining_times().len() == final(self)@.chain.len(),
            forall|j: int|
                0 <= j < old(self)@.chain.len() && time_kept(old(self)@, buffer@, message.spec_bytes(), a, j)
                    ==> #[trigger] final(self).mining_times()[j] == old(self).mining_times()[j],
    {
        let a = match request_kind(buffer) {
            RequestKind::Index => Action::Respond { page: Page::Index, output: OutputUpdate::Untouched },
            RequestKind::AddBlock => self.add_requested_block(message),
            RequestKind::Mine => self.mine_requested_block(message),
            RequestKind::Settings => self.change_settings(message),
            RequestKind::Other => Action::Respond { page: Page::Output, output: OutputUpdate::Untouched },
        };
        proof {
            self.chain.lemma_mining_times_len();
        }
        a
    }

    fn add_requested_block(&mut self, message: &str) -> (a: Action)
        requires
            old(self).wf(),
            text_len_ok(message),
        ensures
            final(self).wf(),
            convert_outcome(old(self)@, final(self)@, message.spec_bytes(), a),
            forall|j: int|
                0 <= j < old(self)@.chain.len() && convert_time_kept(old(self)@, a, j)
                    ==> #[trigger] final(self).mining_times()[j] == old(self).mining_times()[j],
    {
        let ghost old_view = self@;
        let content = match try_get_request_content(message) {
            None => {
                return Action::Fail { output: OutputUpdate::Emptied, fault: Fault::BadRequestContent };
            },
            Some(c) => c,
        };
        if !(self.max_nonce < u64::MAX && (self.max_nonce == 0 || self.leading_zeros <= 64)) {
            return Action::Fail { output: OutputUpdate::Emptied, fault: Fault::MiningLimits };
        }
        if self.next_id == u64::MAX {
            return Action::Fail { output: OutputUpdate::Emptied, fault: Fault::BlockCountOverflow };
        }
        proof {
            let b = message.spec_bytes();
            let c = content.spec_bytes();
            assert(request_content_outcome(b) == Some(c));
            assert(c.len() <= b.len());
            vstd::utf8::encode_utf8_decode_utf8(content@);
        }
        let n = self.next_id;
        proof {
            let last = old_view.chain.len() - 1;
            assert(nonced_len_ok(old_view.chain[last].data.len() as int));
        }
        self.chain.add_and_mine_block(n, content, self.max_nonce, self.leading_zeros);
        self.next_id = n + 1;
        proof {
            let mid = choose|mid: Seq<BlockView>| #[trigger] crate::chain::add_then_mine(
                old_view.chain,
                mid,
                self@.chain,
                n,
                content@,
                old_view.max_nonce,
                old_view.leading_zeros,
            );
            lemma_convert_done(old_view, self@, message.spec_bytes(), content.spec_bytes(), mid);
            let fin = self@.chain;
            let last = n - 1;
            if !old_view.chain[last].mined {
                crate::chain::lemma_mine_outcome_keeps(old_view.chain[last], mid[last], old_view.max_nonce, old_view.leading_zeros);
            }
            crate::chain::lemma_mine_outcome_keeps(mid[n as int], fin[n as int], old_view.max_nonce, old_view.leading_zeros);
            assert forall|i: int| 0 <= i < fin.len() implies nonced_len_ok((#[trigger] fin[i]).data.len() as int) by {
                if i < n {
                    assert(fin[i] == mid[i]);
                    if i < last {
                        assert(mid[i] == old_view.chain[i]);
                    }
                }
            }
        }
        Action::Respond { page: Page::Output, output: OutputUpdate::Rewritten }
    }

    fn mine_requested_block(&mut self, message: &str) -> (a: Action)
        requires
            old(self).wf(),
            text_len_ok(message),
        ensures
            final(self).wf(),
            mine_request_outcome(old(self)@, final(self)@, message.spec_bytes(), a),
            forall|j: int|
                0 <= j < old(self)@.chain.len() && mine_time_kept(old(self)@, message.spec_bytes(), a, j)
                    ==> #[trigger] final(self).mining_times()[j] == old(self).mining_times()[j],
    {
        let ghost old_view = self@;
        let mine_id = match try_get_mine_id(message) {
            None => {
                return Action::Fail { output: OutputUpdate::Emptied, fault: Fault::BadMineId };
            },
            Some(id) => id,
        };
        let mine_content = get_mine_content(message);
        if mine_id >= self.chain.len() as u64 {
            return Action::Fail { output: OutputUpdate::Emptied, fault: Fault::NoSuchBlock };
        }
        if !(self.max_nonce < u64::MAX && (self.max_nonce == 0 || self.leading_zeros <= 64)) {
            return Action::Fail { output: OutputUpdate::Emptied, fault: Fault::MiningLimits };
        }
        proof {
            let b = message.spec_bytes();
            let c = mine_content.spec_bytes();
            assert(c.len() <= b.len());
            vstd::utf8::encode_utf8_decode_utf8(mine_content@);
        }
        let ghost old_times = self.chain.mining_times();
        self.chain.set_block_content(mine_id as usize, mine_content);
        let ghost edited = self.chain@;
        let ghost edited_times = self.chain.mining_times();
        proof {
            assert(ids_in_place(edited)) by {
                assert forall|i: int| 0 <= i < edited.len() implies #[trigger] edited[i].id == i by {
                    assert(old_view.chain[i].id == i);
                }
            }
            assert(linked(edited)) by {
                assert forall|i: int| 0 < i < edited.len() implies #[trigger] edited[i].prev_block_hash == edited[i - 1].hash by {
                    assert(old_view.chain[i].prev_block_hash == old_view.chain[i - 1].hash);
                }
            }
            assert(edited[0].prev_block_hash == old_view.chain[0].prev_block_hash);
            assert forall|i: int, j: int| 0 <= j <= i < edited.len() && !#[trigger] edited[j].mined implies #[trigger] edited[i].id < edited.len() by {}
        }
        proof {
            assert forall|i: int| 0 <= i < edited.len() implies nonced_len_ok((#[trigger] edited[i]).data.len() as int) by {
                if i != mine_id {
                    assert(edited[i] == old_view.chain[i]);
                }
            }
            assert(remine_ok(edited, self.max_nonce, self.leading_zeros));
        }
        self.chain.check_and_mine_blocks(self.max_nonce, self.leading_zeros);
        proof {
            let fin = self@.chain;
            crate::chain::lemma_check_outcome_direct(edited, fin, self.max_nonce, self.leading_zeros);
            assert forall|i: int| 0 <= i < fin.len() implies nonced_len_ok((#[trigger] fin[i]).data.len() as int) by {
                assert(nonced_len_ok(edited[i].data.len() as int));
                if crate::chain::rewritten(edited, i) {
                    let p = if i == 0 { zero_hash() } else { fin[i - 1].hash };
                    crate::chain::lemma_mine_outcome_keeps(edited[i].relinked(p), fin[i], self.max_nonce, self.leading_zeros);
                }
            }
            vstd::utf8::encode_utf8_decode_utf8(mine_content@);
            assert(decode_utf8(mine_content_outcome(message.spec_bytes())) == mine_content@);
            assert(edited == old_view.chain.update(
                mine_id as int,
                old_view.chain[mine_id as int].with_content(decode_utf8(mine_content_outcome(message.spec_bytes()))),
            ));
            assert forall|j: int|
                0 <= j < old_view.chain.len() && mine_time_kept(
                    old_view,
                    message.spec_bytes(),
                    Action::Respond { page: Page::Output, output: OutputUpdate::Rewritten },
                    j,
                ) implies #[trigger] self.mining_times()[j] == old(self).mining_times()[j] by {
                assert(untouched(edited, j));
                assert(edited_times == old_times);
                assert(self.chain@[j] == edited[j]);
                assert(self.chain.mining_times()[j] == edited_times[j]);
            }
        }
        Action::Respond { page: Page::Output, output: OutputUpdate::Rewritten }
    }

    fn change_settings(&mut self, message: &str) -> (a: Action)
        requires
            old(self).wf(),
        ensures
            final(self).wf(),
            setting_outcome(old(self)@, final(self)@, message.spec_bytes(), a),
            setting_time_kept(old(self)@, message.spec_bytes(), a) ==> final(self).mining_times() == old(self).mining_times(),
    {
        let max_nonce = match try_get_max_nonce(message) {
            None => {
                return Action::Fail { output: OutputUpdate::Emptied, fault: Fault::BadMaxNonce };
            },
            Some(v) => v,
        };
        let leading_zeros = match try_get_leading_zeros(message) {
            None => {
                return Action::Fail { output: OutputUpdate::Emptied, fault: Fault::BadLeadingZeros };
            },
            Some(v) => v,
        };
        if leading_zeros != self.leading_zeros {
            *self = Self::start(max_nonce, leading_zeros);
            Action::Respond { page: Page::Index, output: OutputUpdate::Rewritten }
        } else {
            self.max_nonce = max_nonce;
            Action::Respond { page: Page::Output, output: OutputUpdate::Emptied }
        }
    }
}

} // verus!
