use bc_rust::block::Block;
use bc_rust::chain::Blockchain;
use bc_rust::digest::{found_nonce, hash_without_nonce, nonced_hash, nonced_hash_string, Sha256Hash};

const ZERO: Sha256Hash = [0u8; 32];

fn hex(bytes: &[u8]) -> String {
    let mut s = String::new();
    for b in bytes {
        s.push_str(&format!("{:02x}", b));
    }
    s
}

fn assert_linked(bc: &Blockchain) {
    assert_eq!(bc.block(0).prev_block_hash(), ZERO);
    for i in 1..bc.len() {
        assert_eq!(bc.block(i).prev_block_hash(), bc.block(i - 1).hash(), "link {}", i);
    }
}

#[test]
fn new_block_fields() {
    let mut prev = ZERO;
    prev[0] = 0xab;
    let b = Block::new(7, "h\u{e9}", prev);
    assert_eq!(b.id(), 7);
    assert_eq!(b.prev_block_hash(), prev);
    assert_eq!(b.nonce(), 0);
    assert_eq!(b.input_data(), "h\u{e9}");
    assert_eq!(b.data(), "h\u{e9}".as_bytes());
    assert_eq!(b.hash(), hash_without_nonce("h\u{e9}", prev));
    assert!(!b.mined());
    assert_eq!(b.encoded_hash(), hex(&b.hash()));
    assert_eq!(b.encoded_prev_block_hash(), hex(&prev));
}

#[test]
fn genesis_block() {
    let b = Block::genesis("Null");
    assert_eq!(b.id(), 0);
    assert_eq!(b.prev_block_hash(), ZERO);
    assert_eq!(b.encoded_hash(), "4d5134602e653785d1fd4777c2b64da64d20d4ce1f99d31b36e15a226aea6fd9");
    assert_eq!(b.encoded_prev_block_hash(), "0".repeat(64));
}

#[test]
fn mine_block_finds_a_nonce() {
    let mut b = Block::genesis("Null");
    let r = b.mine_block(1000, 1);
    assert!(r.mined());
    let nonce = b.nonce();
    assert!(1 <= nonce && nonce <= 1000);
    assert!(found_nonce("Null", ZERO, nonce, 1));
    assert_eq!(b.hash(), nonced_hash("Null", ZERO, nonce));
    assert_eq!(b.encoded_hash(), nonced_hash_string("Null", ZERO, nonce));
    assert!(b.encoded_hash().starts_with('0'));
}

#[test]
fn mine_block_without_candidate_keeps_block() {
    let mut b = Block::genesis("Null");
    b.mine_block(2, 1);
    assert!(!b.mined());
    assert_eq!(b.nonce(), 0);
    assert_eq!(b.hash(), hash_without_nonce("Null", ZERO));
    b.mine_block(0, 200);
    assert!(!b.mined());
}

#[test]
fn mine_block_single_candidate() {
    let mut b = Block::genesis("Null");
    b.mine_block(3, 1);
    assert_eq!(b.nonce(), 3);
    assert!(b.encoded_hash().starts_with("0c2e634a"));
}

#[test]
fn refresh_block_unmines() {
    let mut b = Block::genesis("Null");
    b.mine_block(1000, 1);
    b.refresh_block();
    assert!(!b.mined());
    assert_eq!(b.nonce(), 0);
    assert_eq!(b.hash(), hash_without_nonce("Null", ZERO));
    assert_eq!(b.encoded_hash(), hex(&b.hash()));
}

#[test]
fn refresh_after_mining_gives_fresh_block() {
    let fresh = Block::new(4, "text", ZERO);
    let mut b = Block::new(4, "text", ZERO);
    b.mine_block(1000, 1);
    assert!(b.mined());
    b.refresh_block();
    assert_eq!(b.hash(), fresh.hash());
    assert_eq!(b.nonce(), fresh.nonce());
    assert_eq!(b.mined(), fresh.mined());
    assert_eq!(b.encoded_hash(), fresh.encoded_hash());
    assert_eq!(b.encoded_prev_block_hash(), fresh.encoded_prev_block_hash());
    assert_eq!(b.input_data(), fresh.input_data());
}

#[test]
fn set_content_unmines() {
    let mut b = Block::genesis("Null");
    b.mine_block(1000, 1);
    b.set_content("other");
    assert!(!b.mined());
    assert_eq!(b.input_data(), "other");
    assert_eq!(b.data(), b"other");
}

#[test]
fn clone_keeps_fields() {
    let mut b = Block::new(3, "abc", ZERO);
    b.mine_block(100, 1);
    let c = b.clone();
    assert_eq!(c.id(), b.id());
    assert_eq!(c.hash(), b.hash());
    assert_eq!(c.nonce(), b.nonce());
    assert_eq!(c.input_data(), b.input_data());
    assert_eq!(c.mined(), b.mined());
    assert_eq!(c.encoded_hash(), b.encoded_hash());
}

#[test]
fn new_chain_has_genesis() {
    let bc = Blockchain::new("Null");
    assert_eq!(bc.len(), 1);
    assert_eq!(bc.block(0).input_data(), "Null");
    assert!(!bc.block(0).mined());
    assert_linked(&bc);
}

#[test]
fn add_block_mines_previous_and_links() {
    let mut bc = Blockchain::new("Null");
    bc.add_block(1, "first", 5000, 1);
    assert_eq!(bc.len(), 2);
    assert!(bc.block(0).mined());
    assert!(!bc.block(1).mined());
    assert_eq!(bc.block(1).id(), 1);
    assert_eq!(bc.block(1).input_data(), "first");
    assert_linked(&bc);
    bc.mine_block_at(1, 5000, 1);
    let h1 = bc.block(1).hash();
    bc.add_block(2, "second", 5000, 1);
    assert_eq!(bc.block(1).hash(), h1);
    assert_linked(&bc);
}

#[test]
fn add_block_with_failed_mining_keeps_previous_unmined() {
    let mut bc = Blockchain::new("Null");
    bc.add_block(1, "first", 2, 1);
    assert!(!bc.block(0).mined());
    assert_linked(&bc);
}

#[test]
fn check_and_mine_remines_from_edited_block() {
    let mut bc = Blockchain::new("Null");
    bc.add_block(1, "a", 5000, 1);
    bc.mine_block_at(1, 5000, 1);
    bc.add_block(2, "b", 5000, 1);
    bc.mine_block_at(2, 5000, 1);
    let h0 = bc.block(0).hash();
    bc.set_block_content(1, "changed");
    assert!(!bc.block(1).mined());
    bc.check_and_mine_blocks(5000, 1);
    assert_eq!(bc.block(0).hash(), h0);
    for i in 0..3 {
        assert!(bc.block(i).mined(), "block {}", i);
        assert!(bc.block(i).encoded_hash().starts_with('0'));
        assert_eq!(bc.block(i).id(), i as u64);
    }
    assert_eq!(bc.block(1).input_data(), "changed");
    assert_linked(&bc);
}

#[test]
fn check_and_mine_leaves_mined_chain() {
    let mut bc = Blockchain::new("Null");
    bc.add_block(1, "a", 5000, 1);
    bc.mine_block_at(1, 5000, 1);
    let hashes: Vec<_> = (0..2).map(|i| bc.block(i).hash()).collect();
    bc.check_and_mine_blocks(5000, 1);
    for i in 0..2 {
        assert_eq!(bc.block(i).hash(), hashes[i]);
    }
}

#[test]
fn check_and_mine_failure_still_links() {
    let mut bc = Blockchain::new("Null");
    bc.add_block(1, "a", 5000, 1);
    bc.mine_block_at(1, 5000, 1);
    bc.set_block_content(0, "edited");
    bc.check_and_mine_blocks(0, 1);
    assert!(!bc.block(0).mined());
    assert!(!bc.block(1).mined());
    assert_linked(&bc);
}

#[test]
fn mining_time_kept_where_mining_fails() {
    let mut b = Block::genesis("Null");
    b.mine_block(1000, 1);
    let t = b.mining_time();
    b.mine_block(2, 64);
    assert_eq!(b.mining_time(), t);
    b.refresh_block();
    assert_eq!(b.mining_time(), t);
    b.set_content("x");
    assert_eq!(b.mining_time(), t);
    assert_eq!(b.clone().mining_time(), t);
}

#[test]
fn check_and_mine_mined_chain_ignores_limits() {
    let mut bc = Blockchain::new("Null");
    bc.add_block(1, "a", 5000, 1);
    bc.mine_block_at(1, 5000, 1);
    let before: Vec<_> = (0..2).map(|i| (bc.block(i).hash(), bc.block(i).nonce(), bc.block(i).mining_time())).collect();
    bc.check_and_mine_blocks(u64::MAX, 100);
    bc.check_and_mine_blocks(7, 65);
    for i in 0..2 {
        assert_eq!((bc.block(i).hash(), bc.block(i).nonce(), bc.block(i).mining_time()), before[i]);
        assert!(bc.block(i).mined());
    }
}

#[test]
fn add_block_after_mined_block_ignores_limits() {
    let mut bc = Blockchain::new("Null");
    bc.mine_block_at(0, 5000, 1);
    let h0 = bc.block(0).hash();
    let t0 = bc.block(0).mining_time();
    bc.add_block(1, "next", u64::MAX, 100);
    assert_eq!(bc.len(), 2);
    assert_eq!(bc.block(0).hash(), h0);
    assert_eq!(bc.block(0).mining_time(), t0);
    assert_eq!(bc.block(1).prev_block_hash(), h0);
    assert_eq!(bc.block(1).hash(), hash_without_nonce("next", h0));
    assert!(!bc.block(1).mined());
}

#[test]
fn chain_operations_keep_mining_times() {
    let mut bc = Blockchain::new("Null");
    bc.add_block(1, "a", 5000, 1);
    bc.mine_block_at(1, 5000, 1);
    bc.add_block(2, "b", 5000, 1);
    bc.mine_block_at(2, 5000, 1);
    let times: Vec<_> = (0..3).map(|i| bc.block(i).mining_time()).collect();
    bc.set_block_content(2, "c");
    for i in 0..3 {
        assert_eq!(bc.block(i).mining_time(), times[i]);
    }
    bc.mine_block_at(2, 0, 1);
    assert_eq!(bc.block(2).mining_time(), times[2]);
    bc.check_and_mine_blocks(0, 1);
    for i in 0..3 {
        assert_eq!(bc.block(i).mining_time(), times[i]);
    }
    bc.add_block(3, "d", 0, 1);
    for i in 0..3 {
        assert_eq!(bc.block(i).mining_time(), times[i]);
    }
    bc.set_block_content(3, "e");
    bc.check_and_mine_blocks(5000, 1);
    for i in 0..2 {
        assert_eq!(bc.block(i).mining_time(), times[i]);
    }
    assert!(bc.block(2).mined() && bc.block(3).mined());
}
