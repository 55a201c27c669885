use bc_rust::digest::{
    convert_u64_little_endian, create_nonce_vec, encode_hash, find_nonce, found_nonce, hash_without_nonce,
    hash_without_nonce_string, nonced_hash, nonced_hash_string, Sha256Hash,
};

const ZERO: Sha256Hash = [0u8; 32];

fn hex(bytes: &[u8]) -> String {
    let mut s = String::new();
    for b in bytes {
        s.push_str(&format!("{:02x}", b));
    }
    s
}

#[test]
fn little_endian_bytes() {
    assert_eq!(convert_u64_little_endian(0x0102030405060708), [8, 7, 6, 5, 4, 3, 2, 1]);
    assert_eq!(convert_u64_little_endian(0), [0; 8]);
    assert_eq!(convert_u64_little_endian(u64::MAX), [0xff; 8]);
    assert_eq!(convert_u64_little_endian(300), [44, 1, 0, 0, 0, 0, 0, 0]);
}

#[test]
fn little_endian_round_trip() {
    for v in [0u64, 1, 255, 256, 65535, 1 << 40, u64::MAX - 7, 0xdead_beef_cafe_f00d] {
        assert_eq!(u64::from_le_bytes(convert_u64_little_endian(v)), v);
    }
}

#[test]
fn hash_of_genesis_text() {
    let h = hash_without_nonce("Null", ZERO);
    assert_eq!(hex(&h), "4d5134602e653785d1fd4777c2b64da64d20d4ce1f99d31b36e15a226aea6fd9");
    assert_eq!(
        hash_without_nonce_string("Null", ZERO),
        "4d5134602e653785d1fd4777c2b64da64d20d4ce1f99d31b36e15a226aea6fd9"
    );
}

#[test]
fn hash_of_non_ascii_text() {
    assert_eq!(
        hash_without_nonce_string("h\u{e9}llo", ZERO),
        "a0ae14e3205d0fa4302787fbc290cd84e5b01f0be6dc80e6c12ae43b32710d5c"
    );
}

#[test]
fn nonced_hash_values() {
    let h = nonced_hash("Null", ZERO, 1);
    assert_eq!(hex(&h), "2fa2dd9e2f08dbfb5cfa1c642d429b51528032b01c9bf54a6f875af143efe712");
    assert_eq!(nonced_hash_string("Null", ZERO, 472), "00943f4d2e62e09087ee7f3bb55226e3dd54fc5662a7a6286057140c2fa4a976");
    assert_eq!(encode_hash(&nonced_hash("Null", ZERO, 3)), nonced_hash_string("Null", ZERO, 3));
}

#[test]
fn hash_depends_on_previous_hash_and_nonce() {
    let mut prev = ZERO;
    prev[31] = 1;
    assert_ne!(hash_without_nonce("Null", prev), hash_without_nonce("Null", ZERO));
    assert_ne!(nonced_hash("Null", ZERO, 1), nonced_hash("Null", ZERO, 2));
    assert_ne!(nonced_hash("Null", ZERO, 0), hash_without_nonce("Null", ZERO));
}

#[test]
fn found_nonce_matches_leading_zero_digits() {
    for lz in 0..4u64 {
        for nonce in 0..600u64 {
            let text = nonced_hash_string("Null", ZERO, nonce);
            let zeros = text.chars().take_while(|c| *c == '0').count() as u64;
            assert_eq!(found_nonce("Null", ZERO, nonce, lz), zeros >= lz, "lz {} nonce {}", lz, nonce);
        }
    }
}

#[test]
fn found_nonce_extremes() {
    assert!(found_nonce("Null", ZERO, 1, 0));
    assert!(!found_nonce("Null", ZERO, 1, 64));
    assert!(found_nonce("Null", ZERO, 3, 1));
    assert!(!found_nonce("Null", ZERO, 3, 2));
}

#[test]
fn nonce_vector_counts_from_one() {
    assert_eq!(create_nonce_vec(5), vec![1, 2, 3, 4, 5]);
    assert!(create_nonce_vec(0).is_empty());
    assert_eq!(create_nonce_vec(1000).len(), 1000);
}

#[test]
fn find_nonce_returns_a_meeting_candidate() {
    let mut v = create_nonce_vec(3000);
    let n = find_nonce("Null", ZERO, &mut v, 2);
    assert!(n != 0);
    assert!(found_nonce("Null", ZERO, n, 2));
    assert!(nonced_hash_string("Null", ZERO, n).starts_with("00"));
    assert_eq!(v, create_nonce_vec(3000));
}

#[test]
fn find_nonce_returns_zero_without_candidate() {
    let mut v = create_nonce_vec(2);
    assert_eq!(find_nonce("Null", ZERO, &mut v, 1), 0);
    let mut empty: Vec<u64> = Vec::new();
    assert_eq!(find_nonce("Null", ZERO, &mut empty, 100), 0);
}

#[test]
fn find_nonce_single_candidate() {
    let mut v = vec![472u64];
    assert_eq!(find_nonce("Null", ZERO, &mut v, 2), 472);
}

fn is_lower_hex_text(s: &str) -> bool {
    s.len() == 64 && s.chars().all(|c| c.is_ascii_digit() || ('a'..='f').contains(&c))
}

#[test]
fn hex_strings_are_64_lower_case_digits() {
    let mut prev = ZERO;
    prev[5] = 0xfe;
    for nonce in 0..50u64 {
        let s = nonced_hash_string("Block", prev, nonce);
        assert!(is_lower_hex_text(&s), "{}", s);
        assert_eq!(s, hex(&nonced_hash("Block", prev, nonce)));
    }
    let s = hash_without_nonce_string("\u{1F600}", prev);
    assert!(is_lower_hex_text(&s));
    assert_eq!(s, hex(&hash_without_nonce("\u{1F600}", prev)));
    let all_ff = [0xffu8; 32];
    assert_eq!(encode_hash(&all_ff), "f".repeat(64));
}

#[test]
fn more_leading_zeros_accept_fewer_nonces() {
    for nonce in 0..300u64 {
        for k in 0..6u64 {
            if found_nonce("Null", ZERO, nonce, k + 1) {
                assert!(found_nonce("Null", ZERO, nonce, k));
            }
        }
    }
}

#[test]
fn nonce_bytes_follow_the_input() {
    let mut prev = ZERO;
    prev[31] = 1;
    assert_eq!(nonced_hash("a", prev, 98), hash_without_nonce("ab\0\0\0\0\0\0\0", prev));
    assert_eq!(nonced_hash("", prev, 0), hash_without_nonce("\0\0\0\0\0\0\0\0", prev));
}
