//! Hashing of block contents, the proof-of-work test and the nonce search.

use vstd::prelude::*;
use vstd::arithmetic::power2::{pow2, lemma_pow2_adds, lemma_pow2_pos, lemma2_to64, lemma_pow2_strictly_increases};
use crypto::digest::Digest;
use rayon::iter::IntoParallelRefIterator;
use rayon::iter::ParallelIterator;
use num_traits::One;
use vstd::string::StringSliceAdditionalSpecFns;

verus! {

/// Length in bytes of a SHA-256 digest.
pub const HASH_BYTE_SIZE: usize = 32;

/// A SHA-256 digest.
pub type Sha256Hash = [u8; HASH_BYTE_SIZE];

/// The SHA-256 digest of a byte sequence.
pub uninterp spec fn sha256(data: Seq<u8>) -> Seq<u8>;

/// Largest input the digest engine accepts: its length in bits must fit in 64 bits.
pub open spec fn digest_input_ok(len: int) -> bool {
    len < 0x2000_0000_0000_0000
}

/// A text of `len` bytes can be hashed with a previous hash and a nonce:
/// the 40 more bytes stay within `digest_input_ok`.
pub open spec fn nonced_len_ok(len: int) -> bool {
    digest_input_ok(len + 40)
}

/// A text of `len` bytes can be hashed with a previous hash: the 32 more
/// bytes stay within `digest_input_ok`.
pub open spec fn plain_len_ok(len: int) -> bool {
    digest_input_ok(len + 32)
}

/// The text can be hashed with a previous hash and a nonce.
pub open spec fn text_len_ok(text: &str) -> bool {
    nonced_len_ok(text.spec_bytes().len() as int)
}

/// Calls `crypto::sha2::Sha256::new`, `Digest::input` and `Digest::result`, and
/// claims that the 32 bytes written are the SHA-256 digest of `data`. The
/// engine panics when the bit count of its input overflows 64 bits, which the
/// `requires` rules out.
#[verifier::external_body]
fn sha256_digest(data: &[u8]) -> (r: Sha256Hash)
    requires
        digest_input_ok(data@.len() as int),
    ensures
        r@ == sha256(data@),
{
    let mut hasher = crypto::sha2::Sha256::new();
    hasher.input(data);
    let mut hash = [0u8; HASH_BYTE_SIZE];
    hasher.result(&mut hash);
    hash
}

/// The lower-case hexadecimal digit for a value below 16.
pub open spec fn hex_digit(n: u8) -> char {
    if n < 10 {
        ((n + 48) as u8) as char
    } else {
        ((n + 87) as u8) as char
    }
}

/// Lower-case hexadecimal text of a byte sequence: two digits per byte, the
/// high half of each byte first.
pub open spec fn hex_lower(data: Seq<u8>) -> Seq<char>
    decreases data.len(),
{
    if data.len() == 0 {
        Seq::empty()
    } else {
        seq![hex_digit(data[0] >> 4), hex_digit(data[0] & 0x0f)] + hex_lower(
            data.subrange(1, data.len() as int),
        )
    }
}

/// Calls `hex::encode`, and claims that it returns the lower-case hexadecimal
/// text of `data`, two digits per byte with the high half first.
#[verifier::external_body]
fn hex_encode(data: &[u8]) -> (r: String)
    ensures
        r@ == hex_lower(data@),
{
    hex::encode(data)
}

/// The number that a byte sequence stands for, most significant byte first.
pub open spec fn be_value(bytes: Seq<u8>) -> nat
    decreases bytes.len(),
{
    if bytes.len() == 0 {
        0
    } else {
        (be_value(bytes.drop_last()) * 256 + bytes.last()) as nat
    }
}

/// Calls `num_bigint::BigUint::from_bytes_be`, `num_traits::One::one`, `<<` and
/// `<` on `BigUint`, and claims that the result tells whether the big-endian
/// number in `bytes` is below two to the power `exp`.
#[verifier::external_body]
fn big_endian_below_pow2(bytes: &[u8], exp: u64) -> (r: bool)
    requires
        exp <= 256,
    ensures
        r == (be_value(bytes@) < pow2(exp as nat)),
{
    num_bigint::BigUint::from_bytes_be(bytes) < (num_bigint::BigUint::one() << exp)
}

/// The eight bytes of a `u64`, least significant first.
pub open spec fn le_bytes(val: u64) -> Seq<u8> {
    seq![
        val as u8,
        (val >> 8) as u8,
        (val >> 16) as u8,
        (val >> 24) as u8,
        (val >> 32) as u8,
        (val >> 40) as u8,
        (val >> 48) as u8,
        (val >> 56) as u8,
    ]
}

/// The number that a byte sequence stands for, least significant byte first.
pub open spec fn le_value(bytes: Seq<u8>) -> nat
    decreases bytes.len(),
{
    if bytes.len() == 0 {
        0
    } else {
        (bytes[0] + 256 * le_value(bytes.subrange(1, bytes.len() as int))) as nat
    }
}

/// The bytes that are hashed for a block without a nonce: the previous hash,
/// then the block's text.
pub open spec fn plain_contents(input: Seq<u8>, prev_hash: Seq<u8>) -> Seq<u8> {
    prev_hash + input
}

/// The bytes that are hashed for a block with a nonce: the previous hash, the
/// block's text, then the nonce in little-endian order.
pub open spec fn nonced_contents(input: Seq<u8>, prev_hash: Seq<u8>, nonce: u64) -> Seq<u8> {
    prev_hash + input + le_bytes(nonce)
}

/// The exponent of the bound below which a hash must lie to have
/// `leading_zeros` leading zero hexadecimal digits.
pub open spec fn difficulty_exponent(leading_zeros: u64) -> nat {
    (256 - 4 * leading_zeros) as nat
}

/// A hash meets the difficulty `leading_zeros` when, read as a big-endian
/// number, it is below two to the power `256 - 4 * leading_zeros`.
pub open spec fn meets_difficulty(hash: Seq<u8>, leading_zeros: u64) -> bool {
    be_value(hash) < pow2(difficulty_exponent(leading_zeros))
}

/// A nonce is accepted for a block text and previous hash when the hash of
/// the nonced contents meets the difficulty.
pub open spec fn nonce_meets(input: Seq<u8>, prev_hash: Seq<u8>, nonce: u64, leading_zeros: u64) -> bool {
    meets_difficulty(sha256(nonced_contents(input, prev_hash, nonce)), leading_zeros)
}

/// A big-endian number splits into its first byte and the rest.
proof fn lemma_be_value_front(h: Seq<u8>)
    requires
        h.len() >= 1,
    ensures
        be_value(h) == h[0] * pow2((8 * (h.len() - 1)) as nat) + be_value(h.subrange(1, h.len() as int)),
    decreases h.len(),
{
    lemma2_to64();
    let t = h.subrange(1, h.len() as int);
    if h.len() == 1 {
        assert(h.drop_last().len() == 0);
        assert(be_value(h.drop_last()) == 0);
        assert(t.len() == 0);
        assert(be_value(t) == 0);
        assert(be_value(h) == h[0]);
        assert(pow2((8 * (h.len() - 1)) as nat) == 1);
        assert(be_value(h) == h[0] * pow2((8 * (h.len() - 1)) as nat) + be_value(t));
    } else {
        let d = h.drop_last();
        lemma_be_value_front(d);
        assert(t.drop_last() =~= d.subrange(1, d.len() as int));
        assert(t.last() == h.last());
        let p = pow2((8 * (d.len() - 1)) as nat);
        lemma_pow2_adds((8 * (d.len() - 1)) as nat, 8);
        assert(pow2((8 * (h.len() - 1)) as nat) == p * 256);
        let bd = be_value(d.subrange(1, d.len() as int));
        let h0 = h[0] as int;
        assert(d[0] == h[0]);
        assert(be_value(d) == h0 * p + bd);
        assert(be_value(t) == be_value(t.drop_last()) * 256 + t.last());
        assert(be_value(h) == be_value(d) * 256 + h.last());
        assert((h0 * p + bd) * 256 + h.last() == h0 * (p * 256) + (bd * 256 + h.last())) by (nonlinear_arith);
        assert(be_value(h) == h0 * (p * 256) + be_value(t));
        assert(be_value(h) == h[0] * pow2((8 * (h.len() - 1)) as nat) + be_value(t));
    }
}

/// A big-endian number of `n` bytes is below two to the power `8 * n`.
proof fn lemma_be_value_bound(h: Seq<u8>)
    ensures
        be_value(h) < pow2((8 * h.len()) as nat),
    decreases h.len(),
{
    lemma2_to64();
    if h.len() > 0 {
        let d = h.drop_last();
        lemma_be_value_bound(d);
        let p = pow2((8 * d.len()) as nat);
        lemma_pow2_adds((8 * d.len()) as nat, 8);
        assert(pow2((8 * h.len()) as nat) == p * 256);
        let bd = be_value(d);
        assert(bd * 256 + h.last() < p * 256) by (nonlinear_arith)
            requires
                bd < p,
                h.last() < 256,
        ;
    }
}

/// The hexadecimal text of `n` bytes has `2 * n` digits.
proof fn lemma_hex_lower_len(h: Seq<u8>)
    ensures
        hex_lower(h).len() == 2 * h.len(),
    decreases h.len(),
{
    if h.len() > 0 {
        lemma_hex_lower_len(h.subrange(1, h.len() as int));
    }
}

/// The digit for a value below 16 is `0` exactly for 0.
proof fn lemma_hex_digit_zero(n: u8)
    requires
        n < 16,
    ensures
        (hex_digit(n) == '0') <==> n == 0,
{
    if n < 10 {
        assert(((n + 48) as u8) as char == '0' <==> n == 0);
    } else {
        assert(((n + 87) as u8) as char != '0');
    }
}

/// A big-endian number is below two to the power `8 * len - 4 * z` exactly
/// when the first `z` digits of its hexadecimal text are `0`.
proof fn lemma_below_pow2_leading_zero_digits(h: Seq<u8>, z: nat)
    requires
        z <= 2 * h.len(),
    ensures
        (be_value(h) < pow2((8 * h.len() - 4 * z) as nat)) <==> (forall|i: int|
            0 <= i < z ==> #[trigger] hex_lower(h)[i] == '0'),
    decreases h.len(),
{
    lemma2_to64();
    lemma_hex_lower_len(h);
    if z == 0 {
        lemma_be_value_bound(h);
    } else {
        let m = h.len();
        let t = h.subrange(1, m as int);
        let h0 = h[0];
        let b = pow2((8 * (m - 1)) as nat);
        let rest = be_value(t);
        lemma_be_value_front(h);
        lemma_be_value_bound(t);
        lemma_pow2_pos((8 * (m - 1)) as nat);
        assert(be_value(h) == h0 * b + rest);
        let hex = hex_lower(h);
        assert(hex == seq![hex_digit(h0 >> 4), hex_digit(h0 & 0x0f)] + hex_lower(t));
        assert(h0 >> 4 < 16 && h0 & 0x0f < 16) by (bit_vector);
        assert(h0 == 0 <==> (h0 >> 4 == 0 && h0 & 0x0f == 0)) by (bit_vector);
        assert(h0 < 16 <==> h0 >> 4 == 0) by (bit_vector);
        lemma_hex_digit_zero(h0 >> 4);
        lemma_hex_digit_zero(h0 & 0x0f);
        if z == 1 {
            lemma_pow2_adds((8 * (m - 1)) as nat, 4);
            assert(pow2((8 * m - 4) as nat) == b * 16);
            assert((h0 * b + rest < b * 16) <==> h0 < 16) by (nonlinear_arith)
                requires
                    0 <= rest < b,
                    0 < b,
                    0 <= h0,
            ;
            assert(hex[0] == hex_digit(h0 >> 4));
        } else {
            let e = (8 * (m - 1) - 4 * (z - 2)) as nat;
            assert(8 * m - 4 * z == e);
            lemma_below_pow2_leading_zero_digits(t, (z - 2) as nat);
            if e < 8 * (m - 1) {
                lemma_pow2_strictly_increases(e, (8 * (m - 1)) as nat);
            }
            let c = pow2(e);
            assert((h0 * b + rest < c) <==> (h0 == 0 && rest < c)) by (nonlinear_arith)
                requires
                    0 <= rest,
                    c <= b,
                    0 <= h0,
            ;
            assert(hex[0] == hex_digit(h0 >> 4));
            assert(hex[1] == hex_digit(h0 & 0x0f));
            assert forall|i: int| 2 <= i < z implies #[trigger] hex[i] == hex_lower(t)[i - 2] by {}
            if forall|i: int| 0 <= i < z ==> #[trigger] hex[i] == '0' {
                assert(hex[0] == '0' && hex[1] == '0');
                assert forall|i: int| 0 <= i < z - 2 implies #[trigger] hex_lower(t)[i] == '0' by {
                    assert(hex[i + 2] == '0');
                }
            }
            if h0 == 0 && rest < c {
                assert forall|i: int| 0 <= i < z implies #[trigger] hex[i] == '0' by {
                    if i >= 2 {
                        assert(hex_lower(t)[i - 2] == '0');
                    }
                }
            }
        }
    }
}

/// A lower-case hexadecimal digit: `0`-`9` or `a`-`f`.
pub open spec fn is_lower_hex_digit(c: char) -> bool {
    ('0' <= c && c <= '9') || ('a' <= c && c <= 'f')
}

/// The hexadecimal text of `n` bytes has `2 * n` lower-case hexadecimal digits.
pub proof fn lemma_hex_lower_shape(h: Seq<u8>)
    ensures
        hex_lower(h).len() == 2 * h.len(),
        forall|i: int| 0 <= i < hex_lower(h).len() ==> is_lower_hex_digit(#[trigger] hex_lower(h)[i]),
    decreases h.len(),
{
    lemma_hex_lower_len(h);
    if h.len() > 0 {
        let t = h.subrange(1, h.len() as int);
        lemma_hex_lower_shape(t);
        let h0 = h[0];
        assert(h0 >> 4 < 16 && h0 & 0x0f < 16) by (bit_vector);
        lemma_hex_digit_is_digit(h0 >> 4);
        lemma_hex_digit_is_digit(h0 & 0x0f);
        assert forall|i: int| 0 <= i < hex_lower(h).len() implies is_lower_hex_digit(
            #[trigger] hex_lower(h)[i],
        ) by {
            if i >= 2 {
                assert(hex_lower(h)[i] == hex_lower(t)[i - 2]);
            }
        }
    }
}

/// The digit for a value below 16 is a lower-case hexadecimal digit.
proof fn lemma_hex_digit_is_digit(n: u8)
    requires
        n < 16,
    ensures
        is_lower_hex_digit(hex_digit(n)),
{
    if n < 10 {
        assert('0' <= ((n + 48) as u8) as char <= '9');
    } else {
        assert('a' <= ((n + 87) as u8) as char <= 'f');
    }
}

/// Demanding one more leading zero digit never accepts more hashes.
pub proof fn lemma_meets_difficulty_monotone(hash: Seq<u8>, leading_zeros: u64)
    requires
        leading_zeros < 64,
    ensures
        meets_difficulty(hash, (leading_zeros + 1) as u64) ==> meets_difficulty(hash, leading_zeros),
{
    lemma_pow2_strictly_increases(
        difficulty_exponent((leading_zeros + 1) as u64),
        difficulty_exponent(leading_zeros),
    );
}

/// The contents hashed with a nonce are those hashed without one, for the text
/// followed by the nonce's eight bytes, least significant first.
pub proof fn lemma_nonced_is_plain_with_nonce_bytes(input: Seq<u8>, prev_hash: Seq<u8>, nonce: u64)
    ensures
        nonced_contents(input, prev_hash, nonce) == plain_contents(input + le_bytes(nonce), prev_hash),
{
    assert(nonced_contents(input, prev_hash, nonce) =~= plain_contents(input + le_bytes(nonce), prev_hash));
}

/// A 32-byte hash meets the difficulty `leading_zeros` exactly when its
/// hexadecimal text begins with `leading_zeros` zero digits.
pub proof fn lemma_difficulty_is_leading_zeros(hash: Seq<u8>, leading_zeros: u64)
    requires
        hash.len() == HASH_BYTE_SIZE,
        leading_zeros <= 64,
    ensures
        meets_difficulty(hash, leading_zeros) <==> (forall|i: int|
            0 <= i < leading_zeros ==> #[trigger] hex_lower(hash)[i] == '0'),
{
    lemma_below_pow2_leading_zero_digits(hash, leading_zeros as nat);
}

/// The eight bytes of a `u64`, least significant first, stand for the `u64`.
pub proof fn lemma_le_bytes_value(val: u64)
    ensures
        le_value(le_bytes(val)) == val,
{
    let b = le_bytes(val);
    assert(b.subrange(8, 8).len() == 0);
    assert(le_value(b.subrange(8, 8)) == 0);
    assert(b[7] == (val >> 56) as u8 && b[6] == (val >> 48) as u8 && b[5] == (val >> 40) as u8);
    assert(b[4] == (val >> 32) as u8 && b[3] == (val >> 24) as u8 && b[2] == (val >> 16) as u8);
    assert(b[1] == (val >> 8) as u8 && b[0] == val as u8);
    assert((val >> 56) == ((val >> 56) as u8) + 256 * 0) by (bit_vector);
    assert((val >> 48) == ((val >> 48) as u8) + 256 * (val >> 56)) by (bit_vector);
    assert((val >> 40) == ((val >> 40) as u8) + 256 * (val >> 48)) by (bit_vector);
    assert((val >> 32) == ((val >> 32) as u8) + 256 * (val >> 40)) by (bit_vector);
    assert((val >> 24) == ((val >> 24) as u8) + 256 * (val >> 32)) by (bit_vector);
    assert((val >> 16) == ((val >> 16) as u8) + 256 * (val >> 24)) by (bit_vector);
    assert((val >> 8) == ((val >> 8) as u8) + 256 * (val >> 16)) by (bit_vector);
    assert(val == (val as u8) + 256 * (val >> 8)) by (bit_vector);
    assert(b.subrange(7, 8).subrange(1, 1) =~= b.subrange(8, 8));
    assert(b.subrange(6, 8).subrange(1, 2) =~= b.subrange(7, 8));
    assert(b.subrange(5, 8).subrange(1, 3) =~= b.subrange(6, 8));
    assert(b.subrange(4, 8).subrange(1, 4) =~= b.subrange(5, 8));
    assert(b.subrange(3, 8).subrange(1, 5) =~= b.subrange(4, 8));
    assert(b.subrange(2, 8).subrange(1, 6) =~= b.subrange(3, 8));
    assert(b.subrange(1, 8).subrange(1, 7) =~= b.subrange(2, 8));
    assert(le_value(b.subrange(7, 8)) == val >> 56);
    assert(le_value(b.subrange(6, 8)) == val >> 48);
    assert(le_value(b.subrange(5, 8)) == val >> 40);
    assert(le_value(b.subrange(4, 8)) == val >> 32);
    assert(le_value(b.subrange(3, 8)) == val >> 24);
    assert(le_value(b.subrange(2, 8)) == val >> 16);
    assert(le_value(b.subrange(1, 8)) == val >> 8);
}

/// The bytes hashed for a block without a nonce are the previous hash, byte
/// for byte in the order it is stored, followed by the block's text.
pub proof fn lemma_plain_contents_layout(input: Seq<u8>, prev_hash: Seq<u8>)
    ensures
        plain_contents(input, prev_hash).len() == prev_hash.len() + input.len(),
        forall|i: int| 0 <= i < prev_hash.len() ==> #[trigger] plain_contents(input, prev_hash)[i] == prev_hash[i],
        forall|i: int|
            0 <= i < input.len() ==> #[trigger] plain_contents(input, prev_hash)[prev_hash.len() + i] == input[i],
{
}

/// The bytes hashed for a block with a nonce are the previous hash, byte for
/// byte in the order it is stored, then the block's text, then eight bytes
/// that stand for the nonce, least significant first.
pub proof fn lemma_nonced_contents_layout(input: Seq<u8>, prev_hash: Seq<u8>, nonce: u64)
    ensures
        nonced_contents(input, prev_hash, nonce).len() == prev_hash.len() + input.len() + 8,
        forall|i: int|
            0 <= i < prev_hash.len() ==> #[trigger] nonced_contents(input, prev_hash, nonce)[i] == prev_hash[i],
        forall|i: int|
            0 <= i < input.len() ==> #[trigger] nonced_contents(input, prev_hash, nonce)[prev_hash.len() + i]
                == input[i],
        le_value(
            nonced_contents(input, prev_hash, nonce).subrange(
                prev_hash.len() + input.len() as int,
                prev_hash.len() + input.len() + 8 as int,
            ),
        ) == nonce,
{
    let c = nonced_contents(input, prev_hash, nonce);
    let k: int = prev_hash.len() + input.len() as int;
    assert(c.subrange(k, k + 8) =~= le_bytes(nonce));
    lemma_le_bytes_value(nonce);
}

/// Mining with the candidates `1..=max_nonce` and the difficulty
/// `leading_zeros` runs without overflow: the candidates can be counted, and
/// where there is any candidate, the difficulty is at most 64 digits.
pub open spec fn mining_ok(max_nonce: u64, leading_zeros: u64) -> bool {
    max_nonce < u64::MAX && (max_nonce == 0 || leading_zeros <= 64)
}

/// Appends a byte slice to a vector.
fn push_all(v: &mut Vec<u8>, s: &[u8])
    ensures
        final(v)@ == old(v)@ + s@,
{
    let ghost start = v@;
    let mut i: usize = 0;
    while i < s.len()
        invariant
            i <= s@.len(),
            v@ == start + s@.subrange(0, i as int),
        decreases s@.len() - i,
    {
        v.push(s[i]);
        i = i + 1;
        assert(v@ =~= start + s@.subrange(0, i as int));
    }
    assert(s@.subrange(0, s@.len() as int) =~= s@);
}

/// Converts a `u64` into its eight bytes, least significant first.
pub fn convert_u64_little_endian(val: u64) -> (r: [u8; 8])
    ensures
        r@ == le_bytes(val),
{
    [
        val as u8,
        (val >> 8) as u8,
        (val >> 16) as u8,
        (val >> 24) as u8,
        (val >> 32) as u8,
        (val >> 40) as u8,
        (val >> 48) as u8,
        (val >> 56) as u8,
    ]
}

/// The bytes hashed for a block without a nonce.
fn plain_contents_vec(input: &str, prev_hash: &Sha256Hash) -> (r: Vec<u8>)
    ensures
        r@ == plain_contents(input.spec_bytes(), prev_hash@),
{
    let mut contents: Vec<u8> = Vec::new();
    push_all(&mut contents, prev_hash);
    push_all(&mut contents, input.as_bytes());
    contents
}

/// The bytes hashed for a block with a nonce.
fn nonced_contents_vec(input: &str, prev_hash: &Sha256Hash, nonce: u64) -> (r: Vec<u8>)
    ensures
        r@ == nonced_contents(input.spec_bytes(), prev_hash@, nonce),
{
    let mut contents: Vec<u8> = Vec::new();
    push_all(&mut contents, prev_hash);
    push_all(&mut contents, input.as_bytes());
    let le = convert_u64_little_endian(nonce);
    push_all(&mut contents, &le);
    contents
}

/// The hash of a block's text with its previous hash and a nonce, as hexadecimal text.
pub fn nonced_hash_string(input: &str, prev_hash: Sha256Hash, nonce: u64) -> (r: String)
    requires
        text_len_ok(input),
    ensures
        r@ == hex_lower(sha256(nonced_contents(input.spec_bytes(), prev_hash@, nonce))),
        r@.len() == 64,
        forall|i: int| 0 <= i < r@.len() ==> is_lower_hex_digit(#[trigger] r@[i]),
{
    let contents = nonced_contents_vec(input, &prev_hash, nonce);
    let hash = sha256_digest(contents.as_slice());
    proof {
        lemma_hex_lower_shape(hash@);
    }
    hex_encode(&hash)
}

/// The hash of a block's text with its previous hash and a nonce.
pub fn nonced_hash(input: &str, prev_hash: Sha256Hash, nonce: u64) -> (r: Sha256Hash)
    requires
        text_len_ok(input),
    ensures
        r@ == sha256(nonced_contents(input.spec_bytes(), prev_hash@, nonce)),
{
    let contents = nonced_contents_vec(input, &prev_hash, nonce);
    sha256_digest(contents.as_slice())
}

/// Tells whether a nonce makes the block's hash meet the difficulty
/// `leading_zeros`.
pub fn found_nonce(input: &str, prev_hash: Sha256Hash, nonce: u64, leading_zeros: u64) -> (r: bool)
    requires
        text_len_ok(input),
        leading_zeros <= 64,
    ensures
        r == nonce_meets(input.spec_bytes(), prev_hash@, nonce, leading_zeros),
        r <==> forall|j: int|
            0 <= j < leading_zeros ==> #[trigger] hex_lower(
                sha256(nonced_contents(input.spec_bytes(), prev_hash@, nonce)),
            )[j] == '0',
{
    let exp = 256 - 4 * leading_zeros;
    let contents = nonced_contents_vec(input, &prev_hash, nonce);
    let hash = sha256_digest(contents.as_slice());
    proof {
        lemma_difficulty_is_leading_zeros(hash@, leading_zeros);
    }
    big_endian_below_pow2(&hash, exp)
}

/// The hash of a block's text with its previous hash, without a nonce, as
/// hexadecimal text.
pub fn hash_without_nonce_string(input: &str, prev_hash: Sha256Hash) -> (r: String)
    requires
        plain_len_ok(input.spec_bytes().len() as int),
    ensures
        r@ == hex_lower(sha256(plain_contents(input.spec_bytes(), prev_hash@))),
        r@.len() == 64,
        forall|i: int| 0 <= i < r@.len() ==> is_lower_hex_digit(#[trigger] r@[i]),
{
    let contents = plain_contents_vec(input, &prev_hash);
    let hash = sha256_digest(contents.as_slice());
    proof {
        lemma_hex_lower_shape(hash@);
    }
    hex_encode(&hash)
}

/// The hash of a block's text with its previous hash, without a nonce.
pub fn hash_without_nonce(input: &str, prev_hash: Sha256Hash) -> (r: Sha256Hash)
    requires
        plain_len_ok(input.spec_bytes().len() as int),
    ensures
        r@ == sha256(plain_contents(input.spec_bytes(), prev_hash@)),
{
    let contents = plain_contents_vec(input, &prev_hash);
    sha256_digest(contents.as_slice())
}

/// Hexadecimal text of a hash.
pub fn encode_hash(hash: &Sha256Hash) -> (r: String)
    ensures
        r@ == hex_lower(hash@),
        r@.len() == 64,
        forall|i: int| 0 <= i < r@.len() ==> is_lower_hex_digit(#[trigger] r@[i]),
{
    proof {
        lemma_hex_lower_shape(hash@);
    }
    hex_encode(hash)
}

/// The candidate nonces `1..=max_nonce`, in increasing order.
pub fn create_nonce_vec(max_nonce: u64) -> (r: Vec<u64>)
    requires
        max_nonce < u64::MAX,
    ensures
        r@.len() == max_nonce,
        forall|i: int| 0 <= i < r@.len() ==> r@[i] == i + 1,
{
    let mut v: Vec<u64> = Vec::new();
    let mut n: u64 = 1;
    while n <= max_nonce
        invariant
            1 <= n <= max_nonce + 1,
            max_nonce < u64::MAX,
            v@.len() == n - 1,
            forall|i: int| 0 <= i < v@.len() ==> v@[i] == i + 1,
        decreases max_nonce + 1 - n,
    {
        v.push(n);
        n = n + 1;
    }
    v
}

/// Calls `rayon`'s `par_iter` and `find_any` on `nonces` with a predicate that
/// calls `found_nonce`, and claims what the documentation of `find_any`
/// promises: some item that matches, or `None` when no item matches. Which of
/// several matching items comes back depends on the scheduling of the threads
/// and is left open. The predicate is not called on an empty vector.
#[verifier::external_body]
fn par_find_any(nonces: &Vec<u64>, input: &str, prev_hash: Sha256Hash, leading_zeros: u64) -> (r: Option<u64>)
    requires
        nonces@.len() == 0 || (text_len_ok(input) && leading_zeros <= 64),
    ensures
        r matches Some(n) ==> nonces@.contains(n) && nonce_meets(input.spec_bytes(), prev_hash@, n, leading_zeros),
        r is None ==> forall|i: int| 0 <= i < nonces@.len() ==> !nonce_meets(input.spec_bytes(), prev_hash@, #[trigger] nonces@[i], leading_zeros),
{
    nonces.par_iter().find_any(|&&nonce| found_nonce(input, prev_hash, nonce, leading_zeros)).copied()
}

/// Searches the candidate nonces for one that makes the block's hash meet the
/// difficulty. Returns such a nonce, or 0 when no candidate other than 0 does.
/// The vector is left as it was.
pub fn find_nonce(input: &str, prev_hash: Sha256Hash, nonce_vec: &mut Vec<u64>, leading_zeros: u64) -> (r: u64)
    requires
        old(nonce_vec)@.len() == 0 || (text_len_ok(input) && leading_zeros <= 64),
    ensures
        final(nonce_vec)@ == old(nonce_vec)@,
        r != 0 ==> old(nonce_vec)@.contains(r) && nonce_meets(input.spec_bytes(), prev_hash@, r, leading_zeros),
        r == 0 ==> (forall|i: int| 0 <= i < old(nonce_vec)@.len() && #[trigger] old(nonce_vec)@[i] != 0
            ==> !nonce_meets(input.spec_bytes(), prev_hash@, old(nonce_vec)@[i], leading_zeros))
            || (old(nonce_vec)@.contains(0) && nonce_meets(input.spec_bytes(), prev_hash@, 0, leading_zeros)),
{
    match par_find_any(nonce_vec, input, prev_hash, leading_zeros) {
        Some(n) => n,
        None => 0,
    }
}

} // verus!
