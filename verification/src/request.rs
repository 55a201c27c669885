//! Reading the parameters out of the HTTP requests that the front end sends.
//!
//! Each request line names an action and carries its parameters between
//! fixed markers. A parameter is found at the first place in the text where
//! its pattern occurs (the earliest start wins); a free-text parameter runs to
//! the last " HTTP" on the same line. Positions are byte offsets into the
//! UTF-8 text.

use vstd::prelude::*;
use vstd::string::StringSliceAdditionalSpecFns;
use vstd::utf8::*;

verus! {

broadcast use vstd::utf8::encode_utf8_valid_utf8;

// ----------------------------------------------------------------------------
// Markers

/// `GET /convert_bc`: a request to add a block.
pub open spec fn convert_marker() -> Seq<u8> {
    seq![71u8, 69, 84, 32, 47, 99, 111, 110, 118, 101, 114, 116, 95, 98, 99]
}

/// `GET /minebc*`: a request to change a block's text and mine again.
pub open spec fn mine_marker() -> Seq<u8> {
    seq![71u8, 69, 84, 32, 47, 109, 105, 110, 101, 98, 99, 42]
}

/// `GET /setting_bc*`: a request to change the mining preferences.
pub open spec fn setting_marker() -> Seq<u8> {
    seq![71u8, 69, 84, 32, 47, 115, 101, 116, 116, 105, 110, 103, 95, 98, 99, 42]
}

/// `__`: the separator between parameters.
pub open spec fn separator() -> Seq<u8> {
    seq![95u8, 95]
}

/// ` HTTP`: the text that ends the request target.
pub open spec fn http_marker() -> Seq<u8> {
    seq![32u8, 72, 84, 84, 80]
}

/// Offset, from the start of a match of `GET /convert_bc .. HTTP`, at which
/// the new block's text begins: three bytes after the marker.
pub open spec fn convert_content_offset() -> int {
    18
}

pub(crate) fn convert_marker_bytes() -> (r: [u8; 15])
    ensures
        r@ == convert_marker(),
{
    let r: [u8; 15] = [71u8, 69, 84, 32, 47, 99, 111, 110, 118, 101, 114, 116, 95, 98, 99];
    assert(r@ =~= convert_marker());
    r
}

fn mine_marker_bytes() -> (r: [u8; 12])
    ensures
        r@ == mine_marker(),
{
    let r: [u8; 12] = [71u8, 69, 84, 32, 47, 109, 105, 110, 101, 98, 99, 42];
    assert(r@ =~= mine_marker());
    r
}

fn setting_marker_bytes() -> (r: [u8; 16])
    ensures
        r@ == setting_marker(),
{
    let r: [u8; 16] = [71u8, 69, 84, 32, 47, 115, 101, 116, 116, 105, 110, 103, 95, 98, 99, 42];
    assert(r@ =~= setting_marker());
    r
}

fn separator_bytes() -> (r: [u8; 2])
    ensures
        r@ == separator(),
{
    let r: [u8; 2] = [95u8, 95];
    assert(r@ =~= separator());
    r
}

fn http_marker_bytes() -> (r: [u8; 5])
    ensures
        r@ == http_marker(),
{
    let r: [u8; 5] = [32u8, 72, 84, 84, 80];
    assert(r@ =~= http_marker());
    r
}

// ----------------------------------------------------------------------------
// The patterns

/// `lit` occurs in `b` at offset `at`.
pub open spec fn lit_at(b: Seq<u8>, at: int, lit: Seq<u8>) -> bool {
    0 <= at && at + lit.len() <= b.len() && b.subrange(at, at + lit.len()) == lit
}

/// An ASCII decimal digit.
pub open spec fn is_digit(c: u8) -> bool {
    48 <= c <= 57
}

/// Every byte of `b` from `i` up to `j` is a decimal digit.
pub open spec fn all_digits(b: Seq<u8>, i: int, j: int) -> bool {
    0 <= i <= j <= b.len() && forall|k: int| i <= k < j ==> is_digit(#[trigger] b[k])
}

/// No byte of `b` from `i` up to `j` is a line feed.
pub open spec fn no_newline(b: Seq<u8>, i: int, j: int) -> bool {
    forall|k: int| i <= k < j ==> #[trigger] b[k] != 10u8
}

/// ` HTTP` occurs at `e`, on the same line as `from`.
pub open spec fn line_end(b: Seq<u8>, from: int, e: int) -> bool {
    from <= e && no_newline(b, from, e) && lit_at(b, e, http_marker())
}

/// The pattern `open(.*) HTTP` matches at `s`, its `.*` ending at `e`.
pub open spec fn line_match(b: Seq<u8>, open: Seq<u8>, s: int, e: int) -> bool {
    lit_at(b, s, open) && line_end(b, s + open.len(), e)
}

/// The match of `open(.*) HTTP` that a leftmost-first search reports: the
/// earliest start, and there the longest `.*`.
pub open spec fn is_first_line_match(b: Seq<u8>, open: Seq<u8>, s: int, e: int) -> bool {
    &&& line_match(b, open, s, e)
    &&& forall|s2: int, e2: int| s2 < s ==> !#[trigger] line_match(b, open, s2, e2)
    &&& forall|e2: int| e < e2 ==> !#[trigger] line_match(b, open, s, e2)
}

/// The pattern `open[0-9]*close` matches at `s`, its digits ending at `j`.
pub open spec fn digits_match(b: Seq<u8>, open: Seq<u8>, close: Seq<u8>, s: int, j: int) -> bool {
    lit_at(b, s, open) && all_digits(b, s + open.len(), j) && lit_at(b, j, close)
}

/// The match of `open[0-9]*close` that a leftmost-first search reports.
pub open spec fn is_first_digits_match(b: Seq<u8>, open: Seq<u8>, close: Seq<u8>, s: int, j: int) -> bool {
    &&& digits_match(b, open, close, s, j)
    &&& forall|s2: int, j2: int| s2 < s ==> !#[trigger] digits_match(b, open, close, s2, j2)
}

/// Where `open(.*) HTTP` first matches in `b`, if anywhere.
pub open spec fn first_line_span(b: Seq<u8>, open: Seq<u8>) -> Option<(int, int)> {
    if exists|s: int, e: int| is_first_line_match(b, open, s, e) {
        Some(choose|s: int, e: int| is_first_line_match(b, open, s, e))
    } else {
        None
    }
}

/// Where `open[0-9]*close` first matches in `b`, if anywhere.
pub open spec fn first_digits_span(b: Seq<u8>, open: Seq<u8>, close: Seq<u8>) -> Option<(int, int)> {
    if exists|s: int, j: int| is_first_digits_match(b, open, close, s, j) {
        Some(choose|s: int, j: int| is_first_digits_match(b, open, close, s, j))
    } else {
        None
    }
}

/// The number written by a sequence of decimal digits.
pub open spec fn decimal_value(ds: Seq<u8>) -> nat
    decreases ds.len(),
{
    if ds.len() == 0 {
        0
    } else {
        (decimal_value(ds.drop_last()) * 10 + (ds.last() - 48)) as nat
    }
}

/// Reading a sequence of decimal digits as a `u64`: there must be at least
/// one digit and the number must fit.
pub open spec fn parse_u64(ds: Seq<u8>) -> Option<u64> {
    if ds.len() > 0 && decimal_value(ds) <= u64::MAX {
        Some(decimal_value(ds) as u64)
    } else {
        None
    }
}

// ----------------------------------------------------------------------------
// What each request parameter is

/// The text of the block to add, or `None` where it cannot be cut out of
/// the match (the match is too short, or its 18th byte is inside a
/// character). Without a match it is the whole text.
pub open spec fn request_content_outcome(b: Seq<u8>) -> Option<Seq<u8>> {
    match first_line_span(b, convert_marker()) {
        None => Some(b),
        Some((s, e)) => {
            let start = s + convert_content_offset();
            if start <= e && is_char_boundary(b, start) {
                Some(b.subrange(start, e))
            } else {
                None
            }
        },
    }
}

/// The id of the block to mine again: the digits of the first
/// `GET /minebc*[0-9]*__`, or 0 without a match; `None` where the digits
/// are missing or too many for a `u64`.
pub open spec fn mine_id_outcome(b: Seq<u8>) -> Option<u64> {
    match first_digits_span(b, mine_marker(), separator()) {
        None => Some(0),
        Some((s, j)) => parse_u64(b.subrange(s + mine_marker().len(), j)),
    }
}

/// The new text of the block to mine again: what lies between the first
/// `__` and the last ` HTTP` on its line, or the whole text without a match.
pub open spec fn mine_content_outcome(b: Seq<u8>) -> Seq<u8> {
    match first_line_span(b, separator()) {
        None => b,
        Some((s, e)) => b.subrange(s + 2, e),
    }
}

/// The largest nonce to try: the digits of the first
/// `GET /setting_bc*[0-9]*__`, or 1 000 000 without a match.
pub open spec fn max_nonce_outcome(b: Seq<u8>) -> Option<u64> {
    match first_digits_span(b, setting_marker(), separator()) {
        None => Some(1_000_000),
        Some((s, j)) => parse_u64(b.subrange(s + setting_marker().len(), j)),
    }
}

/// The number of leading zero hexadecimal digits a block hash must have: the
/// digits of the first `__[0-9]* HTTP`, or 3 without a match.
pub open spec fn leading_zeros_outcome(b: Seq<u8>) -> Option<u64> {
    match first_digits_span(b, separator(), http_marker()) {
        None => Some(3),
        Some((s, j)) => parse_u64(b.subrange(s + 2, j)),
    }
}

// ----------------------------------------------------------------------------
// Lemmas

/// In valid UTF-8, a position next to an ASCII byte is a character boundary.
proof fn lemma_ascii_boundary(bytes: Seq<u8>, k: int)
    requires
        valid_utf8(bytes),
        0 <= k <= bytes.len(),
        (k < bytes.len() && bytes[k] < 0x80) || (0 < k && bytes[k - 1] < 0x80),
    ensures
        is_char_boundary(bytes, k),
    decreases bytes.len(),
{
    if k > 0 {
        let len = length_of_first_scalar(bytes);
        let rest = pop_first_scalar(bytes);
        assert(valid_first_scalar(bytes) && valid_utf8(rest));
        assert(k >= len);
        assert(rest.len() == bytes.len() - len);
        assert(is_char_boundary(bytes, k) == is_char_boundary(rest, k - len));
        if k > len {
            if k < bytes.len() {
                assert(rest[k - len] == bytes[k]);
            }
            assert(rest[k - len - 1] == bytes[k - 1]);
            lemma_ascii_boundary(rest, k - len);
        }
    }
}

/// A leftmost-first match of `open(.*) HTTP` is the one that
/// `first_line_span` names.
proof fn lemma_first_line_unique(b: Seq<u8>, open: Seq<u8>, s: int, e: int)
    requires
        is_first_line_match(b, open, s, e),
    ensures
        first_line_span(b, open) == Some((s, e)),
{
    let (s1, e1) = choose|s1: int, e1: int| is_first_line_match(b, open, s1, e1);
    assert(is_first_line_match(b, open, s1, e1));
    if s1 < s {
        assert(!line_match(b, open, s1, e1));
    } else if s < s1 {
        assert(!line_match(b, open, s, e));
    }
    if e1 < e {
        assert(!line_match(b, open, s, e));
    } else if e < e1 {
        assert(!line_match(b, open, s1, e1));
    }
}

/// A leftmost-first match of `open[0-9]*close` is the one that
/// `first_digits_span` names, where `close` begins with a non-digit.
proof fn lemma_first_digits_unique(b: Seq<u8>, open: Seq<u8>, close: Seq<u8>, s: int, j: int)
    requires
        is_first_digits_match(b, open, close, s, j),
        close.len() > 0,
        !is_digit(close[0]),
    ensures
        first_digits_span(b, open, close) == Some((s, j)),
{
    let (s1, j1) = choose|s1: int, j1: int| is_first_digits_match(b, open, close, s1, j1);
    assert(is_first_digits_match(b, open, close, s1, j1));
    if s1 < s {
        assert(!digits_match(b, open, close, s1, j1));
    } else if s < s1 {
        assert(!digits_match(b, open, close, s, j));
    }
    if j1 < j {
        assert(b[j1] == b.subrange(j1, j1 + close.len())[0]);
        assert(is_digit(b[j1]));
    } else if j < j1 {
        assert(b[j] == b.subrange(j, j + close.len())[0]);
        assert(is_digit(b[j]));
    }
}

/// The number of a prefix of a digit sequence is at most that of the whole.
proof fn lemma_decimal_prefix_le(ds: Seq<u8>, j: int)
    requires
        0 <= j <= ds.len(),
        forall|k: int| 0 <= k < ds.len() ==> is_digit(#[trigger] ds[k]),
    ensures
        decimal_value(ds.subrange(0, j)) <= decimal_value(ds),
    decreases ds.len(),
{
    if j == ds.len() {
        assert(ds.subrange(0, j) =~= ds);
    } else {
        let d = ds.drop_last();
        lemma_decimal_prefix_le(d, j);
        assert(d.subrange(0, j) =~= ds.subrange(0, j));
    }
}

// ----------------------------------------------------------------------------
// Searching

/// Tells whether `lit` occurs in `b` at offset `at`.
pub(crate) fn bytes_at(b: &[u8], at: usize, lit: &[u8]) -> (r: bool)
    ensures
        r == lit_at(b@, at as int, lit@),
{
    if at > b.len() || lit.len() > b.len() - at {
        return false;
    }
    let mut i: usize = 0;
    while i < lit.len()
        invariant
            i <= lit@.len(),
            at + lit@.len() <= b@.len(),
            b@.len() == b.len(),
            forall|k: int| 0 <= k < i ==> b@[at + k] == lit@[k],
        decreases lit@.len() - i,
    {
        if b[at + i] != lit[i] {
            assert(b@.subrange(at as int, at + lit@.len())[i as int] != lit@[i as int]);
            return false;
        }
        i = i + 1;
    }
    assert(b@.subrange(at as int, at + lit@.len()) =~= lit@);
    true
}

/// The last ` HTTP` that starts at or after `from` on the same line.
fn last_http_on_line(b: &[u8], from: usize) -> (r: Option<usize>)
    requires
        from <= b@.len(),
    ensures
        r matches Some(e) ==> line_end(b@, from as int, e as int) && forall|e2: int|
            e < e2 ==> !#[trigger] line_end(b@, from as int, e2),
        r is None ==> forall|e2: int| !#[trigger] line_end(b@, from as int, e2),
{
    let http = http_marker_bytes();
    let mut last: Option<usize> = None;
    let mut i: usize = from;
    while i < b.len() && b[i] != 10
        invariant
            from <= i <= b@.len(),
            http@ == http_marker(),
            no_newline(b@, from as int, i as int),
            last matches Some(e) ==> e < i && line_end(b@, from as int, e as int),
            forall|e2: int|
                from <= e2 < i && (last matches Some(e) ==> e < e2) ==> !#[trigger] line_end(
                    b@,
                    from as int,
                    e2,
                ),
        decreases b@.len() - i,
    {
        if bytes_at(b, i, &http) {
            last = Some(i);
        }
        i = i + 1;
    }
    assert forall|e2: int| i <= e2 implies !#[trigger] line_end(b@, from as int, e2) by {
        if line_end(b@, from as int, e2) {
            assert(b@[e2] == b@.subrange(e2, e2 + 5)[0]);
            if e2 > i {
                assert(b@[i as int] != 10u8);
            }
        }
    }
    last
}

/// The first match of `open(.*) HTTP` in `b`.
fn first_line_match(b: &[u8], open: &[u8]) -> (r: Option<(usize, usize)>)
    requires
        open@.len() > 0,
    ensures
        r matches Some((s, e)) ==> is_first_line_match(b@, open@, s as int, e as int),
        r is None ==> forall|s: int, e: int| !#[trigger] line_match(b@, open@, s, e),
{
    let mut s: usize = 0;
    while s < b.len()
        invariant
            s <= b@.len(),
            open@.len() > 0,
            forall|s2: int, e2: int| s2 < s ==> !#[trigger] line_match(b@, open@, s2, e2),
        decreases b@.len() - s,
    {
        if bytes_at(b, s, open) {
            match last_http_on_line(b, s + open.len()) {
                Some(e) => {
                    return Some((s, e));
                },
                None => {},
            }
        }
        s = s + 1;
    }
    None
}

/// The end of the run of digits that starts at `i`.
fn digits_end(b: &[u8], i: usize) -> (j: usize)
    requires
        i <= b@.len(),
    ensures
        all_digits(b@, i as int, j as int),
        j == b@.len() || !is_digit(b@[j as int]),
{
    let mut j = i;
    while j < b.len() && 48 <= b[j] && b[j] <= 57
        invariant
            all_digits(b@, i as int, j as int),
        decreases b@.len() - j,
    {
        j = j + 1;
    }
    j
}

/// The first match of `open[0-9]*close` in `b`.
fn first_digits_match(b: &[u8], open: &[u8], close: &[u8]) -> (r: Option<(usize, usize)>)
    requires
        open@.len() > 0,
        close@.len() > 0,
        !is_digit(close@[0]),
    ensures
        r matches Some((s, j)) ==> is_first_digits_match(b@, open@, close@, s as int, j as int),
        r is None ==> forall|s: int, j: int| !#[trigger] digits_match(b@, open@, close@, s, j),
{
    let mut s: usize = 0;
    while s < b.len()
        invariant
            s <= b@.len(),
            open@.len() > 0,
            close@.len() > 0,
            !is_digit(close@[0]),
            forall|s2: int, j2: int| s2 < s ==> !#[trigger] digits_match(b@, open@, close@, s2, j2),
        decreases b@.len() - s,
    {
        if bytes_at(b, s, open) {
            let j = digits_end(b, s + open.len());
            let found = bytes_at(b, j, close);
            assert forall|j2: int| j2 != j implies !#[trigger] digits_match(
                b@,
                open@,
                close@,
                s as int,
                j2,
            ) by {
                if digits_match(b@, open@, close@, s as int, j2) {
                    assert(b@[j2] == b@.subrange(j2, j2 + close@.len())[0]);
                    if j2 > j {
                        assert(is_digit(b@[j as int]));
                    }
                }
            }
            if found {
                return Some((s, j));
            }
        }
        s = s + 1;
    }
    None
}

/// Reads the digits `b[from..to]` as a `u64`.
fn parse_digits(b: &[u8], from: usize, to: usize) -> (r: Option<u64>)
    requires
        all_digits(b@, from as int, to as int),
    ensures
        r == parse_u64(b@.subrange(from as int, to as int)),
{
    let ghost ds = b@.subrange(from as int, to as int);
    if from == to {
        return None;
    }
    let mut acc: u64 = 0;
    let mut i: usize = from;
    while i < to
        invariant
            from <= i <= to,
            to <= b@.len(),
            ds == b@.subrange(from as int, to as int),
            all_digits(b@, from as int, to as int),
            acc == decimal_value(b@.subrange(from as int, i as int)),
        decreases to - i,
    {
        let ghost prefix = b@.subrange(from as int, i as int + 1);
        assert(prefix.drop_last() =~= b@.subrange(from as int, i as int));
        assert(is_digit(b@[i as int]));
        let d = (b[i] - 48) as u64;
        match acc.checked_mul(10) {
            Some(m) => match m.checked_add(d) {
                Some(v) => {
                    acc = v;
                },
                None => {
                    proof {
                        assert(ds.subrange(0, i - from + 1) =~= prefix);
                        lemma_decimal_prefix_le(ds, i - from + 1);
                    }
                    return None;
                },
            },
            None => {
                proof {
                    assert(ds.subrange(0, i - from + 1) =~= prefix);
                    lemma_decimal_prefix_le(ds, i - from + 1);
                }
                return None;
            },
        }
        i = i + 1;
    }
    Some(acc)
}

/// Cuts `text[start..end]` out of a text.
fn cut(text: &str, start: usize, end: usize) -> (r: &str)
    requires
        start <= end <= text.spec_bytes().len(),
        is_char_boundary(text.spec_bytes(), start as int),
        is_char_boundary(text.spec_bytes(), end as int),
    ensures
        r.spec_bytes() == text.spec_bytes().subrange(start as int, end as int),
{
    let ghost b = text.spec_bytes();
    let (_, rest) = text.split_at(start);
    proof {
        lemma_boundary_shift(b, start as int, end as int);
    }
    let (mid, _) = rest.split_at(end - start);
    assert(mid.spec_bytes() =~= b.subrange(start as int, end as int));
    mid
}

/// A boundary of a valid UTF-8 sequence stays one, shifted, in the part that
/// follows an earlier boundary.
proof fn lemma_boundary_shift(b: Seq<u8>, start: int, end: int)
    requires
        valid_utf8(b),
        0 <= start <= end <= b.len(),
        is_char_boundary(b, start),
        is_char_boundary(b, end),
    ensures
        is_char_boundary(b.subrange(start, b.len() as int), end - start),
    decreases b.len(),
{
    if start > 0 {
        let len = length_of_first_scalar(b);
        let rest = pop_first_scalar(b);
        assert(valid_first_scalar(b) && valid_utf8(rest));
        assert(rest.len() == b.len() - len);
        assert(is_char_boundary(b, start) == is_char_boundary(rest, start - len));
        assert(is_char_boundary(b, end) == is_char_boundary(rest, end - len));
        lemma_boundary_shift(rest, start - len, end - len);
        assert(rest.subrange(start - len, rest.len() as int) =~= b.subrange(start, b.len() as int));
    } else {
        assert(b.subrange(start, b.len() as int) =~= b);
    }
}

// ----------------------------------------------------------------------------
// The request parameters

/// The text of the block to add, from a `GET /convert_bc` request; `None`
/// where it cannot be cut out of the match.
pub fn try_get_request_content(text: &str) -> (r: Option<&str>)
    ensures
        r matches Some(c) ==> request_content_outcome(text.spec_bytes()) == Some(c.spec_bytes()),
        r is None <==> request_content_outcome(text.spec_bytes()) is None,
{
    let b = text.as_bytes();
    let marker = convert_marker_bytes();
    match first_line_match(b, &marker) {
        None => {
            assert(!exists|s: int, e: int| is_first_line_match(b@, marker@, s, e));
            Some(text)
        },
        Some((s, e)) => {
            proof {
                lemma_first_line_unique(b@, marker@, s as int, e as int);
            }
            if e - s < 18 {
                return None;
            }
            let start = s + 18;
            if !text.is_char_boundary(start) {
                return None;
            }
            proof {
                assert(b@[e as int] == b@.subrange(e as int, e + 5)[0]);
                lemma_ascii_boundary(b@, e as int);
            }
            Some(cut(text, start, e))
        },
    }
}

/// The text of the block to add, from a `GET /convert_bc` request: what lies
/// from the 18th byte of the first match of `GET /convert_bc(.*) HTTP` up to
/// its final ` HTTP`, or the whole text where nothing matches.
pub fn get_request_content(text: &str) -> (r: &str)
    requires
        request_content_outcome(text.spec_bytes()) is Some,
    ensures
        request_content_outcome(text.spec_bytes()) == Some(r.spec_bytes()),
{
    match try_get_request_content(text) {
        Some(c) => c,
        None => text,
    }
}

/// The id of the block to mine again, from a `GET /minebc*<id>__` request;
/// `None` where the digits are missing or do not fit in a `u64`.
pub fn try_get_mine_id(text: &str) -> (r: Option<u64>)
    ensures
        r == mine_id_outcome(text.spec_bytes()),
{
    let b = text.as_bytes();
    let marker = mine_marker_bytes();
    let sep = separator_bytes();
    match first_digits_match(b, &marker, &sep) {
        None => {
            assert(!exists|s: int, j: int| is_first_digits_match(b@, marker@, sep@, s, j));
            Some(0)
        },
        Some((s, j)) => {
            proof {
                lemma_first_digits_unique(b@, marker@, sep@, s as int, j as int);
            }
            parse_digits(b, s + 12, j)
        },
    }
}

/// The id of the block to mine again: the digits of the first
/// `GET /minebc*[0-9]*__`, or 0 where nothing matches.
pub fn get_mine_id(text: &str) -> (r: u64)
    requires
        mine_id_outcome(text.spec_bytes()) is Some,
    ensures
        mine_id_outcome(text.spec_bytes()) == Some(r),
{
    match try_get_mine_id(text) {
        Some(v) => v,
        None => 0,
    }
}

/// The new text of the block to mine again: what lies between the first
/// `__` that has a ` HTTP` after it on its line and the last such ` HTTP`,
/// or the whole text where nothing matches.
pub fn get_mine_content(text: &str) -> (r: &str)
    ensures
        r.spec_bytes() == mine_content_outcome(text.spec_bytes()),
{
    let b = text.as_bytes();
    let sep = separator_bytes();
    match first_line_match(b, &sep) {
        None => {
            assert(!exists|s: int, e: int| is_first_line_match(b@, sep@, s, e));
            text
        },
        Some((s, e)) => {
            proof {
                lemma_first_line_unique(b@, sep@, s as int, e as int);
                assert(b@[s + 1] == b@.subrange(s as int, s + 2)[1]);
                lemma_ascii_boundary(b@, s + 2);
                assert(b@[e as int] == b@.subrange(e as int, e + 5)[0]);
                lemma_ascii_boundary(b@, e as int);
            }
            cut(text, s + 2, e)
        },
    }
}

/// The largest nonce to try, from a `GET /setting_bc*<max>__` request;
/// `None` where the digits are missing or do not fit in a `u64`.
pub fn try_get_max_nonce(text: &str) -> (r: Option<u64>)
    ensures
        r == max_nonce_outcome(text.spec_bytes()),
{
    let b = text.as_bytes();
    let marker = setting_marker_bytes();
    let sep = separator_bytes();
    match first_digits_match(b, &marker, &sep) {
        None => {
            assert(!exists|s: int, j: int| is_first_digits_match(b@, marker@, sep@, s, j));
            Some(1_000_000)
        },
        Some((s, j)) => {
            proof {
                lemma_first_digits_unique(b@, marker@, sep@, s as int, j as int);
            }
            parse_digits(b, s + 16, j)
        },
    }
}

/// The largest nonce to try: the digits of the first
/// `GET /setting_bc*[0-9]*__`, or 1 000 000 where nothing matches.
pub fn get_max_nonce(text: &str) -> (r: u64)
    requires
        max_nonce_outcome(text.spec_bytes()) is Some,
    ensures
        max_nonce_outcome(text.spec_bytes()) == Some(r),
{
    match try_get_max_nonce(text) {
        Some(v) => v,
        None => 0,
    }
}

/// The number of leading zero hexadecimal digits to require, from a
/// `..__<n> HTTP` request; `None` where the digits are missing or do not fit
/// in a `u64`.
pub fn try_get_leading_zeros(text: &str) -> (r: Option<u64>)
    ensures
        r == leading_zeros_outcome(text.spec_bytes()),
{
    let b = text.as_bytes();
    let sep = separator_bytes();
    let http = http_marker_bytes();
    match first_digits_match(b, &sep, &http) {
        None => {
            assert(!exists|s: int, j: int| is_first_digits_match(b@, sep@, http@, s, j));
            Some(3)
        },
        Some((s, j)) => {
            proof {
                lemma_first_digits_unique(b@, sep@, http@, s as int, j as int);
            }
            parse_digits(b, s + 2, j)
        },
    }
}

/// The number of leading zero hexadecimal digits to require: the digits of
/// the first `__[0-9]* HTTP`, or 3 where nothing matches.
pub fn get_leading_zeros(text: &str) -> (r: u64)
    requires
        leading_zeros_outcome(text.spec_bytes()) is Some,
    ensures
        leading_zeros_outcome(text.spec_bytes()) == Some(r),
{
    match try_get_leading_zeros(text) {
        Some(v) => v,
        None => 0,
    }
}

} // verus!
