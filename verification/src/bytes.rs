//! Byte-level scanning primitives shared by the parser and the router, and an
//! insertion-ordered association list used for header and parameter maps.

use vstd::prelude::*;
use vstd::string::StringSliceAdditionalSpecFns;
use vstd::utf8::*;

verus! {

/// The ASCII whitespace bytes: HT, LF, VT, FF, CR and space.
pub open spec fn is_ws_byte(b: u8) -> bool {
    b == 32 || (9 <= b && b <= 13)
}

/// A whitespace character begins at `i`: an ASCII whitespace byte, or the
/// UTF-8 encoding of one of the other characters that `char::is_whitespace`
/// accepts (U+0085, U+00A0, U+1680, U+2000 to U+200A, U+2028, U+2029,
/// U+202F, U+205F, U+3000).
pub open spec fn ws_at(s: Seq<u8>, i: int) -> bool {
    ||| (0 <= i < s.len() && is_ws_byte(s[i]))
    ||| (0 <= i && i + 2 <= s.len() && s[i] == 0xC2 && (s[i + 1] == 0x85 || s[i + 1] == 0xA0))
    ||| (0 <= i && i + 3 <= s.len() && s[i] == 0xE1 && s[i + 1] == 0x9A && s[i + 2] == 0x80)
    ||| (0 <= i && i + 3 <= s.len() && s[i] == 0xE2 && s[i + 1] == 0x80 && (0x80 <= s[i + 2]
        <= 0x8A || s[i + 2] == 0xA8 || s[i + 2] == 0xA9 || s[i + 2] == 0xAF))
    ||| (0 <= i && i + 3 <= s.len() && s[i] == 0xE2 && s[i + 1] == 0x81 && s[i + 2] == 0x9F)
    ||| (0 <= i && i + 3 <= s.len() && s[i] == 0xE3 && s[i + 1] == 0x80 && s[i + 2] == 0x80)
}

/// The byte width of the whitespace character that begins at `i`.
pub open spec fn ws_len_at(s: Seq<u8>, i: int) -> int {
    if 0 <= i < s.len() && is_ws_byte(s[i]) {
        1
    } else if 0 <= i && i + 2 <= s.len() && s[i] == 0xC2 {
        2
    } else {
        3
    }
}

/// Position of the first `\r\n\r\n` at or after `i`, if any.
pub open spec fn find_sep(s: Seq<u8>, i: int) -> Option<int>
    decreases s.len() - i,
{
    if i < 0 || i + 4 > s.len() {
        None
    } else if s[i] == 13 && s[i + 1] == 10 && s[i + 2] == 13 && s[i + 3] == 10 {
        Some(i)
    } else {
        find_sep(s, i + 1)
    }
}

/// Position of the first `\r\n` at or after `i`, if any.
pub open spec fn find_crlf(s: Seq<u8>, i: int) -> Option<int>
    decreases s.len() - i,
{
    if i < 0 || i + 2 > s.len() {
        None
    } else if s[i] == 13 && s[i + 1] == 10 {
        Some(i)
    } else {
        find_crlf(s, i + 1)
    }
}

/// Position of the first `": "` at or after `i`, if any.
pub open spec fn find_colon_sp(s: Seq<u8>, i: int) -> Option<int>
    decreases s.len() - i,
{
    if i < 0 || i + 2 > s.len() {
        None
    } else if s[i] == 58 && s[i + 1] == 32 {
        Some(i)
    } else {
        find_colon_sp(s, i + 1)
    }
}

/// First index at or after `i` where no whitespace character begins, skipping
/// whole whitespace characters; the length when only whitespace remains.
pub open spec fn skip_ws(s: Seq<u8>, i: int) -> int
    decreases s.len() - i,
{
    if 0 <= i < s.len() && ws_at(s, i) && i + ws_len_at(s, i) <= s.len() {
        skip_ws(s, i + ws_len_at(s, i))
    } else {
        i
    }
}

/// First index at or after `i` where a whitespace character begins, or the
/// length.
pub open spec fn token_end(s: Seq<u8>, i: int) -> int
    decreases s.len() - i,
{
    if 0 <= i < s.len() && !ws_at(s, i) {
        token_end(s, i + 1)
    } else {
        i
    }
}

pub proof fn lemma_find_sep_bounds(s: Seq<u8>, i: int)
    ensures
        find_sep(s, i) matches Some(j) ==> i <= j && j + 4 <= s.len(),
    decreases s.len() - i,
{
    if !(i < 0 || i + 4 > s.len()) && !(s[i] == 13 && s[i + 1] == 10 && s[i + 2] == 13 && s[i + 3]
        == 10) {
        lemma_find_sep_bounds(s, i + 1);
    }
}

pub proof fn lemma_find_crlf_bounds(s: Seq<u8>, i: int)
    ensures
        find_crlf(s, i) matches Some(j) ==> i <= j && j + 2 <= s.len(),
    decreases s.len() - i,
{
    if !(i < 0 || i + 2 > s.len()) && !(s[i] == 13 && s[i + 1] == 10) {
        lemma_find_crlf_bounds(s, i + 1);
    }
}

pub proof fn lemma_find_colon_sp_bounds(s: Seq<u8>, i: int)
    ensures
        find_colon_sp(s, i) matches Some(j) ==> i <= j && j + 2 <= s.len(),
    decreases s.len() - i,
{
    if !(i < 0 || i + 2 > s.len()) && !(s[i] == 58 && s[i + 1] == 32) {
        lemma_find_colon_sp_bounds(s, i + 1);
    }
}

pub proof fn lemma_skip_ws_bounds(s: Seq<u8>, i: int)
    requires
        0 <= i <= s.len(),
    ensures
        i <= skip_ws(s, i) <= s.len(),
    decreases s.len() - i,
{
    if i < s.len() && ws_at(s, i) && i + ws_len_at(s, i) <= s.len() {
        assert(ws_len_at(s, i) >= 1);
        lemma_skip_ws_bounds(s, i + ws_len_at(s, i));
    }
}

pub proof fn lemma_token_end_bounds(s: Seq<u8>, i: int)
    requires
        0 <= i <= s.len(),
    ensures
        i <= token_end(s, i) <= s.len(),
    decreases s.len() - i,
{
    if i < s.len() && !ws_at(s, i) {
        lemma_token_end_bounds(s, i + 1);
    }
}

pub fn exec_find_sep(v: &Vec<u8>, start: usize) -> (r: Option<usize>)
    ensures
        r matches Some(j) ==> find_sep(v@, start as int) == Some(j as int),
        r is None ==> find_sep(v@, start as int) is None,
{
    let mut i: usize = start;
    loop
        invariant
            start <= i,
            find_sep(v@, start as int) == find_sep(v@, i as int),
        decreases v@.len() + 4 - i,
    {
        if i >= v.len() || v.len() - i < 4 {
            return None;
        }
        if v[i] == 13 && v[i + 1] == 10 && v[i + 2] == 13 && v[i + 3] == 10 {
            return Some(i);
        }
        i = i + 1;
    }
}

pub fn exec_find_crlf(v: &Vec<u8>, start: usize) -> (r: Option<usize>)
    ensures
        r matches Some(j) ==> find_crlf(v@, start as int) == Some(j as int),
        r is None ==> find_crlf(v@, start as int) is None,
{
    let mut i: usize = start;
    loop
        invariant
            start <= i,
            find_crlf(v@, start as int) == find_crlf(v@, i as int),
        decreases v@.len() + 2 - i,
    {
        if i >= v.len() || v.len() - i < 2 {
            return None;
        }
        if v[i] == 13 && v[i + 1] == 10 {
            return Some(i);
        }
        i = i + 1;
    }
}

pub fn exec_find_colon_sp(v: &Vec<u8>, start: usize) -> (r: Option<usize>)
    ensures
        r matches Some(j) ==> find_colon_sp(v@, start as int) == Some(j as int),
        r is None ==> find_colon_sp(v@, start as int) is None,
{
    let mut i: usize = start;
    loop
        invariant
            start <= i,
            find_colon_sp(v@, start as int) == find_colon_sp(v@, i as int),
        decreases v@.len() + 2 - i,
    {
        if i >= v.len() || v.len() - i < 2 {
            return None;
        }
        if v[i] == 58 && v[i + 1] == 32 {
            return Some(i);
        }
        i = i + 1;
    }
}

/// Decide whether a whitespace character begins at `i`, and how wide it is.
fn ws_match(v: &Vec<u8>, i: usize) -> (r: Option<usize>)
    requires
        i < v@.len(),
    ensures
        r matches Some(l) ==> ws_at(v@, i as int) && l as int == ws_len_at(v@, i as int) && i + l
            <= v@.len(),
        r is None ==> !ws_at(v@, i as int),
{
    let n = v.len();
    let b = v[i];
    if b == 32 || (9 <= b && b <= 13) {
        return Some(1);
    }
    if b == 0xC2 && n - i >= 2 && (v[i + 1] == 0x85 || v[i + 1] == 0xA0) {
        return Some(2);
    }
    if n - i >= 3 {
        let b1 = v[i + 1];
        let b2 = v[i + 2];
        if b == 0xE1 && b1 == 0x9A && b2 == 0x80 {
            return Some(3);
        }
        if b == 0xE2 && b1 == 0x80 && ((0x80 <= b2 && b2 <= 0x8A) || b2 == 0xA8 || b2 == 0xA9 || b2
            == 0xAF) {
            return Some(3);
        }
        if b == 0xE2 && b1 == 0x81 && b2 == 0x9F {
            return Some(3);
        }
        if b == 0xE3 && b1 == 0x80 && b2 == 0x80 {
            return Some(3);
        }
    }
    proof {
        assert(!ws_at(v@, i as int));
    }
    None
}

pub fn exec_skip_ws(v: &Vec<u8>, start: usize) -> (r: usize)
    requires
        start <= v@.len(),
    ensures
        r == skip_ws(v@, start as int),
{
    let mut i: usize = start;
    loop
        invariant
            start <= i <= v@.len(),
            skip_ws(v@, start as int) == skip_ws(v@, i as int),
        decreases v@.len() - i,
    {
        if i >= v.len() {
            return i;
        }
        match ws_match(v, i) {
            Some(l) => {
                proof {
                    assert(1 <= ws_len_at(v@, i as int) <= 3);
                    assert(skip_ws(v@, i as int) == skip_ws(v@, i + ws_len_at(v@, i as int)));
                }
                i = i + l;
            },
            None => {
                return i;
            },
        }
    }
}

pub fn exec_token_end(v: &Vec<u8>, start: usize) -> (r: usize)
    requires
        start <= v@.len(),
    ensures
        r == token_end(v@, start as int),
{
    let mut i: usize = start;
    loop
        invariant
            start <= i <= v@.len(),
            token_end(v@, start as int) == token_end(v@, i as int),
        decreases v@.len() - i,
    {
        if i >= v.len() {
            return i;
        }
        match ws_match(v, i) {
            Some(_) => {
                return i;
            },
            None => {
                proof {
                    assert(token_end(v@, i as int) == token_end(v@, i + 1));
                }
                i = i + 1;
            },
        }
    }
}

/// A `\r\n\r\n` separator occurs at `q`.
pub open spec fn sep_at(s: Seq<u8>, q: int) -> bool {
    0 <= q && q + 4 <= s.len() && s[q] == 13 && s[q + 1] == 10 && s[q + 2] == 13 && s[q + 3] == 10
}

/// A `\r\n` occurs at `q`.
pub open spec fn crlf_at(s: Seq<u8>, q: int) -> bool {
    0 <= q && q + 2 <= s.len() && s[q] == 13 && s[q + 1] == 10
}

/// A `": "` occurs at `q`.
pub open spec fn colon_sp_at(s: Seq<u8>, q: int) -> bool {
    0 <= q && q + 2 <= s.len() && s[q] == 58 && s[q + 1] == 32
}

/// A scan for `\r\n\r\n` passes over a separator-free region.
pub proof fn lemma_find_sep_skip(s: Seq<u8>, a: int, b: int)
    requires
        0 <= a <= b,
        forall|q: int| a <= q < b ==> !sep_at(s, q),
    ensures
        find_sep(s, a) == find_sep(s, b),
    decreases b - a,
{
    if a < b {
        assert(!sep_at(s, a));
        lemma_find_sep_skip(s, a + 1, b);
        assert(find_sep(s, a) == find_sep(s, a + 1));
    }
}

/// A scan for `\r\n` passes over a region without one.
pub proof fn lemma_find_crlf_skip(s: Seq<u8>, a: int, b: int)
    requires
        0 <= a <= b,
        forall|q: int| a <= q < b ==> !crlf_at(s, q),
    ensures
        find_crlf(s, a) == find_crlf(s, b),
    decreases b - a,
{
    if a < b {
        assert(!crlf_at(s, a));
        lemma_find_crlf_skip(s, a + 1, b);
        assert(find_crlf(s, a) == find_crlf(s, a + 1));
    }
}

/// A scan for `": "` passes over a region without one.
pub proof fn lemma_find_colon_sp_skip(s: Seq<u8>, a: int, b: int)
    requires
        0 <= a <= b,
        forall|q: int| a <= q < b ==> !colon_sp_at(s, q),
    ensures
        find_colon_sp(s, a) == find_colon_sp(s, b),
    decreases b - a,
{
    if a < b {
        assert(!colon_sp_at(s, a));
        lemma_find_colon_sp_skip(s, a + 1, b);
        assert(find_colon_sp(s, a) == find_colon_sp(s, a + 1));
    }
}

/// No whitespace character begins inside a token embedded in a line, when
/// the token itself holds none and the byte that follows it, where one of
/// its patterns could reach, is a space or CR.
pub proof fn lemma_token_no_ws(line: Seq<u8>, t: Seq<u8>, off: int)
    requires
        forall|r: int| 0 <= r < t.len() ==> !ws_at(t, r),
        0 <= off,
        off + t.len() <= line.len(),
        forall|r: int| 0 <= r < t.len() ==> line[off + r] == t[r],
        off + t.len() < line.len() ==> (line[off + t.len()] == 32 || line[off + t.len()] == 13),
    ensures
        forall|q: int| off <= q < off + t.len() ==> !ws_at(line, q),
{
    assert forall|q: int| off <= q < off + t.len() implies !ws_at(line, q) by {
        let r = q - off;
        assert(!ws_at(t, r));
        assert(line[q] == t[r]);
        if r + 1 < t.len() {
            assert(line[q + 1] == t[r + 1]);
        } else if q + 1 < line.len() {
            assert(line[q + 1] == 32 || line[q + 1] == 13);
        }
        if r + 2 < t.len() {
            assert(line[q + 2] == t[r + 2]);
        } else if r + 1 < t.len() && q + 2 < line.len() {
            assert(line[q + 2] == 32 || line[q + 2] == 13);
        }
    }
}

/// Skipping whitespace from `a` stops exactly at `b` when everything before
/// `b` is ASCII whitespace and no whitespace character begins at `b`.
pub proof fn lemma_skip_ws_range(s: Seq<u8>, a: int, b: int)
    requires
        0 <= a <= b <= s.len(),
        forall|q: int| a <= q < b ==> is_ws_byte(s[q]),
        b == s.len() || !ws_at(s, b),
    ensures
        skip_ws(s, a) == b,
    decreases b - a,
{
    if a < b {
        assert(is_ws_byte(s[a]));
        assert(ws_at(s, a));
        assert(ws_len_at(s, a) == 1);
        lemma_skip_ws_range(s, a + 1, b);
    }
}

/// A token started at `a` ends exactly at `b` when no whitespace character
/// begins before `b` and one does at `b`.
pub proof fn lemma_token_end_range(s: Seq<u8>, a: int, b: int)
    requires
        0 <= a <= b <= s.len(),
        forall|q: int| a <= q < b ==> !ws_at(s, q),
        b == s.len() || ws_at(s, b),
    ensures
        token_end(s, a) == b,
    decreases b - a,
{
    if a < b {
        assert(!ws_at(s, a));
        lemma_token_end_range(s, a + 1, b);
    }
}

/// Position of the first occurrence of byte `b` at or after `i`, if any.
pub open spec fn find_byte(s: Seq<u8>, b: u8, i: int) -> Option<int>
    decreases s.len() - i,
{
    if i < 0 || i >= s.len() {
        None
    } else if s[i] == b {
        Some(i)
    } else {
        find_byte(s, b, i + 1)
    }
}

pub proof fn lemma_find_byte_bounds(s: Seq<u8>, b: u8, i: int)
    ensures
        find_byte(s, b, i) matches Some(j) ==> i <= j < s.len() && s[j] == b,
    decreases s.len() - i,
{
    if !(i < 0 || i >= s.len()) && s[i] != b {
        lemma_find_byte_bounds(s, b, i + 1);
    }
}

pub fn exec_find_byte(v: &Vec<u8>, b: u8, start: usize) -> (r: Option<usize>)
    ensures
        r matches Some(j) ==> find_byte(v@, b, start as int) == Some(j as int),
        r is None ==> find_byte(v@, b, start as int) is None,
{
    let mut i: usize = start;
    loop
        invariant
            start <= i,
            find_byte(v@, b, start as int) == find_byte(v@, b, i as int),
        decreases v@.len() + 1 - i,
    {
        if i >= v.len() {
            return None;
        }
        if v[i] == b {
            return Some(i);
        }
        i = i + 1;
    }
}

/// A position whose predecessor is an ASCII byte is a character boundary.
pub proof fn lemma_boundary_after_ascii(s: Seq<u8>, a: int)
    requires
        valid_utf8(s),
        0 <= a <= s.len(),
        a == 0 || s[a - 1] < 128,
    ensures
        is_char_boundary(s, a),
{
    if a == 0 || a == s.len() {
        is_char_boundary_start_end_of_seq(s);
    } else {
        is_char_boundary_iff_not_is_continuation_byte(s, a - 1);
        assert(is_char_boundary(s, a - 1));
        valid_utf8_split(s, a - 1);
        let suf = s.subrange(a - 1, s.len() as int);
        assert(valid_utf8(suf));
        assert(suf[0] == s[a - 1] && suf[0] < 128);
        assert(length_of_first_scalar(suf) == 1);
        assert(is_char_boundary(suf, 1)) by {
            reveal_with_fuel(is_char_boundary, 2);
        }
        is_char_boundary_iff_not_is_continuation_byte(suf, 1);
        assert(!is_continuation_byte(suf[1]));
        assert(suf[1] == s[a]);
        is_char_boundary_iff_not_is_continuation_byte(s, a);
    }
}

/// A slice of a valid UTF-8 sequence cut just after, or at, ASCII bytes is
/// itself valid UTF-8.
pub proof fn lemma_valid_utf8_ascii_cut(s: Seq<u8>, a: int, b: int)
    requires
        valid_utf8(s),
        0 <= a <= b <= s.len(),
        a == 0 || s[a - 1] < 128,
        b == s.len() || s[b] < 128,
    ensures
        valid_utf8(s.subrange(a, b)),
{
    lemma_boundary_after_ascii(s, a);
    valid_utf8_split(s, a);
    let suf = s.subrange(a, s.len() as int);
    if b == s.len() {
        assert(s.subrange(a, b) =~= suf);
    } else {
        assert(suf[b - a] == s[b]);
        is_char_boundary_iff_not_is_continuation_byte(suf, b - a);
        assert(is_char_boundary(suf, b - a));
        valid_utf8_split(suf, b - a);
        assert(s.subrange(a, b) =~= suf.subrange(0, b - a));
    }
}

/// A sequence of ASCII bytes is valid UTF-8.
pub proof fn lemma_ascii_valid_utf8(s: Seq<u8>)
    requires
        forall|j: int| 0 <= j < s.len() ==> s[j] < 128,
    ensures
        valid_utf8(s),
    decreases s.len(),
{
    if s.len() > 0 {
        assert(valid_first_scalar(s));
        assert(length_of_first_scalar(s) == 1);
        assert(pop_first_scalar(s) =~= s.skip(1));
        lemma_ascii_valid_utf8(s.skip(1));
    }
}

/// Copy of the byte range `[i, j)` of `v`.
pub fn copy_range(v: &Vec<u8>, i: usize, j: usize) -> (out: Vec<u8>)
    requires
        i <= j <= v@.len(),
    ensures
        out@ == v@.subrange(i as int, j as int),
{
    vstd::slice::slice_to_vec(vstd::slice::slice_subrange(v.as_slice(), i, j))
}

/// Element-wise equality of two byte slices.
pub fn bytes_eq(a: &[u8], b: &[u8]) -> (r: bool)
    ensures
        r == (a@ == b@),
{
    if a.len() != b.len() {
        proof {
            if a@ == b@ {
                assert(a@.len() == b@.len());
            }
        }
        return false;
    }
    let mut i: usize = 0;
    while i < a.len()
        invariant
            i <= a@.len(),
            a@.len() == b@.len(),
            forall|j: int| 0 <= j < i ==> a@[j] == b@[j],
        decreases a@.len() - i,
    {
        if *vstd::slice::slice_index_get(a, i) != *vstd::slice::slice_index_get(b, i) {
            return false;
        }
        i = i + 1;
    }
    proof {
        assert(a@ =~= b@);
    }
    true
}

/// Equality of two string slices, decided on their bytes.
pub fn str_eq(a: &str, b: &str) -> (r: bool)
    ensures
        r == (a@ == b@),
        r == (a.spec_bytes() == b.spec_bytes()),
{
    let r = bytes_eq(a.as_bytes(), b.as_bytes());
    proof {
        if a.spec_bytes() == b.spec_bytes() {
            lemma_encode_injective(a@, b@);
        }
    }
    r
}

/// Relies on `core::str::from_utf8`: it returns `Ok` exactly when the bytes
/// are valid UTF-8, and the returned string slice is backed by those bytes.
#[verifier::external_body]
fn bytes_as_str(v: &[u8]) -> (r: Option<&str>)
    ensures
        r is Some <==> valid_utf8(v@),
        r matches Some(s) ==> s.spec_bytes() == v@,
{
    match core::str::from_utf8(v) {
        Ok(s) => Some(s),
        Err(_) => None,
    }
}

/// Decode a byte buffer into an owned string; `None` exactly on invalid UTF-8.
pub fn bytes_to_string(v: &Vec<u8>) -> (r: Option<String>)
    ensures
        r is Some <==> valid_utf8(v@),
        r matches Some(s) ==> encode_utf8(s@) == v@,
{
    match bytes_as_str(v.as_slice()) {
        Some(s) => Some(s.to_owned()),
        None => None,
    }
}

/// Check a byte buffer for UTF-8 validity without keeping the decoded text.
pub fn check_utf8(v: &Vec<u8>) -> (r: bool)
    ensures
        r == valid_utf8(v@),
{
    bytes_as_str(v.as_slice()).is_some()
}

/// Two character sequences with the same UTF-8 encoding are the same.
pub proof fn lemma_encode_injective(a: Seq<char>, b: Seq<char>)
    requires
        encode_utf8(a) == encode_utf8(b),
    ensures
        a == b,
{
    encode_utf8_decode_utf8(a);
    encode_utf8_decode_utf8(b);
}

/// Insert into an association list: replace the value at the first entry with
/// this key, or append a new entry. Later inserts of a key win.
pub open spec fn assoc_insert<K, V>(s: Seq<(K, V)>, k: K, v: V) -> Seq<(K, V)>
    decreases s.len(),
{
    if s.len() == 0 {
        seq![(k, v)]
    } else if s[0].0 == k {
        seq![(k, v)] + s.skip(1)
    } else {
        seq![s[0]] + assoc_insert(s.skip(1), k, v)
    }
}

/// Value at the first entry with this key, if any.
pub open spec fn assoc_lookup<K, V>(s: Seq<(K, V)>, k: K) -> Option<V>
    decreases s.len(),
{
    if s.len() == 0 {
        None
    } else if s[0].0 == k {
        Some(s[0].1)
    } else {
        assoc_lookup(s.skip(1), k)
    }
}

pub proof fn lemma_assoc_insert_at<K, V>(s: Seq<(K, V)>, k: K, v: V, i: int)
    requires
        0 <= i < s.len(),
        s[i].0 == k,
        forall|j: int| 0 <= j < i ==> s[j].0 != k,
    ensures
        assoc_insert(s, k, v) =~~= s.update(i, (k, v)),
    decreases i,
{
    if i == 0 {
        assert(assoc_insert(s, k, v) =~~= s.update(0, (k, v)));
    } else {
        lemma_assoc_insert_at(s.skip(1), k, v, i - 1);
        assert(assoc_insert(s, k, v) =~~= s.update(i, (k, v)));
    }
}

pub proof fn lemma_assoc_insert_absent<K, V>(s: Seq<(K, V)>, k: K, v: V)
    requires
        forall|j: int| 0 <= j < s.len() ==> s[j].0 != k,
    ensures
        assoc_insert(s, k, v) =~~= s.push((k, v)),
    decreases s.len(),
{
    if s.len() > 0 {
        lemma_assoc_insert_absent(s.skip(1), k, v);
        assert(assoc_insert(s, k, v) =~~= s.push((k, v)));
    }
}

pub proof fn lemma_assoc_lookup_at<K, V>(s: Seq<(K, V)>, k: K, i: int)
    requires
        0 <= i < s.len(),
        s[i].0 == k,
        forall|j: int| 0 <= j < i ==> s[j].0 != k,
    ensures
        assoc_lookup(s, k) == Some(s[i].1),
    decreases i,
{
    if i > 0 {
        lemma_assoc_lookup_at(s.skip(1), k, i - 1);
    }
}

pub proof fn lemma_assoc_lookup_absent<K, V>(s: Seq<(K, V)>, k: K)
    requires
        forall|j: int| 0 <= j < s.len() ==> s[j].0 != k,
    ensures
        assoc_lookup(s, k) is None,
    decreases s.len(),
{
    if s.len() > 0 {
        lemma_assoc_lookup_absent(s.skip(1), k);
    }
}

} // verus!
