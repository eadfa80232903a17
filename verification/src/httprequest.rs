//! Parsing of a raw request byte stream into a structured request: method,
//! resource path, protocol version, headers and body.

use vstd::prelude::*;
use vstd::string::StringSliceAdditionalSpecFns;
use vstd::utf8::*;
use crate::bytes::{
    assoc_insert, bytes_to_string, check_utf8, colon_sp_at, copy_range, crlf_at, exec_find_colon_sp,
    exec_find_crlf, exec_find_sep, exec_skip_ws, exec_token_end, find_colon_sp, find_crlf, find_sep,
    ws_at, lemma_ascii_valid_utf8, lemma_assoc_insert_absent,
    lemma_find_colon_sp_bounds, lemma_token_no_ws,
    lemma_find_colon_sp_skip, lemma_find_crlf_bounds, lemma_find_crlf_skip, lemma_find_sep_bounds,
    lemma_find_sep_skip, lemma_skip_ws_bounds, lemma_skip_ws_range, lemma_token_end_bounds,
    lemma_token_end_range, sep_at, skip_ws, token_end,
};
use crate::httpresponse::spec_hdr_lines;
use crate::maps::StrMap;

verus! {

#[derive(Debug, PartialEq, Eq, Structural, Clone, Copy)]
pub enum Method {
    Get,
    Post,
    Uninitialized,
}

#[derive(Debug, PartialEq, Eq, Structural, Clone, Copy)]
pub enum Version {
    V1_1,
    Uninitialized,
}

/// The method named by a token: the bytes of `GET` or `POST`, else unrecognized.
pub open spec fn spec_method_bytes(t: Seq<u8>) -> Method {
    if t == seq![71u8, 69u8, 84u8] {
        Method::Get
    } else if t == seq![80u8, 79u8, 83u8, 84u8] {
        Method::Post
    } else {
        Method::Uninitialized
    }
}

/// The version named by a token: the bytes of `HTTP/1.1`, else unrecognized.
pub open spec fn spec_version_bytes(t: Seq<u8>) -> Version {
    if t == seq![72u8, 84u8, 84u8, 80u8, 47u8, 49u8, 46u8, 49u8] {
        Version::V1_1
    } else {
        Version::Uninitialized
    }
}

/// Decide the method from token bytes.
pub fn method_from_bytes(t: &Vec<u8>) -> (m: Method)
    ensures
        m == spec_method_bytes(t@),
{
    if t.len() == 3 && t[0] == 71 && t[1] == 69 && t[2] == 84 {
        proof {
            assert(t@ =~= seq![71u8, 69u8, 84u8]);
        }
        Method::Get
    } else if t.len() == 4 && t[0] == 80 && t[1] == 79 && t[2] == 83 && t[3] == 84 {
        proof {
            assert(t@ =~= seq![80u8, 79u8, 83u8, 84u8]);
        }
        Method::Post
    } else {
        Method::Uninitialized
    }
}

/// Decide the version from token bytes.
pub fn version_from_bytes(t: &Vec<u8>) -> (v: Version)
    ensures
        v == spec_version_bytes(t@),
{
    if t.len() == 8 && t[0] == 72 && t[1] == 84 && t[2] == 84 && t[3] == 80 && t[4] == 47 && t[5]
        == 49 && t[6] == 46 && t[7] == 49 {
        proof {
            assert(t@ =~= seq![72u8, 84u8, 84u8, 80u8, 47u8, 49u8, 46u8, 49u8]);
        }
        Version::V1_1
    } else {
        Version::Uninitialized
    }
}

impl From<&str> for Method {
    fn from(s: &str) -> (r: Method) {
        let v = vstd::slice::slice_to_vec(s.as_bytes());
        method_from_bytes(&v)
    }
}

impl vstd::std_specs::convert::FromSpecImpl<&str> for Method {
    open spec fn obeys_from_spec() -> bool {
        true
    }

    open spec fn from_spec(s: &str) -> Method {
        spec_method_bytes(s.spec_bytes())
    }
}

impl From<&str> for Version {
    fn from(s: &str) -> (r: Version) {
        let v = vstd::slice::slice_to_vec(s.as_bytes());
        version_from_bytes(&v)
    }
}

impl vstd::std_specs::convert::FromSpecImpl<&str> for Version {
    open spec fn obeys_from_spec() -> bool {
        true
    }

    open spec fn from_spec(s: &str) -> Version {
        spec_version_bytes(s.spec_bytes())
    }
}

impl Method {
    /// The request-line text of the method, `Unknown` when unrecognized.
    pub fn as_str(&self) -> (r: &'static str)
        ensures
            self is Get ==> r@ == "GET"@,
            self is Post ==> r@ == "POST"@,
            self is Uninitialized ==> r@ == "Unknown"@,
    {
        match self {
            Method::Get => "GET",
            Method::Post => "POST",
            Method::Uninitialized => "Unknown",
        }
    }
}

/// The header bindings gathered from the lines of the header section that
/// start at `i`, folded over `acc`: each line up to the next `\r\n` that is
/// non-empty and holds a `": "` separator binds name to value, the last
/// binding of a name winning; any other line ends the scan.
pub open spec fn spec_headers(
    hdr: Seq<u8>,
    i: int,
    acc: Seq<(Seq<u8>, Seq<u8>)>,
) -> Seq<(Seq<u8>, Seq<u8>)>
    decreases hdr.len() - i,
{
    if i < 0 || i >= hdr.len() {
        acc
    } else {
        let le = match find_crlf(hdr, i) {
            Some(e) => e,
            None => hdr.len() as int,
        };
        // clamped so that the scan always advances and stays in range
        let next = if le + 2 > hdr.len() {
            hdr.len() as int
        } else if le + 2 <= i {
            i + 1
        } else {
            le + 2
        };
        let line = hdr.subrange(i, le);
        if line.len() == 0 {
            acc
        } else {
            match find_colon_sp(line, 0) {
                None => acc,
                Some(p) => {
                    let key = line.subrange(0, p);
                    let value = line.subrange(p + 2, line.len() as int);
                    if !valid_utf8(key) || !valid_utf8(value) {
                        acc
                    } else {
                        spec_headers(hdr, next, assoc_insert(acc, key, value))
                    }
                },
            }
        }
    }
}

/// The abstract content of a parsed request.
pub ghost struct ReqModel {
    pub method: Method,
    pub version: Version,
    pub resource: Seq<u8>,
    pub headers: Seq<(Seq<u8>, Seq<u8>)>,
    pub body: Seq<u8>,
}

/// What parsing a raw byte buffer yields: `None` exactly when no `\r\n\r\n`
/// boundary exists, the header section is not valid UTF-8, or the request
/// line holds fewer than three whitespace-separated tokens.
pub open spec fn spec_parse(raw: Seq<u8>) -> Option<ReqModel> {
    match find_sep(raw, 0) {
        None => None,
        Some(b) => {
            let hdr = raw.subrange(0, b + 4);
            if !valid_utf8(hdr) {
                None
            } else {
                let le = match find_crlf(hdr, 0) {
                    Some(e) => e,
                    None => hdr.len() as int,
                };
                let line = hdr.subrange(0, le);
                let t0s = skip_ws(line, 0);
                let t0e = token_end(line, t0s);
                let t1s = skip_ws(line, t0e);
                let t1e = token_end(line, t1s);
                let t2s = skip_ws(line, t1e);
                let t2e = token_end(line, t2s);
                if t0s >= line.len() || t1s >= line.len() || t2s >= line.len() {
                    None
                } else if !valid_utf8(line.subrange(t1s, t1e)) {
                    None
                } else {
                    Some(
                        ReqModel {
                            method: spec_method_bytes(line.subrange(t0s, t0e)),
                            version: spec_version_bytes(line.subrange(t2s, t2e)),
                            resource: line.subrange(t1s, t1e),
                            headers: spec_headers(hdr, le + 2, Seq::empty()),
                            body: raw.subrange(b + 4, raw.len() as int),
                        },
                    )
                }
            }
        },
    }
}

/// Parsing is total over malformed input: any byte buffer without the
/// `\r\n\r\n` boundary parses to nothing, never to a partial request.
pub proof fn lemma_no_separator_means_malformed(raw: Seq<u8>)
    requires
        find_sep(raw, 0) is None,
    ensures
        spec_parse(raw) is None,
{
}

/// A well-formed request-line token: non-empty, valid UTF-8, and no
/// whitespace character begins anywhere in it.
pub open spec fn wf_token(t: Seq<u8>) -> bool {
    &&& t.len() > 0
    &&& valid_utf8(t)
    &&& forall|i: int| 0 <= i < t.len() ==> !ws_at(t, i)
}

/// A well-formed header binding: name and value are valid UTF-8, the name
/// holds neither a `\r\n` nor a `": "` pair, and the value no `\r\n` pair.
pub open spec fn wf_header_pair(k: Seq<u8>, v: Seq<u8>) -> bool {
    &&& valid_utf8(k)
    &&& valid_utf8(v)
    &&& forall|i: int| !crlf_at(k, i)
    &&& forall|i: int| !colon_sp_at(k, i)
    &&& forall|i: int| !crlf_at(v, i)
}

pub open spec fn wf_headers(h: Seq<(Seq<u8>, Seq<u8>)>, j: int) -> bool {
    forall|i: int| j <= i < h.len() ==> wf_header_pair(#[trigger] h[i].0, h[i].1)
}

pub open spec fn distinct_keys(h: Seq<(Seq<u8>, Seq<u8>)>) -> bool {
    forall|i: int, j: int| 0 <= i < j < h.len() ==> h[i].0 != h[j].0
}

/// The wire form of a request assembled from its parts: the request line,
/// the header lines, a blank line, the body.
pub open spec fn spec_request_bytes(
    mt: Seq<u8>,
    pt: Seq<u8>,
    vt: Seq<u8>,
    hdrs: Seq<(Seq<u8>, Seq<u8>)>,
    body: Seq<u8>,
) -> Seq<u8> {
    mt + seq![32u8] + pt + seq![32u8] + vt + seq![13u8, 10u8] + spec_hdr_lines(hdrs, 0) + seq![
        13u8,
        10u8,
    ] + body
}

/// Folding the bindings from entry `j` on into an accumulated header list.
pub open spec fn spec_fold_inserts(
    acc: Seq<(Seq<u8>, Seq<u8>)>,
    hdrs: Seq<(Seq<u8>, Seq<u8>)>,
    j: int,
) -> Seq<(Seq<u8>, Seq<u8>)>
    decreases hdrs.len() - j,
{
    if j < 0 || j >= hdrs.len() {
        acc
    } else {
        spec_fold_inserts(assoc_insert(acc, hdrs[j].0, hdrs[j].1), hdrs, j + 1)
    }
}

proof fn lemma_fold_inserts_distinct(
    acc: Seq<(Seq<u8>, Seq<u8>)>,
    hdrs: Seq<(Seq<u8>, Seq<u8>)>,
    j: int,
)
    requires
        0 <= j <= hdrs.len(),
        distinct_keys(hdrs),
        forall|l: int, i: int|
            0 <= l < acc.len() && j <= i < hdrs.len() ==> #[trigger] acc[l].0 != #[trigger] hdrs[i].0,
    ensures
        spec_fold_inserts(acc, hdrs, j) == acc + hdrs.subrange(j, hdrs.len() as int),
    decreases hdrs.len() - j,
{
    if j < hdrs.len() {
        let k = hdrs[j].0;
        let v = hdrs[j].1;
        assert(forall|l: int| 0 <= l < acc.len() ==> acc[l].0 != k);
        lemma_assoc_insert_absent(acc, k, v);
        let acc2 = acc.push((k, v));
        assert(assoc_insert(acc, k, v) =~~= acc2);
        assert forall|l: int, i: int|
            0 <= l < acc2.len() && j + 1 <= i < hdrs.len() implies #[trigger] acc2[l].0
            != #[trigger] hdrs[i].0 by {
            if l == acc.len() {
                assert(acc2[l].0 == hdrs[j].0);
            }
        }
        lemma_fold_inserts_distinct(acc2, hdrs, j + 1);
        assert(acc2 + hdrs.subrange(j + 1, hdrs.len() as int) =~~= acc + hdrs.subrange(
            j,
            hdrs.len() as int,
        ));
    } else {
        assert(acc + hdrs.subrange(j, j) =~~= acc);
    }
}

proof fn lemma_hdr_lines_valid(hdrs: Seq<(Seq<u8>, Seq<u8>)>, j: int)
    requires
        0 <= j <= hdrs.len(),
        wf_headers(hdrs, j),
    ensures
        valid_utf8(spec_hdr_lines(hdrs, j)),
    decreases hdrs.len() - j,
{
    if j >= hdrs.len() {
        lemma_ascii_valid_utf8(Seq::<u8>::empty());
        assert(spec_hdr_lines(hdrs, j) =~= Seq::<u8>::empty());
    } else {
        let k = hdrs[j].0;
        let v = hdrs[j].1;
        lemma_hdr_lines_valid(hdrs, j + 1);
        lemma_ascii_valid_utf8(seq![58u8, 32u8]);
        lemma_ascii_valid_utf8(seq![13u8, 10u8]);
        valid_utf8_concat(seq![13u8, 10u8], spec_hdr_lines(hdrs, j + 1));
        valid_utf8_concat(v, seq![13u8, 10u8] + spec_hdr_lines(hdrs, j + 1));
        valid_utf8_concat(seq![58u8, 32u8], v + (seq![13u8, 10u8] + spec_hdr_lines(hdrs, j + 1)));
        valid_utf8_concat(k, seq![58u8, 32u8] + (v + (seq![13u8, 10u8] + spec_hdr_lines(hdrs, j + 1))));
        assert(k + (seq![58u8, 32u8] + (v + (seq![13u8, 10u8] + spec_hdr_lines(hdrs, j + 1))))
            =~= spec_hdr_lines(hdrs, j));
    }
}

/// Scanning the header lines of the section that starts at `i` folds exactly
/// the listed bindings over the accumulator.
proof fn lemma_parse_header_section(
    s: Seq<u8>,
    i: int,
    hdrs: Seq<(Seq<u8>, Seq<u8>)>,
    j: int,
    acc: Seq<(Seq<u8>, Seq<u8>)>,
)
    requires
        0 <= i <= s.len(),
        0 <= j <= hdrs.len(),
        s.subrange(i, s.len() as int) == spec_hdr_lines(hdrs, j) + seq![13u8, 10u8],
        wf_headers(hdrs, j),
    ensures
        spec_headers(s, i, acc) == spec_fold_inserts(acc, hdrs, j),
    decreases hdrs.len() - j,
{
    let suffix = s.subrange(i, s.len() as int);
    assert(suffix.len() == s.len() - i);
    if j >= hdrs.len() {
        assert(spec_hdr_lines(hdrs, j) =~= Seq::<u8>::empty());
        assert(suffix.len() == 2);
        assert(s[i] == 13 && s[i + 1] == 10) by {
            assert(suffix[0] == s[i] && suffix[1] == s[i + 1]);
        }
        assert(find_crlf(s, i) == Some(i));
        assert(s.subrange(i, i) =~= Seq::<u8>::empty());
        assert(spec_headers(s, i, acc) == acc);
    } else {
        let k = hdrs[j].0;
        let v = hdrs[j].1;
        let lk = k.len() as int;
        let lv = v.len() as int;
        let c = i + lk + 2 + lv;
        let i2 = c + 2;
        assert(spec_hdr_lines(hdrs, j) == k + seq![58u8, 32u8] + v + seq![13u8, 10u8]
            + spec_hdr_lines(hdrs, j + 1));
        assert(wf_header_pair(k, v));
        assert forall|q: int| i <= q < c implies !crlf_at(s, q) by {
            let r = q - i;
            assert(s[q] == suffix[r]);
            assert(s[q + 1] == suffix[r + 1]);
            if r + 1 < lk {
                assert(suffix[r] == k[r] && suffix[r + 1] == k[r + 1]);
                assert(!crlf_at(k, r));
            } else if r + 1 == lk {
                assert(suffix[r + 1] == 58);
            } else if r == lk {
                assert(suffix[r] == 58);
            } else if r == lk + 1 {
                assert(suffix[r] == 32);
            } else if r + 1 < lk + 2 + lv {
                assert(suffix[r] == v[r - lk - 2] && suffix[r + 1] == v[r - lk - 1]);
                assert(!crlf_at(v, r - lk - 2));
            } else {
                assert(suffix[r + 1] == 13);
            }
        }
        assert(s[c] == 13 && s[c + 1] == 10) by {
            assert(suffix[c - i] == s[c] && suffix[c + 1 - i] == s[c + 1]);
        }
        lemma_find_crlf_skip(s, i, c);
        assert(find_crlf(s, c) == Some(c));
        let line = s.subrange(i, c);
        assert(line =~= k + seq![58u8, 32u8] + v);
        assert forall|q: int| 0 <= q < lk implies !colon_sp_at(line, q) by {
            assert(line[q] == k[q]);
            if q + 1 < lk {
                assert(line[q + 1] == k[q + 1]);
                assert(!colon_sp_at(k, q));
            } else {
                assert(line[q + 1] == 58);
            }
        }
        lemma_find_colon_sp_skip(line, 0, lk);
        assert(line[lk] == 58 && line[lk + 1] == 32);
        assert(find_colon_sp(line, lk) == Some(lk));
        assert(line.subrange(0, lk) =~= k);
        assert(line.subrange(lk + 2, line.len() as int) =~= v);
        assert(s.subrange(i2, s.len() as int) =~= spec_hdr_lines(hdrs, j + 1) + seq![13u8, 10u8])
            by {
            assert forall|r: int| 0 <= r < s.len() - i2 implies s.subrange(i2, s.len() as int)[r]
                == (spec_hdr_lines(hdrs, j + 1) + seq![13u8, 10u8])[r] by {
                assert(s.subrange(i2, s.len() as int)[r] == suffix[r + i2 - i]);
            }
        }
        lemma_parse_header_section(s, i2, hdrs, j + 1, assoc_insert(acc, k, v));
        assert(spec_headers(s, i, acc) == spec_headers(s, i2, assoc_insert(acc, k, v)));
    }
}

/// The first `\r\n\r\n` of a buffer whose suffix from `i` is a block of
/// well-formed header lines, a blank line, and arbitrary tail bytes, given a
/// `\r\n` just before `i`, sits at the end of the block.
proof fn lemma_find_sep_structured(
    s: Seq<u8>,
    i: int,
    hdrs: Seq<(Seq<u8>, Seq<u8>)>,
    j: int,
    tail: Seq<u8>,
)
    requires
        2 <= i <= s.len(),
        0 <= j <= hdrs.len(),
        s[i - 2] == 13 && s[i - 1] == 10,
        s.subrange(i, s.len() as int) == spec_hdr_lines(hdrs, j) + seq![13u8, 10u8] + tail,
        wf_headers(hdrs, j),
    ensures
        find_sep(s, i - 2) == Some(i + spec_hdr_lines(hdrs, j).len() - 2),
    decreases hdrs.len() - j,
{
    let suffix = s.subrange(i, s.len() as int);
    assert(suffix.len() == s.len() - i);
    if j >= hdrs.len() {
        assert(spec_hdr_lines(hdrs, j) =~= Seq::<u8>::empty());
        assert(s[i] == 13 && s[i + 1] == 10) by {
            assert(suffix[0] == s[i] && suffix[1] == s[i + 1]);
        }
        assert(sep_at(s, i - 2));
        assert(find_sep(s, i - 2) == Some(i - 2));
    } else {
        let k = hdrs[j].0;
        let v = hdrs[j].1;
        let lk = k.len() as int;
        let lv = v.len() as int;
        let c = i + lk + 2 + lv;
        let i2 = c + 2;
        assert(spec_hdr_lines(hdrs, j) == k + seq![58u8, 32u8] + v + seq![13u8, 10u8]
            + spec_hdr_lines(hdrs, j + 1));
        assert(wf_header_pair(k, v));
        assert forall|q: int| i <= q < c implies !crlf_at(s, q) by {
            let r = q - i;
            assert(s[q] == suffix[r]);
            assert(s[q + 1] == suffix[r + 1]);
            if r + 1 < lk {
                assert(suffix[r] == k[r] && suffix[r + 1] == k[r + 1]);
                assert(!crlf_at(k, r));
            } else if r + 1 == lk {
                assert(suffix[r + 1] == 58);
            } else if r == lk {
                assert(suffix[r] == 58);
            } else if r == lk + 1 {
                assert(suffix[r] == 32);
            } else if r + 1 < lk + 2 + lv {
                assert(suffix[r] == v[r - lk - 2] && suffix[r + 1] == v[r - lk - 1]);
                assert(!crlf_at(v, r - lk - 2));
            } else {
                assert(suffix[r + 1] == 13);
            }
        }
        assert(s[c] == 13 && s[c + 1] == 10) by {
            assert(suffix[c - i] == s[c] && suffix[c + 1 - i] == s[c + 1]);
        }
        assert forall|q: int| i - 2 <= q < c implies !sep_at(s, q) by {
            if q == i - 2 {
                // a separator here would need a second CRLF right at the
                // start of the line
                assert(!crlf_at(s, i));
            } else if q == i - 1 {
                assert(s[q] == 10);
            } else {
                assert(!crlf_at(s, q));
            }
        }
        lemma_find_sep_skip(s, i - 2, c);
        assert(s.subrange(i2, s.len() as int) =~= spec_hdr_lines(hdrs, j + 1) + seq![13u8, 10u8]
            + tail) by {
            assert forall|r: int| 0 <= r < s.len() - i2 implies s.subrange(i2, s.len() as int)[r]
                == (spec_hdr_lines(hdrs, j + 1) + seq![13u8, 10u8] + tail)[r] by {
                assert(s.subrange(i2, s.len() as int)[r] == suffix[r + i2 - i]);
            }
        }
        lemma_find_sep_structured(s, i2, hdrs, j + 1, tail);
    }
}

/// Round trip: parsing the wire form assembled from well-formed parts gives
/// back the method, path, version and headers exactly, and the body bytes
/// verbatim, binary content included.
#[verifier::rlimit(100)]
#[verifier::spinoff_prover]
pub proof fn lemma_parse_round_trip(
    mt: Seq<u8>,
    pt: Seq<u8>,
    vt: Seq<u8>,
    hdrs: Seq<(Seq<u8>, Seq<u8>)>,
    body: Seq<u8>,
)
    requires
        wf_token(mt),
        wf_token(pt),
        wf_token(vt),
        wf_headers(hdrs, 0),
        distinct_keys(hdrs),
    ensures
        ({
            let raw = spec_request_bytes(mt, pt, vt, hdrs, body);
            &&& spec_parse(raw) matches Some(m)
            &&& m.method == spec_method_bytes(mt)
            &&& m.resource == pt
            &&& m.version == spec_version_bytes(vt)
            &&& m.headers == hdrs
            &&& m.body == body
        }),
{
    let raw = spec_request_bytes(mt, pt, vt, hdrs, body);
    let line0 = mt + seq![32u8] + pt + seq![32u8] + vt;
    let m0 = mt.len() as int;
    let p0 = pt.len() as int;
    let v0 = vt.len() as int;
    let ll = line0.len() as int;
    let lstart = ll + 2;
    let bl = spec_hdr_lines(hdrs, 0).len() as int;
    assert(raw =~= line0 + seq![13u8, 10u8] + spec_hdr_lines(hdrs, 0) + seq![13u8, 10u8] + body);
    assert forall|q: int| 0 <= q < ll implies raw[q] == line0[q] && raw[q] != 13 by {
        if q < m0 {
            assert(line0[q] == mt[q]);
            assert(!ws_at(mt, q));
        } else if q == m0 {
            assert(line0[q] == 32);
        } else if q < m0 + 1 + p0 {
            assert(line0[q] == pt[q - m0 - 1]);
            assert(!ws_at(pt, q - m0 - 1));
        } else if q == m0 + 1 + p0 {
            assert(line0[q] == 32);
        } else {
            assert(line0[q] == vt[q - m0 - p0 - 2]);
            assert(!ws_at(vt, q - m0 - p0 - 2));
        }
    }
    assert(raw[ll] == 13 && raw[ll + 1] == 10);
    assert forall|q: int| 0 <= q < ll implies !sep_at(raw, q) by {
        assert(raw[q] != 13);
    }
    lemma_find_sep_skip(raw, 0, ll);
    assert(raw.subrange(lstart, raw.len() as int) =~= spec_hdr_lines(hdrs, 0) + seq![13u8, 10u8]
        + body);
    lemma_find_sep_structured(raw, lstart, hdrs, 0, body);
    let b = lstart + bl - 2;
    assert(find_sep(raw, 0) == Some(b));

    let hdr = raw.subrange(0, b + 4);
    assert(hdr =~= line0 + seq![13u8, 10u8] + (spec_hdr_lines(hdrs, 0) + seq![13u8, 10u8]));
    lemma_hdr_lines_valid(hdrs, 0);
    lemma_ascii_valid_utf8(seq![13u8, 10u8]);
    lemma_ascii_valid_utf8(seq![32u8]);
    valid_utf8_concat(spec_hdr_lines(hdrs, 0), seq![13u8, 10u8]);
    valid_utf8_concat(vt, seq![13u8, 10u8]);
    valid_utf8_concat(seq![32u8], vt + seq![13u8, 10u8]);
    valid_utf8_concat(pt, seq![32u8] + (vt + seq![13u8, 10u8]));
    valid_utf8_concat(seq![32u8], pt + (seq![32u8] + (vt + seq![13u8, 10u8])));
    valid_utf8_concat(mt, seq![32u8] + (pt + (seq![32u8] + (vt + seq![13u8, 10u8]))));
    valid_utf8_concat(
        mt + (seq![32u8] + (pt + (seq![32u8] + (vt + seq![13u8, 10u8])))),
        spec_hdr_lines(hdrs, 0) + seq![13u8, 10u8],
    );
    assert(hdr =~= mt + (seq![32u8] + (pt + (seq![32u8] + (vt + seq![13u8, 10u8])))) + (
    spec_hdr_lines(hdrs, 0) + seq![13u8, 10u8]));
    assert(valid_utf8(hdr));

    assert(hdr.len() == b + 4);
    assert forall|q: int| 0 <= q < ll implies hdr[q] == raw[q] by {}
    assert(hdr[ll] == 13 && hdr[ll + 1] == 10);
    assert forall|q: int| 0 <= q < ll implies !crlf_at(hdr, q) by {
        assert(hdr[q] != 13);
    }
    lemma_find_crlf_skip(hdr, 0, ll);
    assert(find_crlf(hdr, ll) == Some(ll));
    assert(find_crlf(hdr, 0) == Some(ll));

    let line = hdr.subrange(0, ll);
    assert(line =~= line0);
    assert forall|r: int| 0 <= r < m0 implies line[r] == mt[r] by {
        assert(line0[r] == mt[r]);
    }
    assert forall|r: int| 0 <= r < p0 implies line[m0 + 1 + r] == pt[r] by {
        assert(line0[m0 + 1 + r] == pt[r]);
    }
    assert forall|r: int| 0 <= r < v0 implies line[m0 + 2 + p0 + r] == vt[r] by {
        assert(line0[m0 + 2 + p0 + r] == vt[r]);
    }
    assert(line[m0] == 32 && line[m0 + 1 + p0] == 32);
    lemma_token_no_ws(line, mt, 0);
    lemma_token_no_ws(line, pt, m0 + 1);
    lemma_token_no_ws(line, vt, m0 + 2 + p0);
    assert(!ws_at(line, 0));
    assert(ws_at(line, m0) && ws_at(line, m0 + 1 + p0));
    lemma_skip_ws_range(line, 0, 0);
    lemma_token_end_range(line, 0, m0);
    lemma_skip_ws_range(line, m0, m0 + 1);
    lemma_token_end_range(line, m0 + 1, m0 + 1 + p0);
    lemma_skip_ws_range(line, m0 + 1 + p0, m0 + 2 + p0);
    lemma_token_end_range(line, m0 + 2 + p0, ll);
    assert(line.subrange(0, m0) =~= mt);
    assert(line.subrange(m0 + 1, m0 + 1 + p0) =~= pt);
    assert(line.subrange(m0 + 2 + p0, ll) =~= vt);

    assert(hdr.subrange(lstart, hdr.len() as int) =~= spec_hdr_lines(hdrs, 0) + seq![13u8, 10u8])
        by {
        assert forall|r: int| 0 <= r < hdr.len() - lstart implies hdr.subrange(
            lstart,
            hdr.len() as int,
        )[r] == (spec_hdr_lines(hdrs, 0) + seq![13u8, 10u8])[r] by {
            assert(hdr.subrange(lstart, hdr.len() as int)[r] == hdr[lstart + r]);
        }
    }
    lemma_parse_header_section(hdr, lstart, hdrs, 0, Seq::empty());
    assert forall|l: int, i: int|
        0 <= l < Seq::<(Seq<u8>, Seq<u8>)>::empty().len() && 0 <= i < hdrs.len() implies (
    #[trigger] Seq::<(Seq<u8>, Seq<u8>)>::empty()[l].0) != (#[trigger] hdrs[i].0) by {}
    lemma_fold_inserts_distinct(Seq::empty(), hdrs, 0);
    assert(Seq::<(Seq<u8>, Seq<u8>)>::empty() + hdrs.subrange(0, hdrs.len() as int) =~~= hdrs);

    assert(raw.subrange(b + 4, raw.len() as int) =~= body);
}

pub struct HttpRequest {
    pub version: Version,
    pub method: Method,
    pub resource: String,
    pub header: StrMap,
    pub body: Vec<u8>,
    pub path_params: StrMap,
}

impl HttpRequest {
    /// The request carries exactly the content of the model, with no path
    /// parameters attached yet.
    pub open spec fn models(&self, m: ReqModel) -> bool {
        &&& self.method == m.method
        &&& self.version == m.version
        &&& encode_utf8(self.resource@) == m.resource
        &&& self.header@ == m.headers
        &&& self.body@ == m.body
        &&& self.path_params@ == Seq::<(Seq<u8>, Seq<u8>)>::empty()
    }

    /// Attach the path parameters that the router extracted; everything else
    /// about the request is unchanged.
    pub fn with_path_params(&mut self, params: StrMap)
        ensures
            final(self).method == old(self).method,
            final(self).version == old(self).version,
            final(self).resource == old(self).resource,
            final(self).header == old(self).header,
            final(self).body == old(self).body,
            final(self).path_params@ == params@,
    {
        self.path_params = params;
    }

    /// Parse a raw request buffer; total over malformed input.
    pub fn parse(raw_request: Vec<u8>) -> (r: Option<HttpRequest>)
        ensures
            r is Some <==> spec_parse(raw_request@) is Some,
            r matches Some(req) ==> spec_parse(raw_request@) matches Some(m) && req.models(m),
    {
        let b = match exec_find_sep(&raw_request, 0) {
            None => {
                return None;
            },
            Some(b) => b,
        };
        proof {
            lemma_find_sep_bounds(raw_request@, 0);
        }
        let hdr = copy_range(&raw_request, 0, b + 4);
        if !check_utf8(&hdr) {
            return None;
        }
        let le = match exec_find_crlf(&hdr, 0) {
            Some(e) => {
                proof {
                    lemma_find_crlf_bounds(hdr@, 0);
                }
                e
            },
            None => hdr.len(),
        };
        let line = copy_range(&hdr, 0, le);
        let t0s = exec_skip_ws(&line, 0);
        proof {
            lemma_skip_ws_bounds(line@, 0);
        }
        let t0e = exec_token_end(&line, t0s);
        proof {
            lemma_token_end_bounds(line@, t0s as int);
        }
        let t1s = exec_skip_ws(&line, t0e);
        proof {
            lemma_skip_ws_bounds(line@, t0e as int);
        }
        let t1e = exec_token_end(&line, t1s);
        proof {
            lemma_token_end_bounds(line@, t1s as int);
        }
        let t2s = exec_skip_ws(&line, t1e);
        proof {
            lemma_skip_ws_bounds(line@, t1e as int);
        }
        let t2e = exec_token_end(&line, t2s);
        proof {
            lemma_token_end_bounds(line@, t2s as int);
        }
        if t0s >= line.len() || t1s >= line.len() || t2s >= line.len() {
            return None;
        }
        let method_tok = copy_range(&line, t0s, t0e);
        let method = method_from_bytes(&method_tok);
        let version_tok = copy_range(&line, t2s, t2e);
        let version = version_from_bytes(&version_tok);
        let resource_tok = copy_range(&line, t1s, t1e);
        let resource = match bytes_to_string(&resource_tok) {
            None => {
                return None;
            },
            Some(s) => s,
        };

        let mut headers = StrMap::new();
        let start: usize = if le > hdr.len() - 2 {
            hdr.len()
        } else {
            le + 2
        };
        let mut i: usize = start;
        loop
            invariant
                i <= hdr@.len(),
                spec_headers(hdr@, start as int, Seq::empty()) == spec_headers(
                    hdr@,
                    i as int,
                    headers@,
                ),
            ensures
                spec_headers(hdr@, start as int, Seq::empty()) == headers@,
            decreases hdr@.len() - i,
        {
            if i >= hdr.len() {
                break ;
            }
            let ghost acc0 = headers@;
            let (end, next) = match exec_find_crlf(&hdr, i) {
                Some(e) => {
                    proof {
                        lemma_find_crlf_bounds(hdr@, i as int);
                    }
                    (e, e + 2)
                },
                None => (hdr.len(), hdr.len()),
            };
            let hline = copy_range(&hdr, i, end);
            if hline.len() == 0 {
                proof {
                    assert(spec_headers(hdr@, i as int, acc0) == acc0);
                }
                break ;
            }
            let p = match exec_find_colon_sp(&hline, 0) {
                None => {
                    proof {
                        assert(spec_headers(hdr@, i as int, acc0) == acc0);
                    }
                    break ;
                },
                Some(p) => p,
            };
            proof {
                lemma_find_colon_sp_bounds(hline@, 0);
            }
            let key = copy_range(&hline, 0, p);
            let value = copy_range(&hline, p + 2, hline.len());
            let kstr = match bytes_to_string(&key) {
                None => {
                    proof {
                        assert(spec_headers(hdr@, i as int, acc0) == acc0);
                    }
                    break ;
                },
                Some(s) => s,
            };
            let vstr = match bytes_to_string(&value) {
                None => {
                    proof {
                        assert(spec_headers(hdr@, i as int, acc0) == acc0);
                    }
                    break ;
                },
                Some(s) => s,
            };
            headers.insert(kstr, vstr);
            proof {
                assert(spec_headers(hdr@, i as int, acc0) == spec_headers(
                    hdr@,
                    next as int,
                    assoc_insert(acc0, key@, value@),
                ));
            }
            i = next;
        }

        let body = copy_range(&raw_request, b + 4, raw_request.len());
        let req = HttpRequest {
            version,
            method,
            resource,
            header: headers,
            body,
            path_params: StrMap::new(),
        };
        proof {
            assert(spec_parse(raw_request@) matches Some(m) && req.models(m));
        }
        Some(req)
    }
}

} // verus!
