//! The router: path templates with `{name}` parameter segments are compiled
//! into an anchored pattern over path segments, stored per method in
//! registration order, and resolved by first match.

use vstd::prelude::*;
use vstd::string::StringSliceAdditionalSpecFns;
use vstd::utf8::*;
use crate::bytes::{
    assoc_insert, bytes_eq, bytes_to_string, copy_range, exec_find_byte, find_byte,
    lemma_ascii_valid_utf8, lemma_boundary_after_ascii, lemma_find_byte_bounds,
    lemma_valid_utf8_ascii_cut, str_eq,
};
use crate::httprequest::Method;
use crate::maps::{PosMap, StrMap};

verus! {

/// The normalized form of a path or template: one leading and one trailing
/// `/` stripped, but only when the text is longer than two bytes.
pub open spec fn spec_normalize(s: Seq<u8>) -> Seq<u8> {
    if s.len() > 2 {
        let a: int = if s[0] == 47 {
            1
        } else {
            0
        };
        let b: int = if s[s.len() - 1] == 47 {
            s.len() - 1
        } else {
            s.len() as int
        };
        s.subrange(a, b)
    } else {
        s
    }
}

/// The pieces of `s` between `/` bytes, from position `i` on; splitting an
/// empty text yields one empty piece.
pub open spec fn spec_segments_from(s: Seq<u8>, i: int) -> Seq<Seq<u8>>
    decreases s.len() - i,
{
    if i < 0 || i > s.len() {
        seq![]
    } else {
        match find_byte(s, 47, i) {
            None => seq![s.subrange(i, s.len() as int)],
            Some(p) => {
                // clamped so that the recursion always advances and stays in range
                let q = if i <= p && p < s.len() {
                    p
                } else {
                    i
                };
                seq![s.subrange(i, q)] + spec_segments_from(s, q + 1)
            },
        }
    }
}

pub open spec fn spec_segments(s: Seq<u8>) -> Seq<Seq<u8>> {
    spec_segments_from(s, 0)
}

/// A template segment written `{name}`: braces present, more than two bytes.
pub open spec fn is_param_seg(seg: Seq<u8>) -> bool {
    seg.len() > 2 && seg[0] == 123 && seg[seg.len() - 1] == 125
}

/// Position-to-name bindings of the parameter segments among `segs`.
pub open spec fn spec_params_from(
    segs: Seq<Seq<u8>>,
    i: int,
    acc: Seq<(int, Seq<u8>)>,
) -> Seq<(int, Seq<u8>)>
    decreases segs.len() - i,
{
    if i < 0 || i >= segs.len() {
        acc
    } else {
        let seg = segs[i];
        let acc2 = if is_param_seg(seg) && valid_utf8(seg.subrange(1, seg.len() - 1)) {
            assoc_insert(acc, i, seg.subrange(1, seg.len() - 1))
        } else {
            acc
        };
        spec_params_from(segs, i + 1, acc2)
    }
}

pub open spec fn spec_find_params(t: Seq<u8>) -> Seq<(int, Seq<u8>)> {
    spec_params_from(spec_segments(spec_normalize(t)), 0, Seq::empty())
}

/// The pattern text of one segment: a parameter segment becomes `[^/]+`, any
/// other segment stands for itself.
pub open spec fn spec_seg_pattern(seg: Seq<u8>) -> Seq<u8> {
    if is_param_seg(seg) {
        seq![91u8, 94u8, 47u8, 93u8, 43u8]
    } else {
        seg
    }
}

/// The segment patterns from position `i` on, joined by `/`.
pub open spec fn spec_join_patterns(segs: Seq<Seq<u8>>, i: int) -> Seq<u8>
    decreases segs.len() - i,
{
    if i < 0 || i >= segs.len() {
        seq![]
    } else if i == segs.len() - 1 {
        spec_seg_pattern(segs[i])
    } else {
        spec_seg_pattern(segs[i]) + seq![47u8] + spec_join_patterns(segs, i + 1)
    }
}

/// The anchored pattern text compiled from a template: `^`, a `/` when the
/// un-normalized template starts with one, the joined segment patterns of
/// the normalized template, a `/` when the un-normalized template ends with
/// one, `$`.
pub open spec fn spec_regex_of(t: Seq<u8>) -> Seq<u8> {
    let segs = spec_segments(spec_normalize(t));
    let lead: Seq<u8> = if t.len() > 0 && t[0] == 47 {
        seq![94u8, 47u8]
    } else {
        seq![94u8]
    };
    let trail: Seq<u8> = if t.len() > 0 && t[t.len() - 1] == 47 {
        seq![47u8, 36u8]
    } else {
        seq![36u8]
    };
    lead + spec_join_patterns(segs, 0) + trail
}

/// Whether a concrete path matches a template, with the anchors honoured:
/// after peeling the leading and trailing `/` that the template demands, the
/// path must split into exactly as many segments as the normalized template,
/// a parameter segment matching any non-empty slash-free piece and any other
/// segment matching itself.
pub open spec fn spec_tmpl_matches(t: Seq<u8>, path: Seq<u8>) -> bool {
    let segs = spec_segments(spec_normalize(t));
    let lead = t.len() > 0 && t[0] == 47;
    let trail = t.len() > 0 && t[t.len() - 1] == 47;
    if lead && !(path.len() >= 1 && path[0] == 47) {
        false
    } else {
        let p1 = if lead {
            path.skip(1)
        } else {
            path
        };
        if trail && !(p1.len() >= 1 && p1[p1.len() - 1] == 47) {
            false
        } else {
            let core = if trail {
                p1.take(p1.len() - 1)
            } else {
                p1
            };
            let psegs = spec_segments(core);
            &&& psegs.len() == segs.len()
            &&& forall|k: int|
                0 <= k < segs.len() ==> (if is_param_seg(#[trigger] segs[k]) {
                    psegs[k].len() > 0
                } else {
                    psegs[k] == segs[k]
                })
        }
    }
}

/// Index of the first template at or after `i` that matches the path.
pub open spec fn first_match_from(ts: Seq<Seq<u8>>, p: Seq<u8>, i: int) -> Option<int>
    decreases ts.len() - i,
{
    if i < 0 || i >= ts.len() {
        None
    } else if spec_tmpl_matches(ts[i], p) {
        Some(i)
    } else {
        first_match_from(ts, p, i + 1)
    }
}

pub open spec fn first_match(ts: Seq<Seq<u8>>, p: Seq<u8>) -> Option<int> {
    first_match_from(ts, p, 0)
}

/// Index of the first template at or after `i` whose compiled pattern text
/// equals that of `t`; such templates share one table entry.
pub open spec fn first_same_key_from(ts: Seq<Seq<u8>>, t: Seq<u8>, i: int) -> Option<int>
    decreases ts.len() - i,
{
    if i < 0 || i >= ts.len() {
        None
    } else if spec_regex_of(ts[i]) == spec_regex_of(t) {
        Some(i)
    } else {
        first_same_key_from(ts, t, i + 1)
    }
}

pub open spec fn first_same_key(ts: Seq<Seq<u8>>, t: Seq<u8>) -> Option<int> {
    first_same_key_from(ts, t, 0)
}

/// Normalizes a path by removing one leading and one trailing slash.
pub fn normalize_path(path: &str) -> (r: &str)
    ensures
        r.spec_bytes() == spec_normalize(path.spec_bytes()),
{
    let pb = path.as_bytes();
    let n = pb.len();
    proof {
        assert(pb@.len() == path.spec_bytes().len());
    }
    if n > 2 {
        let start: usize = if *vstd::slice::slice_index_get(pb, 0) == 47 {
            1
        } else {
            0
        };
        let end: usize = if *vstd::slice::slice_index_get(pb, n - 1) == 47 {
            n - 1
        } else {
            n
        };
        proof {
            encode_utf8_valid_utf8(path@);
            lemma_boundary_after_ascii(path.spec_bytes(), start as int);
        }
        let (_, rest) = path.split_at(start);
        proof {
            encode_utf8_valid_utf8(rest@);
            assert(rest.spec_bytes() =~= path.spec_bytes().subrange(
                start as int,
                path.spec_bytes().len() as int,
            ));
            if end < n {
                assert(rest.spec_bytes()[end - start] == path.spec_bytes()[end as int]);
                assert(path.spec_bytes()[end as int] == 47);
                is_char_boundary_iff_not_is_continuation_byte(rest.spec_bytes(), end - start);
                assert(!is_continuation_byte(rest.spec_bytes()[end - start]));
                assert(is_char_boundary(rest.spec_bytes(), end - start));
            } else {
                is_char_boundary_start_end_of_seq(rest.spec_bytes());
                assert(is_char_boundary(rest.spec_bytes(), end - start));
            }
        }
        let (mid, _) = rest.split_at(end - start);
        proof {
            assert(mid.spec_bytes() =~= spec_normalize(path.spec_bytes()));
        }
        mid
    } else {
        path
    }
}

/// Split a byte buffer into its `/`-separated pieces.
pub fn split_slash(v: &Vec<u8>) -> (out: Vec<Vec<u8>>)
    ensures
        out@.map_values(|s: Vec<u8>| s@) == spec_segments(v@),
{
    let mut out: Vec<Vec<u8>> = Vec::new();
    let vlen = v.len();
    let mut i: usize = 0;
    loop
        invariant
            vlen == v@.len(),
            i <= v@.len(),
            spec_segments(v@) == out@.map_values(|s: Vec<u8>| s@) + spec_segments_from(
                v@,
                i as int,
            ),
        decreases v@.len() - i,
    {
        let ghost acc0 = out@.map_values(|s: Vec<u8>| s@);
        match exec_find_byte(v, 47, i) {
            Some(p) => {
                proof {
                    lemma_find_byte_bounds(v@, 47, i as int);
                    assert(i <= p < vlen);
                }
                let piece = copy_range(v, i, p);
                out.push(piece);
                proof {
                    assert(out@.map_values(|s: Vec<u8>| s@) =~~= acc0.push(
                        v@.subrange(i as int, p as int),
                    ));
                    assert(spec_segments_from(v@, i as int) == seq![
                        v@.subrange(i as int, p as int),
                    ] + spec_segments_from(v@, p + 1));
                    assert(acc0 + spec_segments_from(v@, i as int) =~~= acc0.push(
                        v@.subrange(i as int, p as int),
                    ) + spec_segments_from(v@, p + 1));
                }
                i = p + 1;
            },
            None => {
                let piece = copy_range(v, i, vlen);
                out.push(piece);
                proof {
                    assert(out@.map_values(|s: Vec<u8>| s@) =~~= acc0.push(
                        v@.subrange(i as int, v@.len() as int),
                    ));
                    assert(spec_segments_from(v@, i as int) == seq![
                        v@.subrange(i as int, v@.len() as int),
                    ]);
                    assert(acc0 + spec_segments_from(v@, i as int) =~~= acc0.push(
                        v@.subrange(i as int, v@.len() as int),
                    ));
                }
                return out;
            },
        }
    }
}

/// Every `/`-separated piece of a valid UTF-8 text is valid UTF-8.
proof fn lemma_segments_from_valid(s: Seq<u8>, i: int)
    requires
        valid_utf8(s),
        0 <= i <= s.len(),
        i == 0 || s[i - 1] < 128,
    ensures
        forall|k: int|
            0 <= k < spec_segments_from(s, i).len() ==> valid_utf8(
                #[trigger] spec_segments_from(s, i)[k],
            ),
    decreases s.len() - i,
{
    lemma_find_byte_bounds(s, 47, i);
    match find_byte(s, 47, i) {
        None => {
            lemma_valid_utf8_ascii_cut(s, i, s.len() as int);
        },
        Some(p) => {
            lemma_valid_utf8_ascii_cut(s, i, p);
            lemma_segments_from_valid(s, p + 1);
            assert forall|k: int| 0 <= k < spec_segments_from(s, i).len() implies valid_utf8(
                #[trigger] spec_segments_from(s, i)[k],
            ) by {
                if k > 0 {
                    assert(spec_segments_from(s, i)[k] == spec_segments_from(s, p + 1)[k - 1]);
                }
            }
        },
    }
}

/// The joined segment patterns of valid segments are valid UTF-8.
proof fn lemma_join_patterns_valid(segs: Seq<Seq<u8>>, i: int)
    requires
        forall|k: int| 0 <= k < segs.len() ==> valid_utf8(#[trigger] segs[k]),
    ensures
        valid_utf8(spec_join_patterns(segs, i)),
    decreases segs.len() - i,
{
    let catch_all = seq![91u8, 94u8, 47u8, 93u8, 43u8];
    assert(valid_utf8(catch_all)) by {
        lemma_ascii_valid_utf8(catch_all);
    }
    assert(valid_utf8(Seq::<u8>::empty())) by {
        lemma_ascii_valid_utf8(Seq::<u8>::empty());
    }
    if 0 <= i < segs.len() {
        assert(valid_utf8(spec_seg_pattern(segs[i])));
        if i < segs.len() - 1 {
            lemma_join_patterns_valid(segs, i + 1);
            assert(valid_utf8(seq![47u8])) by {
                lemma_ascii_valid_utf8(seq![47u8]);
            }
            valid_utf8_concat(seq![47u8], spec_join_patterns(segs, i + 1));
            valid_utf8_concat(spec_seg_pattern(segs[i]), seq![47u8] + spec_join_patterns(segs, i + 1));
            assert(spec_seg_pattern(segs[i]) + (seq![47u8] + spec_join_patterns(segs, i + 1))
                =~= spec_seg_pattern(segs[i]) + seq![47u8] + spec_join_patterns(segs, i + 1));
        }
    }
}

/// Build the anchored pattern text that matches the path template.
pub fn regex_that_match(path: &str) -> (r: String)
    ensures
        encode_utf8(r@) == spec_regex_of(path.spec_bytes()),
{
    let ghost t = path.spec_bytes();
    let pb = path.as_bytes();
    let n = pb.len();
    proof {
        assert(n == t.len());
    }
    let lead = n > 0 && *vstd::slice::slice_index_get(pb, 0) == 47;
    let trail = n > 0 && *vstd::slice::slice_index_get(pb, n - 1) == 47;
    let norm = normalize_path(path);
    let nb = vstd::slice::slice_to_vec(norm.as_bytes());
    let segs = split_slash(&nb);
    let ghost sv = segs@.map_values(|s: Vec<u8>| s@);

    let mut out: Vec<u8> = Vec::new();
    out.push(94);
    if lead {
        out.push(47);
    }
    let ghost lead_seq: Seq<u8> = if lead {
        seq![94u8, 47u8]
    } else {
        seq![94u8]
    };
    proof {
        assert(out@ =~= lead_seq);
    }
    let mut k: usize = 0;
    while k < segs.len()
        invariant
            k <= segs.len(),
            sv == segs@.map_values(|s: Vec<u8>| s@),
            out@ + spec_join_patterns(sv, k as int) =~= lead_seq + spec_join_patterns(sv, 0),
        decreases segs.len() - k,
    {
        let ghost out0 = out@;
        let seg: &Vec<u8> = &segs[k];
        proof {
            assert(seg@ == sv[k as int]);
        }
        if seg.len() > 2 && seg[0] == 123 && seg[seg.len() - 1] == 125 {
            out.push(91);
            out.push(94);
            out.push(47);
            out.push(93);
            out.push(43);
            proof {
                assert(is_param_seg(sv[k as int]));
                assert(out@ =~= out0 + spec_seg_pattern(sv[k as int]));
            }
        } else {
            let mut j: usize = 0;
            while j < seg.len()
                invariant
                    j <= seg@.len(),
                    out@ =~= out0 + seg@.take(j as int),
                decreases seg@.len() - j,
            {
                out.push(seg[j]);
                j = j + 1;
            }
            proof {
                assert(!is_param_seg(sv[k as int]));
                assert(out@ =~= out0 + spec_seg_pattern(sv[k as int]));
            }
        }
        if k < segs.len() - 1 {
            out.push(47);
            proof {
                assert(out@ =~= out0 + (spec_seg_pattern(sv[k as int]) + seq![47u8]));
                assert(spec_join_patterns(sv, k as int) =~= spec_seg_pattern(sv[k as int]) + seq![
                    47u8,
                ] + spec_join_patterns(sv, k + 1));
                assert(out@ + spec_join_patterns(sv, k + 1) =~= lead_seq + spec_join_patterns(
                    sv,
                    0,
                ));
            }
        } else {
            proof {
                assert(spec_join_patterns(sv, k as int) =~= spec_seg_pattern(sv[k as int]));
                assert(out@ + spec_join_patterns(sv, k + 1) =~= lead_seq + spec_join_patterns(
                    sv,
                    0,
                ));
            }
        }
        k = k + 1;
    }
    proof {
        assert(spec_join_patterns(sv, segs@.len() as int) =~= Seq::<u8>::empty());
        assert(out@ =~= lead_seq + spec_join_patterns(sv, 0));
    }
    if trail {
        out.push(47);
    }
    out.push(36);
    let ghost trail_seq: Seq<u8> = if trail {
        seq![47u8, 36u8]
    } else {
        seq![36u8]
    };
    proof {
        assert(out@ =~= lead_seq + spec_join_patterns(sv, 0) + trail_seq);
        assert(nb@ == spec_normalize(t));
        assert(sv == spec_segments(spec_normalize(t)));
        assert(lead == (t.len() > 0 && t[0] == 47));
        assert(trail == (t.len() > 0 && t[t.len() - 1] == 47));
        assert(out@ =~= spec_regex_of(t));
        encode_utf8_valid_utf8(norm@);
        lemma_segments_from_valid(norm.spec_bytes(), 0);
        assert(forall|kk: int| 0 <= kk < sv.len() ==> valid_utf8(#[trigger] sv[kk]));
        lemma_join_patterns_valid(sv, 0);
        lemma_ascii_valid_utf8(lead_seq);
        lemma_ascii_valid_utf8(trail_seq);
        valid_utf8_concat(lead_seq, spec_join_patterns(sv, 0));
        valid_utf8_concat(lead_seq + spec_join_patterns(sv, 0), trail_seq);
        assert(valid_utf8(out@));
    }
    match bytes_to_string(&out) {
        Some(s) => s,
        None => {
            proof {
                assert(false);
            }
            String::new()
        },
    }
}

/// Collect the position-to-name parameter map of a template.
pub fn find_params(path: &str) -> (r: PosMap)
    ensures
        r@ == spec_find_params(path.spec_bytes()),
{
    let norm = normalize_path(path);
    let nb = vstd::slice::slice_to_vec(norm.as_bytes());
    let segs = split_slash(&nb);
    let ghost sv = segs@.map_values(|s: Vec<u8>| s@);
    let mut r = PosMap::new();
    let mut k: usize = 0;
    while k < segs.len()
        invariant
            k <= segs.len(),
            sv == segs@.map_values(|s: Vec<u8>| s@),
            spec_params_from(sv, 0, Seq::empty()) == spec_params_from(sv, k as int, r@),
        decreases segs.len() - k,
    {
        let ghost acc0 = r@;
        let seg: &Vec<u8> = &segs[k];
        proof {
            assert(seg@ == sv[k as int]);
        }
        if seg.len() > 2 && seg[0] == 123 && seg[seg.len() - 1] == 125 {
            let name_b = copy_range(seg, 1, seg.len() - 1);
            match bytes_to_string(&name_b) {
                Some(name) => {
                    r.insert(k, name);
                },
                None => {},
            }
        }
        proof {
            assert(spec_params_from(sv, k as int, acc0) == spec_params_from(sv, k + 1, r@));
        }
        k = k + 1;
    }
    r
}

/// The number of `/` bytes at or after `i`.
pub open spec fn slash_count(s: Seq<u8>, i: int) -> int
    decreases s.len() - i,
{
    if i < 0 || i >= s.len() {
        0
    } else {
        (if s[i] == 47 {
            1int
        } else {
            0int
        }) + slash_count(s, i + 1)
    }
}

proof fn lemma_find_byte_first(s: Seq<u8>, b: u8, i: int)
    requires
        0 <= i,
    ensures
        find_byte(s, b, i) matches Some(j) ==> forall|q: int| i <= q < j ==> s[q] != b,
        find_byte(s, b, i) is None ==> forall|q: int| i <= q < s.len() ==> #[trigger] s[q] != b,
    decreases s.len() - i,
{
    if !(i < 0 || i >= s.len()) && s[i] != b {
        lemma_find_byte_first(s, b, i + 1);
    }
}

proof fn lemma_no_byte_count(s: Seq<u8>, i: int)
    requires
        forall|q: int| i <= q < s.len() ==> s[q] != 47,
    ensures
        slash_count(s, i) == 0,
    decreases s.len() - i,
{
    if 0 <= i < s.len() {
        lemma_no_byte_count(s, i + 1);
    }
}

proof fn lemma_count_flat(s: Seq<u8>, i: int, j: int)
    requires
        0 <= i <= j,
        forall|q: int| i <= q < j ==> s[q] != 47,
    ensures
        slash_count(s, i) == slash_count(s, j),
    decreases j - i,
{
    if i < j && i < s.len() {
        lemma_count_flat(s, i + 1, j);
    } else if i < j {
        lemma_no_byte_count(s, i);
        lemma_no_byte_count(s, j);
    }
}

/// There is one more segment than there are separators.
proof fn lemma_segments_len(s: Seq<u8>, i: int)
    requires
        0 <= i <= s.len(),
    ensures
        spec_segments_from(s, i).len() == slash_count(s, i) + 1,
    decreases s.len() - i,
{
    lemma_find_byte_bounds(s, 47, i);
    lemma_find_byte_first(s, 47, i);
    match find_byte(s, 47, i) {
        None => {
            lemma_no_byte_count(s, i);
        },
        Some(p) => {
            lemma_count_flat(s, i, p);
            lemma_segments_len(s, p + 1);
        },
    }
}

proof fn lemma_segments_nonempty(s: Seq<u8>, i: int)
    requires
        0 <= i <= s.len(),
    ensures
        spec_segments_from(s, i).len() >= 1,
{
    match find_byte(s, 47, i) {
        None => {
            assert(spec_segments_from(s, i).len() == 1);
        },
        Some(p) => {
            assert(spec_segments_from(s, i).len() >= 1);
        },
    }
}

/// The first segment is empty exactly when the text is empty or opens with `/`.
proof fn lemma_first_segment_empty_iff(s: Seq<u8>)
    ensures
        (spec_segments(s)[0] == Seq::<u8>::empty()) <==> (s.len() == 0 || s[0] == 47),
{
    lemma_find_byte_bounds(s, 47, 0);
    lemma_find_byte_first(s, 47, 0);
    match find_byte(s, 47, 0) {
        None => {
            assert(spec_segments(s)[0] == s.subrange(0, s.len() as int));
            assert(s.subrange(0, s.len() as int) =~= s);
            if s.len() > 0 {
                assert(s[0] != 47);
                assert(spec_segments(s)[0].len() > 0);
                assert(spec_segments(s)[0] != Seq::<u8>::empty());
            } else {
                assert(spec_segments(s)[0] =~= Seq::<u8>::empty());
            }
        },
        Some(p) => {
            assert(0 <= p < s.len() && s[p] == 47);
            assert(spec_segments(s)[0] == s.subrange(0, p));
            if p == 0 {
                assert(s[0] == 47);
                assert(s.subrange(0, 0) =~= Seq::<u8>::empty());
            } else {
                assert(s[0] != 47);
                assert(spec_segments(s)[0].len() == p);
                assert(spec_segments(s)[0] != Seq::<u8>::empty());
            }
        },
    }
}

/// The last segment is empty exactly when the scanned part is empty or the
/// text closes with `/`.
proof fn lemma_last_segment_empty_iff(s: Seq<u8>, i: int)
    requires
        0 <= i <= s.len(),
    ensures
        (spec_segments_from(s, i).last() == Seq::<u8>::empty()) <==> (i == s.len() || s[s.len() - 1]
            == 47),
    decreases s.len() - i,
{
    lemma_find_byte_bounds(s, 47, i);
    lemma_find_byte_first(s, 47, i);
    match find_byte(s, 47, i) {
        None => {
            assert(spec_segments_from(s, i).last() =~= s.subrange(i, s.len() as int));
            if i < s.len() {
                assert(s[s.len() - 1] != 47);
                assert(s.subrange(i, s.len() as int).len() > 0);
            } else {
                assert(s.subrange(i, i) =~= Seq::<u8>::empty());
            }
        },
        Some(p) => {
            lemma_segments_nonempty(s, p + 1);
            assert(spec_segments_from(s, i).last() == spec_segments_from(s, p + 1).last());
            lemma_last_segment_empty_iff(s, p + 1);
            if p + 1 == s.len() {
                assert(s[s.len() - 1] == 47);
            }
        },
    }
}

/// A match forces the path to open with `/` exactly when the template does,
/// and to close with `/` exactly when the template does.
proof fn lemma_match_boundary_bytes(t: Seq<u8>, p: Seq<u8>)
    requires
        spec_tmpl_matches(t, p),
    ensures
        (t.len() > 0 && t[0] == 47) == (p.len() > 0 && p[0] == 47),
        (t.len() > 0 && t[t.len() - 1] == 47) == (p.len() > 0 && p[p.len() - 1] == 47),
{
    let norm = spec_normalize(t);
    let segs = spec_segments(norm);
    let lead = t.len() > 0 && t[0] == 47;
    let trail = t.len() > 0 && t[t.len() - 1] == 47;
    let p1 = if lead {
        p.skip(1)
    } else {
        p
    };
    let core = if trail {
        p1.take(p1.len() - 1)
    } else {
        p1
    };
    let psegs = spec_segments(core);
    lemma_segments_nonempty(norm, 0);
    lemma_segments_nonempty(core, 0);
    lemma_first_segment_empty_iff(core);
    lemma_first_segment_empty_iff(norm);
    lemma_last_segment_empty_iff(core, 0);
    lemma_last_segment_empty_iff(norm, 0);
    if norm.len() == 0 {
        // an empty template matches only the empty path
        assert(t.len() == 0);
        assert(!lead && !trail);
        assert(core == p);
        assert(segs =~~= seq![Seq::<u8>::empty()]);
        assert(!is_param_seg(segs[0]));
        assert(psegs[0] == Seq::<u8>::empty());
        assert(psegs.len() == 1);
        if core.len() > 0 {
            assert(core[0] == 47);
            assert(find_byte(core, 47, 0) == Some(0int));
            lemma_segments_nonempty(core, 1);
            assert(psegs.len() >= 2);
        }
        assert(p.len() == 0);
    } else {
        if !lead && p.len() > 0 && p[0] == 47 {
            // the first path segment would be empty, so the first template
            // segment would be empty too, putting a slash at the start of
            // the normalized template and hence of the template
            if core.len() > 0 {
                assert(core[0] == p[0]);
                assert(core[0] == 47);
            }
            assert(psegs[0] == Seq::<u8>::empty());
            assert(psegs[0].len() == 0);
            assert(!is_param_seg(segs[0]));
            assert(segs[0] == psegs[0]);
            assert(norm[0] == 47);
            if t.len() > 2 {
                assert(norm[0] == t[if t[0] == 47 {
                    1int
                } else {
                    0int
                }]);
                assert(t[0] == 47);
            } else {
                assert(t[0] == 47);
            }
            assert(false);
        }
        if !trail && p.len() > 0 && p[p.len() - 1] == 47 {
            assert(core == p1);
            if core.len() > 0 {
                assert(core[core.len() - 1] == p[p.len() - 1]);
                assert(core[core.len() - 1] == 47);
            }
            assert(psegs.last() == Seq::<u8>::empty());
            assert(psegs.len() == segs.len());
            assert(psegs[psegs.len() - 1].len() == 0);
            assert(!is_param_seg(segs[segs.len() - 1]));
            assert(segs[segs.len() - 1] == psegs[psegs.len() - 1]);
            assert(segs.last() == Seq::<u8>::empty());
            assert(norm[norm.len() - 1] == 47);
            if t.len() > 2 {
                assert(norm[norm.len() - 1] == t[(if t[t.len() - 1] == 47 {
                    t.len() - 1
                } else {
                    t.len() as int
                }) - 1]);
                assert(t[t.len() - 1] == 47);
            } else {
                assert(t[t.len() - 1] == 47);
            }
            assert(false);
        }
        if lead {
            assert(p.len() >= 1 && p[0] == 47);
        }
        if trail {
            assert(p1.len() >= 1 && p1[p1.len() - 1] == 47);
            assert(p[p.len() - 1] == 47 && p.len() > 0);
        }
    }
}

/// Every position in a template's parameter map indexes one of its segments.
proof fn lemma_params_from_in_range(segs: Seq<Seq<u8>>, i: int, acc: Seq<(int, Seq<u8>)>)
    requires
        0 <= i,
        forall|l: int| 0 <= l < acc.len() ==> 0 <= (#[trigger] acc[l]).0 < segs.len(),
    ensures
        forall|l: int|
            0 <= l < spec_params_from(segs, i, acc).len() ==> 0 <= (#[trigger] spec_params_from(
                segs,
                i,
                acc,
            )[l]).0 < segs.len(),
    decreases segs.len() - i,
{
    if i < segs.len() {
        let seg = segs[i];
        if is_param_seg(seg) && valid_utf8(seg.subrange(1, seg.len() - 1)) {
            let acc2 = assoc_insert(acc, i, seg.subrange(1, seg.len() - 1));
            lemma_assoc_insert_positions(acc, i, seg.subrange(1, seg.len() - 1), segs.len() as int);
            lemma_params_from_in_range(segs, i + 1, acc2);
            assert(spec_params_from(segs, i, acc) == spec_params_from(segs, i + 1, acc2));
        } else {
            lemma_params_from_in_range(segs, i + 1, acc);
            assert(spec_params_from(segs, i, acc) == spec_params_from(segs, i + 1, acc));
        }
    }
}

proof fn lemma_assoc_insert_positions(acc: Seq<(int, Seq<u8>)>, k: int, v: Seq<u8>, n: int)
    requires
        0 <= k < n,
        forall|l: int| 0 <= l < acc.len() ==> 0 <= (#[trigger] acc[l]).0 < n,
    ensures
        forall|l: int|
            0 <= l < assoc_insert(acc, k, v).len() ==> 0 <= (#[trigger] assoc_insert(acc, k, v)[l]).0
                < n,
    decreases acc.len(),
{
    let r = assoc_insert(acc, k, v);
    if acc.len() == 0 {
        assert(r =~~= seq![(k, v)]);
        assert(forall|l: int| 0 <= l < r.len() ==> 0 <= (#[trigger] r[l]).0 < n);
    } else if acc[0].0 == k {
        assert(r == seq![(k, v)] + acc.skip(1));
        assert forall|l: int| 0 <= l < r.len() implies 0 <= (#[trigger] r[l]).0 < n by {
            if l == 0 {
            } else {
                assert(r[l] == acc.skip(1)[l - 1]);
                assert(acc.skip(1)[l - 1] == acc[l]);
            }
        }
    } else {
        lemma_assoc_insert_positions(acc.skip(1), k, v, n);
        let r2 = assoc_insert(acc.skip(1), k, v);
        assert(r == seq![acc[0]] + r2);
        assert forall|l: int| 0 <= l < r.len() implies 0 <= (#[trigger] r[l]).0 < n by {
            if l == 0 {
                assert(r[l] == acc[0]);
            } else {
                assert(r[l] == r2[l - 1]);
            }
        }
    }
}

/// On a matched route, every parameter position indexes a segment of the
/// normalized candidate path: extraction can never run out of range.
pub proof fn lemma_match_params_in_range(t: Seq<u8>, p: Seq<u8>)
    requires
        spec_tmpl_matches(t, p),
    ensures
        forall|l: int|
            0 <= l < spec_find_params(t).len() ==> 0 <= (#[trigger] spec_find_params(t)[l]).0
                < spec_segments(spec_normalize(p)).len(),
{
    let norm = spec_normalize(t);
    let segs = spec_segments(norm);
    let lead = t.len() > 0 && t[0] == 47;
    let trail = t.len() > 0 && t[t.len() - 1] == 47;
    let p1 = if lead {
        p.skip(1)
    } else {
        p
    };
    let core = if trail {
        p1.take(p1.len() - 1)
    } else {
        p1
    };
    let psegs = spec_segments(core);
    lemma_params_from_in_range(segs, 0, Seq::empty());
    assert(psegs.len() == segs.len());
    lemma_match_boundary_bytes(t, p);
    if p.len() > 2 {
        // normalization peels exactly what the anchors peel
        assert(spec_normalize(p) =~= core);
    } else {
        // a path of at most two bytes is left unchanged by normalization,
        // and peeling bytes can only lose separators
        lemma_segments_len(p, 0);
        lemma_segments_len(core, 0);
        assert(spec_normalize(p) == p);
        assert(slash_count(core, 0) <= slash_count(p, 0)) by {
            reveal_with_fuel(slash_count, 4);
            assert(p.len() <= 2);
            assert(core.len() <= p.len());
            assert(forall|q: int|
                0 <= q < core.len() ==> core[q] == p[q + (if lead {
                    1int
                } else {
                    0int
                })]);
        }
    }
}

/// A compiled route: its handler and the position-to-name parameter map.
pub struct RouteInfo<H> {
    pub handler: H,
    pub params_pos: PosMap,
}

struct RouteEntry<H> {
    key: String,
    template: Ghost<Seq<u8>>,
    lead: bool,
    trail: bool,
    segs: Vec<Vec<u8>>,
    info: RouteInfo<H>,
}

impl<H> RouteEntry<H> {
    /// Every stored piece of the entry is what compiling its template yields.
    closed spec fn wf(&self) -> bool {
        &&& encode_utf8(self.key@) == spec_regex_of(self.template@)
        &&& self.lead == (self.template@.len() > 0 && self.template@[0] == 47)
        &&& self.trail == (self.template@.len() > 0 && self.template@[self.template@.len() - 1]
            == 47)
        &&& self.segs@.map_values(|s: Vec<u8>| s@) == spec_segments(spec_normalize(self.template@))
        &&& self.info.params_pos@ == spec_find_params(self.template@)
    }
}

/// Compile a template into a table entry carrying the given handler.
fn compile<H>(path: &str, handler: H) -> (e: RouteEntry<H>)
    ensures
        e.wf(),
        e.template@ == path.spec_bytes(),
        e.info.handler == handler,
{
    let key = regex_that_match(path);
    let params_pos = find_params(path);
    let pb = path.as_bytes();
    let n = pb.len();
    let lead = n > 0 && *vstd::slice::slice_index_get(pb, 0) == 47;
    let trail = n > 0 && *vstd::slice::slice_index_get(pb, n - 1) == 47;
    let norm = normalize_path(path);
    let nb = vstd::slice::slice_to_vec(norm.as_bytes());
    let segs = split_slash(&nb);
    RouteEntry {
        key,
        template: Ghost(path.spec_bytes()),
        lead,
        trail,
        segs,
        info: RouteInfo { handler, params_pos },
    }
}

/// Whether the path matches this entry's compiled pattern.
#[verifier::loop_isolation(false)]
fn entry_matches<H>(e: &RouteEntry<H>, path: &Vec<u8>) -> (r: bool)
    requires
        e.wf(),
    ensures
        r == spec_tmpl_matches(e.template@, path@),
{
    let ghost t = e.template@;
    let ghost sv = spec_segments(spec_normalize(t));
    let plen = path.len();
    if e.lead && (plen == 0 || path[0] != 47) {
        return false;
    }
    let a: usize = if e.lead {
        1
    } else {
        0
    };
    let mut b: usize = plen;
    if e.trail {
        if plen == a || path[plen - 1] != 47 {
            proof {
                let p1 = if e.lead {
                    path@.skip(1)
                } else {
                    path@
                };
                assert(!(p1.len() >= 1 && p1[p1.len() - 1] == 47));
            }
            return false;
        }
        b = plen - 1;
    }
    let core = copy_range(path, a, b);
    proof {
        let p1 = if e.lead {
            path@.skip(1)
        } else {
            path@
        };
        let score = if e.trail {
            p1.take(p1.len() - 1)
        } else {
            p1
        };
        assert(core@ =~= score);
    }
    let psegs = split_slash(&core);
    let ghost pv = psegs@.map_values(|s: Vec<u8>| s@);
    if psegs.len() != e.segs.len() {
        proof {
            assert(pv.len() == psegs@.len() && sv.len() == e.segs@.len());
        }
        return false;
    }
    let mut k: usize = 0;
    while k < psegs.len()
        invariant
            k <= psegs.len(),
            e.wf(),
            pv == psegs@.map_values(|s: Vec<u8>| s@),
            sv == spec_segments(spec_normalize(e.template@)),
            pv.len() == psegs@.len() == sv.len() == e.segs@.len(),
            forall|j: int|
                0 <= j < k ==> (if is_param_seg(#[trigger] sv[j]) {
                    pv[j].len() > 0
                } else {
                    pv[j] == sv[j]
                }),
        decreases psegs.len() - k,
    {
        let ts: &Vec<u8> = &e.segs[k];
        let ps: &Vec<u8> = &psegs[k];
        proof {
            assert(ts@ == sv[k as int] && ps@ == pv[k as int]);
        }
        if ts.len() > 2 && ts[0] == 123 && ts[ts.len() - 1] == 125 {
            if ps.len() == 0 {
                proof {
                    assert(is_param_seg(sv[k as int]) && pv[k as int].len() == 0);
                }
                return false;
            }
        } else {
            if !bytes_eq(ts.as_slice(), ps.as_slice()) {
                proof {
                    assert(!is_param_seg(sv[k as int]) && pv[k as int] != sv[k as int]);
                }
                return false;
            }
        }
        k = k + 1;
    }
    true
}

/// The method-scoped route tables, each in registration order.
pub struct Router<H> {
    get_entries: Vec<RouteEntry<H>>,
    post_entries: Vec<RouteEntry<H>>,
}

impl<H> Router<H> {
    /// The templates registered for GET, in table order.
    pub closed spec fn get_templates(&self) -> Seq<Seq<u8>> {
        self.get_entries@.map_values(|e: RouteEntry<H>| e.template@)
    }

    /// The templates registered for POST, in table order.
    pub closed spec fn post_templates(&self) -> Seq<Seq<u8>> {
        self.post_entries@.map_values(|e: RouteEntry<H>| e.template@)
    }

    pub closed spec fn get_handlers(&self) -> Seq<H> {
        self.get_entries@.map_values(|e: RouteEntry<H>| e.info.handler)
    }

    pub closed spec fn post_handlers(&self) -> Seq<H> {
        self.post_entries@.map_values(|e: RouteEntry<H>| e.info.handler)
    }

    /// The table consulted for a method; an unrecognized method has none.
    pub open spec fn method_templates(&self, m: Method) -> Seq<Seq<u8>> {
        match m {
            Method::Get => self.get_templates(),
            Method::Post => self.post_templates(),
            Method::Uninitialized => Seq::empty(),
        }
    }

    pub open spec fn method_handlers(&self, m: Method) -> Seq<H> {
        match m {
            Method::Get => self.get_handlers(),
            Method::Post => self.post_handlers(),
            Method::Uninitialized => Seq::empty(),
        }
    }

    /// Every entry of both tables is a faithfully compiled route.
    pub closed spec fn wf(&self) -> bool {
        &&& forall|i: int|
            0 <= i < self.get_entries@.len() ==> (#[trigger] self.get_entries@[i]).wf()
        &&& forall|i: int|
            0 <= i < self.post_entries@.len() ==> (#[trigger] self.post_entries@[i]).wf()
    }

    /// Register a handler for a GET template.
    pub fn get(&mut self, path: &str, handler: H)
        requires
            old(self).wf(),
        ensures
            final(self).wf(),
            final(self).post_templates() == old(self).post_templates(),
            final(self).post_handlers() == old(self).post_handlers(),
            spec_table_add(
                old(self).get_templates(),
                old(self).get_handlers(),
                final(self).get_templates(),
                final(self).get_handlers(),
                path.spec_bytes(),
                handler,
            ),
    {
        let e = compile(path, handler);
        insert_entry(&mut self.get_entries, e);
    }

    /// Register a handler for a POST template.
    pub fn post(&mut self, path: &str, handler: H)
        requires
            old(self).wf(),
        ensures
            final(self).wf(),
            final(self).get_templates() == old(self).get_templates(),
            final(self).get_handlers() == old(self).get_handlers(),
            spec_table_add(
                old(self).post_templates(),
                old(self).post_handlers(),
                final(self).post_templates(),
                final(self).post_handlers(),
                path.spec_bytes(),
                handler,
            ),
    {
        let e = compile(path, handler);
        insert_entry(&mut self.post_entries, e);
    }

    /// Resolve a method and path to the first registered route that matches.
    #[verifier::loop_isolation(false)]
    pub fn find_handler(&self, method: Method, path: &str) -> (r: Option<&RouteInfo<H>>)
        requires
            self.wf(),
        ensures
            ({
                let ts = self.method_templates(method);
                match r {
                    None => first_match(ts, path.spec_bytes()) is None,
                    Some(info) => first_match(ts, path.spec_bytes()) matches Some(i)
                        && info.params_pos@ == spec_find_params(ts[i]) && info.handler == self
                        .method_handlers(method)[i],
                }
            }),
    {
        let entries = match method {
            Method::Get => &self.get_entries,
            Method::Post => &self.post_entries,
            Method::Uninitialized => {
                return None;
            },
        };
        let ghost ts = self.method_templates(method);
        let ghost hs = self.method_handlers(method);
        let ghost pbb = path.spec_bytes();
        proof {
            assert(ts == entries@.map_values(|e: RouteEntry<H>| e.template@));
            assert(hs == entries@.map_values(|e: RouteEntry<H>| e.info.handler));
        }
        let pb = vstd::slice::slice_to_vec(path.as_bytes());
        let mut i: usize = 0;
        while i < entries.len()
            invariant
                i <= entries@.len(),
                ts == entries@.map_values(|e: RouteEntry<H>| e.template@),
                ts.len() == entries@.len(),
                pb@ == pbb,
                forall|j: int| 0 <= j < entries@.len() ==> (#[trigger] entries@[j]).wf(),
                first_match_from(ts, pbb, 0) == first_match_from(ts, pbb, i as int),
            decreases entries@.len() - i,
        {
            let e: &RouteEntry<H> = &entries[i];
            proof {
                assert(e.template@ == ts[i as int]);
            }
            if entry_matches(e, &pb) {
                proof {
                    assert(first_match_from(ts, pbb, i as int) == Some(i as int));
                    assert(e.info.params_pos@ == spec_find_params(ts[i as int]));
                    assert(e.info.handler == hs[i as int]);
                }
                return Some(&e.info);
            }
            i = i + 1;
        }
        None
    }
}

/// How registration changes one table: a template whose compiled pattern is
/// already present replaces that entry in place, any other is appended.
pub open spec fn spec_table_add<H>(
    ts: Seq<Seq<u8>>,
    hs: Seq<H>,
    ts2: Seq<Seq<u8>>,
    hs2: Seq<H>,
    t: Seq<u8>,
    h: H,
) -> bool {
    match first_same_key(ts, t) {
        None => ts2 == ts.push(t) && hs2 == hs.push(h),
        Some(i) => ts2 == ts.update(i, t) && hs2 == hs.update(i, h),
    }
}

/// Place an entry in a table, replacing the first entry with the same
/// compiled pattern text or appending a new one.
fn insert_entry<H>(entries: &mut Vec<RouteEntry<H>>, e: RouteEntry<H>)
    requires
        forall|i: int| 0 <= i < old(entries)@.len() ==> (#[trigger] old(entries)@[i]).wf(),
        e.wf(),
    ensures
        forall|i: int| 0 <= i < final(entries)@.len() ==> (#[trigger] final(entries)@[i]).wf(),
        spec_table_add(
            old(entries)@.map_values(|x: RouteEntry<H>| x.template@),
            old(entries)@.map_values(|x: RouteEntry<H>| x.info.handler),
            final(entries)@.map_values(|x: RouteEntry<H>| x.template@),
            final(entries)@.map_values(|x: RouteEntry<H>| x.info.handler),
            e.template@,
            e.info.handler,
        ),
{
    let ghost ts = entries@.map_values(|x: RouteEntry<H>| x.template@);
    let ghost hs = entries@.map_values(|x: RouteEntry<H>| x.info.handler);
    let ghost t = e.template@;
    let mut i: usize = 0;
    while i < entries.len()
        invariant
            i <= entries@.len(),
            entries == old(entries),
            e.wf(),
            t == e.template@,
            ts == entries@.map_values(|x: RouteEntry<H>| x.template@),
            hs == entries@.map_values(|x: RouteEntry<H>| x.info.handler),
            ts.len() == entries@.len(),
            forall|j: int| 0 <= j < entries@.len() ==> (#[trigger] entries@[j]).wf(),
            first_same_key_from(ts, t, 0) == first_same_key_from(ts, t, i as int),
        decreases entries@.len() - i,
    {
        let cur: &RouteEntry<H> = &entries[i];
        proof {
            assert(cur.template@ == ts[i as int]);
        }
        if str_eq(cur.key.as_str(), e.key.as_str()) {
            proof {
                assert(spec_regex_of(ts[i as int]) == spec_regex_of(t));
                assert(first_same_key_from(ts, t, i as int) == Some(i as int));
            }
            let ghost e0 = entries@;
            entries[i] = e;
            proof {
                assert(entries@ == e0.update(i as int, entries@[i as int]));
                assert(entries@.map_values(|x: RouteEntry<H>| x.template@) =~~= ts.update(
                    i as int,
                    t,
                ));
                assert(entries@.map_values(|x: RouteEntry<H>| x.info.handler) =~~= hs.update(
                    i as int,
                    e.info.handler,
                ));
            }
            return ;
        }
        proof {
            if spec_regex_of(ts[i as int]) == spec_regex_of(t) {
                assert(encode_utf8(cur.key@) == encode_utf8(e.key@));
                crate::bytes::lemma_encode_injective(cur.key@, e.key@);
                assert(false);
            }
        }
        i = i + 1;
    }
    entries.push(e);
    proof {
        assert(entries@.map_values(|x: RouteEntry<H>| x.template@) =~~= ts.push(t));
        assert(entries@.map_values(|x: RouteEntry<H>| x.info.handler) =~~= hs.push(e.info.handler));
    }
}

impl<H> Default for Router<H> {
    /// An empty router: nothing registered for either method.
    fn default() -> (r: Router<H>)
        ensures
            r.wf(),
            r.get_templates() == Seq::<Seq<u8>>::empty(),
            r.post_templates() == Seq::<Seq<u8>>::empty(),
            r.get_handlers() == Seq::<H>::empty(),
            r.post_handlers() == Seq::<H>::empty(),
    {
        let r = Router { get_entries: Vec::new(), post_entries: Vec::new() };
        proof {
            assert(r.get_templates() =~= Seq::<Seq<u8>>::empty());
            assert(r.post_templates() =~= Seq::<Seq<u8>>::empty());
            assert(r.get_handlers() =~= Seq::<H>::empty());
            assert(r.post_handlers() =~= Seq::<H>::empty());
        }
        r
    }
}

/// The parameter bindings extracted from a path: for each position-to-name
/// entry, the path segment at that position, positions out of range skipped.
pub open spec fn spec_extract_from(
    pairs: Seq<(int, Seq<u8>)>,
    i: int,
    parts: Seq<Seq<u8>>,
    acc: Seq<(Seq<u8>, Seq<u8>)>,
) -> Seq<(Seq<u8>, Seq<u8>)>
    decreases pairs.len() - i,
{
    if i < 0 || i >= pairs.len() {
        acc
    } else {
        let pos = pairs[i].0;
        let name = pairs[i].1;
        let acc2 = if 0 <= pos < parts.len() && valid_utf8(parts[pos]) {
            assoc_insert(acc, name, parts[pos])
        } else {
            acc
        };
        spec_extract_from(pairs, i + 1, parts, acc2)
    }
}

pub open spec fn spec_extract(pairs: Seq<(int, Seq<u8>)>, path: Seq<u8>) -> Seq<(Seq<u8>, Seq<u8>)> {
    spec_extract_from(pairs, 0, spec_segments(spec_normalize(path)), Seq::empty())
}

/// Extract the named path parameters of a matched route from a concrete path.
pub fn extract_path_params(path: &str, params_pos: &PosMap) -> (r: StrMap)
    ensures
        r@ == spec_extract(params_pos@, path.spec_bytes()),
{
    let norm = normalize_path(path);
    let nb = vstd::slice::slice_to_vec(norm.as_bytes());
    let parts = split_slash(&nb);
    let ghost pv = parts@.map_values(|s: Vec<u8>| s@);
    let mut r = StrMap::new();
    let mut i: usize = 0;
    let n = params_pos.len();
    while i < n
        invariant
            i <= n,
            n == params_pos@.len(),
            pv == parts@.map_values(|s: Vec<u8>| s@),
            pv == spec_segments(spec_normalize(path.spec_bytes())),
            pv.len() == parts@.len(),
            spec_extract_from(params_pos@, 0, pv, Seq::empty()) == spec_extract_from(
                params_pos@,
                i as int,
                pv,
                r@,
            ),
        decreases n - i,
    {
        let ghost acc0 = r@;
        let pos = params_pos.position_at(i);
        let name = params_pos.name_at(i);
        if pos < parts.len() {
            let part: &Vec<u8> = &parts[pos];
            proof {
                assert(part@ == pv[pos as int]);
            }
            match bytes_to_string(part) {
                Some(value) => {
                    r.insert(name.clone(), value);
                },
                None => {},
            }
        }
        proof {
            assert(spec_extract_from(params_pos@, i as int, pv, acc0) == spec_extract_from(
                params_pos@,
                i + 1,
                pv,
                r@,
            ));
        }
        i = i + 1;
    }
    r
}

} // verus!
