//! Splitting a path into its non-empty `/`-delimited segments.
//!
//! Segments are described by half-open byte spans into the path, so that
//! captures can point back into the exact string that was routed.
use vstd::prelude::*;
use vstd::string::StringSliceAdditionalSpecFns;
use vstd::utf8::*;

verus! {

broadcast use vstd::utf8::encode_utf8_valid_utf8;

/// The byte that separates segments (`/`).
pub const SEPARATOR: u8 = 47;

/// The spans of a run that is open at `start` (a run is empty when `start == i`).
pub open spec fn closed_run(start: int, i: int) -> Seq<(int, int)> {
    if start < i {
        seq![(start, i)]
    } else {
        seq![]
    }
}

/// Spans of the segments of `b` found from position `i` on, where the
/// current run of non-separator bytes began at `start`.
pub open spec fn spans_from(b: Seq<u8>, i: int, start: int) -> Seq<(int, int)>
    decreases b.len() - i,
{
    if i >= b.len() {
        closed_run(start, i)
    } else if b[i] == SEPARATOR {
        closed_run(start, i) + spans_from(b, i + 1, i + 1)
    } else {
        spans_from(b, i + 1, start)
    }
}

/// Spans of the non-empty segments of the path bytes `b`, left to right.
pub open spec fn path_spans(b: Seq<u8>) -> Seq<(int, int)> {
    spans_from(b, 0, 0)
}

/// The span `[s, e)` of `b` is a maximal non-empty run without a separator.
pub open spec fn is_segment(b: Seq<u8>, s: int, e: int) -> bool {
    &&& 0 <= s < e <= b.len()
    &&& (s == 0 || b[s - 1] == SEPARATOR)
    &&& (e == b.len() || b[e] == SEPARATOR)
    &&& forall|j: int| s <= j < e ==> b[j] != SEPARATOR
}

/// Spans held as machine integers, read as mathematical ones.
pub open spec fn int_spans(v: Seq<(usize, usize)>) -> Seq<(int, int)> {
    v.map_values(|p: (usize, usize)| (p.0 as int, p.1 as int))
}

proof fn lemma_spans_from_are_segments(b: Seq<u8>, i: int, start: int)
    requires
        0 <= start <= i <= b.len(),
        start == 0 || b[start - 1] == SEPARATOR,
        forall|j: int| start <= j < i ==> b[j] != SEPARATOR,
    ensures
        forall|k: int|
            0 <= k < spans_from(b, i, start).len() ==> is_segment(
                b,
                #[trigger] spans_from(b, i, start)[k].0,
                spans_from(b, i, start)[k].1,
            ),
    decreases b.len() - i,
{
    if i >= b.len() {
        if start < i {
            assert(spans_from(b, i, start) =~= seq![(start, i)]);
            assert(is_segment(b, start, i));
        } else {
            assert(spans_from(b, i, start) =~= Seq::<(int, int)>::empty());
        }
    } else if b[i] == SEPARATOR {
        lemma_spans_from_are_segments(b, i + 1, i + 1);
        let rest = spans_from(b, i + 1, i + 1);
        let head = closed_run(start, i);
        let all = head + rest;
        assert(spans_from(b, i, start) == all);
        assert(start < i ==> is_segment(b, start, i));
        assert forall|k: int| 0 <= k < all.len() implies is_segment(
            b,
            #[trigger] all[k].0,
            all[k].1,
        ) by {
            if k >= head.len() {
                assert(all[k] == rest[k - head.len()]);
            } else {
                assert(head =~= seq![(start, i)]);
                assert(all[k] == (start, i));
            }
        }
    } else {
        lemma_spans_from_are_segments(b, i + 1, start);
        assert(spans_from(b, i, start) == spans_from(b, i + 1, start));
    }
}

/// Every span of `path_spans(b)` is a segment of `b`.
pub proof fn lemma_path_spans_are_segments(b: Seq<u8>)
    ensures
        forall|k: int|
            0 <= k < path_spans(b).len() ==> is_segment(
                b,
                #[trigger] path_spans(b)[k].0,
                path_spans(b)[k].1,
            ),
{
    lemma_spans_from_are_segments(b, 0, 0);
}

/// Computes the spans of the non-empty segments of `path`, left to right.
///
/// Leading, trailing and repeated separators produce no segment.
pub fn segment_spans(path: &str) -> (r: Vec<(usize, usize)>)
    ensures
        int_spans(r@) == path_spans(path.spec_bytes()),
{
    let b = path.as_bytes();
    let ghost bs = path.spec_bytes();
    let mut out: Vec<(usize, usize)> = Vec::new();
    let mut i: usize = 0;
    let mut start: usize = 0;
    while i < b.len()
        invariant
            b@ == bs,
            start <= i <= bs.len(),
            int_spans(out@) + spans_from(bs, i as int, start as int) == path_spans(bs),
        decreases bs.len() - i,
    {
        if b[i] == SEPARATOR {
            let ghost before = out@;
            if start < i {
                out.push((start, i));
            }
            proof {
                assert(int_spans(out@) =~= int_spans(before) + closed_run(start as int, i as int)) by {
                    if start < i {
                        assert(int_spans(out@) =~= int_spans(before).push((start as int, i as int)));
                    }
                };
            }
            i = i + 1;
            start = i;
        } else {
            i = i + 1;
        }
    }
    proof {
        assert(int_spans(out@) + closed_run(start as int, i as int) == path_spans(bs));
    }
    let ghost before = out@;
    if start < i {
        out.push((start, i));
        proof {
            assert(int_spans(out@) =~= int_spans(before).push((start as int, i as int)));
        }
    }
    assert(int_spans(out@) =~= path_spans(bs));
    out
}

/// The position just past a leading ASCII byte is a character boundary.
pub proof fn lemma_boundary_after_ascii(b: Seq<u8>)
    requires
        valid_utf8(b),
        b.len() > 0,
        b[0] < 128,
    ensures
        is_char_boundary(b, 1),
{
    reveal_with_fuel(is_char_boundary, 2);
}

/// The text of the segment `[s, e)` of `path`, borrowed from `path`.
pub fn segment_str<'a>(path: &'a str, s: usize, e: usize) -> (r: &'a str)
    requires
        is_segment(path.spec_bytes(), s as int, e as int),
    ensures
        r.spec_bytes() == path.spec_bytes().subrange(s as int, e as int),
{
    let ghost bs = path.spec_bytes();
    let rest: &str = if s == 0 {
        path
    } else {
        proof {
            is_char_boundary_iff_not_is_continuation_byte(bs, s - 1);
        }
        let (_, t) = path.split_at(s - 1);
        proof {
            lemma_boundary_after_ascii(t.spec_bytes());
        }
        let (_, t2) = t.split_at(1);
        assert(t2.spec_bytes() =~= bs.subrange(s as int, bs.len() as int));
        t2
    };
    let ghost rb = rest.spec_bytes();
    assert(rb =~= bs.subrange(s as int, bs.len() as int));
    proof {
        if e as int == bs.len() {
            is_char_boundary_start_end_of_seq(rb);
        } else {
            is_char_boundary_iff_not_is_continuation_byte(rb, e - s);
        }
    }
    let (seg, _) = rest.split_at(e - s);
    assert(seg.spec_bytes() =~= bs.subrange(s as int, e as int));
    seg
}

} // verus!
