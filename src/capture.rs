//! Captures taken while routing, and retrieval of captured text by name.
//!
//! A capture is a name and a half-open byte span into the path that was
//! looked up; the span is valid for that exact string only.
use vstd::prelude::*;
use vstd::string::StringSliceAdditionalSpecFns;
use vstd::utf8::*;

use crate::matcher::CaptureSpec;

verus! {

broadcast use {vstd::utf8::encode_utf8_valid_utf8, vstd::utf8::encode_utf8_decode_utf8};

/// A captured name with the byte span of its value in the routed path.
pub type Capture<'a> = (&'a str, (usize, usize));

/// The captures of one lookup, in left-to-right segment order.
pub type Captures<'a> = Vec<Capture<'a>>;

/// Captures as handed out, read as names and mathematical spans.
pub open spec fn captures_view(c: Seq<Capture>) -> Seq<CaptureSpec> {
    c.map_values(|x: Capture| (x.0@, (x.1.0 as int, x.1.1 as int)))
}

/// Index of the first capture of `c`, from `i` on, named `name`;
/// `c.len()` when there is none.
pub open spec fn first_named_from(c: Seq<CaptureSpec>, name: Seq<char>, i: int) -> int
    decreases c.len() - i,
{
    if i >= c.len() {
        c.len() as int
    } else if c[i].0 == name {
        i
    } else {
        first_named_from(c, name, i + 1)
    }
}

/// Index of the first capture of `c` named `name`; `c.len()` when none is.
pub open spec fn first_named(c: Seq<CaptureSpec>, name: Seq<char>) -> int {
    first_named_from(c, name, 0)
}

/// The span `[s, e)` can be cut out of the UTF-8 bytes `b`.
pub open spec fn valid_span(b: Seq<u8>, s: int, e: int) -> bool {
    &&& 0 <= s <= e <= b.len()
    &&& is_char_boundary(b, s)
    &&& is_char_boundary(b, e)
}

/// Whether two byte slices hold the same bytes.
pub fn bytes_equal(a: &[u8], b: &[u8]) -> (r: bool)
    ensures
        r == (a@ == b@),
{
    if a.len() != b.len() {
        return false;
    }
    let mut i: usize = 0;
    while i < a.len()
        invariant
            a@.len() == b@.len(),
            i <= a@.len(),
            a@.subrange(0, i as int) == b@.subrange(0, i as int),
        decreases a@.len() - i,
    {
        if a[i] != b[i] {
            assert(a@[i as int] != b@[i as int]);
            return false;
        }
        assert(a@.subrange(0, i + 1) =~= a@.subrange(0, i as int).push(a@[i as int]));
        assert(b@.subrange(0, i + 1) =~= b@.subrange(0, i as int).push(b@[i as int]));
        i = i + 1;
    }
    assert(a@ =~= a@.subrange(0, i as int));
    assert(b@ =~= b@.subrange(0, i as int));
    true
}

/// The text of the span `[s, e)` of `path`.
fn span_str<'p>(path: &'p str, s: usize, e: usize) -> (r: &'p str)
    requires
        valid_span(path.spec_bytes(), s as int, e as int),
    ensures
        r.spec_bytes() == path.spec_bytes().subrange(s as int, e as int),
{
    let ghost b = path.spec_bytes();
    let (_, rest) = path.split_at(s);
    let ghost rb = rest.spec_bytes();
    assert(rb =~= b.subrange(s as int, b.len() as int));
    proof {
        if e as int == b.len() {
            is_char_boundary_start_end_of_seq(rb);
        } else {
            is_char_boundary_iff_not_is_continuation_byte(b, e as int);
            is_char_boundary_iff_not_is_continuation_byte(rb, e - s);
        }
    }
    let (r, _) = rest.split_at(e - s);
    assert(r.spec_bytes() =~= b.subrange(s as int, e as int));
    r
}

/// Retrieves the text captured under `name` from `path`: the first capture
/// of `capt` with that name gives the span; `None` when no capture has it.
pub fn find_capture<'a, 'p>(path: &'p str, capt: &'a [Capture<'a>], name: &str) -> (r: Option<
    &'p str,
>)
    requires
        first_named(captures_view(capt@), name@) < capt@.len() ==> valid_span(
            path.spec_bytes(),
            capt@[first_named(captures_view(capt@), name@)].1.0 as int,
            capt@[first_named(captures_view(capt@), name@)].1.1 as int,
        ),
    ensures
        ({
            let k = first_named(captures_view(capt@), name@);
            match r {
                None => k == capt@.len(),
                Some(t) => k < capt@.len() && t.spec_bytes() == path.spec_bytes().subrange(
                    capt@[k].1.0 as int,
                    capt@[k].1.1 as int,
                ),
            }
        }),
{
    let ghost cv = captures_view(capt@);
    let mut i: usize = 0;
    while i < capt.len()
        invariant
            i <= capt@.len(),
            cv == captures_view(capt@),
            first_named(cv, name@) == first_named_from(cv, name@, i as int),
            first_named(cv, name@) < capt@.len() ==> valid_span(
                path.spec_bytes(),
                capt@[first_named(cv, name@)].1.0 as int,
                capt@[first_named(cv, name@)].1.1 as int,
            ),
        decreases capt@.len() - i,
    {
        let c = capt[i];
        let same = bytes_equal(c.0.as_bytes(), name.as_bytes());
        assert(same == (c.0@ == name@)) by {
            if same {
                assert(decode_utf8(encode_utf8(c.0@)) == decode_utf8(encode_utf8(name@)));
            }
        }
        assert(cv[i as int].0 == c.0@);
        if same {
            assert(first_named_from(cv, name@, i as int) == i);
            return Some(span_str(path, c.1.0, c.1.1));
        }
        i = i + 1;
    }
    None
}

} // verus!
