//! Parsers turn literal route segments into matchers at registration time.
//!
//! Parsers are tried in order; the first that yields a matcher wins. Their
//! cost is paid once, when a route is registered, never while routing.
use vstd::prelude::*;
use vstd::string::StringSliceAdditionalSpecFns;
use vstd::utf8::*;

use crate::matcher::{CaptureSpec, DynamicMatcher, Matcher, StaticMatcher};
use crate::segment::lemma_boundary_after_ascii;

verus! {

broadcast use {vstd::utf8::encode_utf8_valid_utf8, vstd::utf8::encode_utf8_decode_utf8};

/// The byte that opens a dynamic segment literal (`:`).
pub const PARAM_MARK: u8 = 58;

/// Conversion of a literal segment into a `Matcher`.
pub trait Parser: Send + Sync {
    /// Whether the literal segment with bytes `literal` yields a matcher.
    spec fn parses(&self, literal: Seq<u8>) -> bool;

    /// Whether the matcher made from `literal` accepts `segment`.
    spec fn made_accepts(&self, literal: Seq<u8>, segment: Seq<u8>) -> bool;

    /// The capture that the matcher made from `literal` takes from `segment`.
    spec fn made_captures(&self, literal: Seq<u8>, segment: Seq<u8>) -> Option<CaptureSpec>;

    /// Attempts to parse a `Matcher` out of a segment literal.
    ///
    /// A matcher made from a literal accepts that literal.
    fn parse(&self, segment: &str) -> (r: Option<Box<dyn Matcher>>)
        ensures
            r is Some <==> self.parses(segment.spec_bytes()),
            r matches Some(m) ==> {
                &&& m.accepts(segment.spec_bytes())
                &&& forall|s: Seq<u8>| #[trigger]
                    m.accepts(s) == self.made_accepts(segment.spec_bytes(), s)
                &&& forall|s: Seq<u8>| #[trigger]
                    m.captured(s) == self.made_captures(segment.spec_bytes(), s)
            },
    ;
}

/// Parser that turns every literal into a `StaticMatcher`.
pub struct StaticParser;

impl Parser for StaticParser {
    open spec fn parses(&self, literal: Seq<u8>) -> bool {
        true
    }

    open spec fn made_accepts(&self, literal: Seq<u8>, segment: Seq<u8>) -> bool {
        segment == literal
    }

    open spec fn made_captures(&self, literal: Seq<u8>, segment: Seq<u8>) -> Option<CaptureSpec> {
        None
    }

    fn parse(&self, segment: &str) -> (r: Option<Box<dyn Matcher>>) {
        let m = StaticMatcher::new(segment);
        Some(Box::new(m))
    }
}

/// Parser of `:name` literals into a `DynamicMatcher` capturing under `name`.
pub struct DynamicParser;

impl Parser for DynamicParser {
    open spec fn parses(&self, literal: Seq<u8>) -> bool {
        literal.len() > 1 && literal[0] == PARAM_MARK
    }

    open spec fn made_accepts(&self, literal: Seq<u8>, segment: Seq<u8>) -> bool {
        true
    }

    open spec fn made_captures(&self, literal: Seq<u8>, segment: Seq<u8>) -> Option<CaptureSpec> {
        Some((decode_utf8(literal.subrange(1, literal.len() as int)), (0, segment.len() as int)))
    }

    fn parse(&self, segment: &str) -> (r: Option<Box<dyn Matcher>>) {
        let b = segment.as_bytes();
        if b.len() < 2 || b[0] != PARAM_MARK {
            return None;
        }
        proof {
            lemma_boundary_after_ascii(segment.spec_bytes());
        }
        let (_, field) = segment.split_at(1);
        assert(field.spec_bytes() =~= segment.spec_bytes().subrange(1, b@.len() as int));
        let m = DynamicMatcher::new(field);
        Some(Box::new(m))
    }
}

/// Index of the first parser of `parsers`, from `i` on, that parses `literal`;
/// `parsers.len()` when there is none.
pub open spec fn first_parser_from(parsers: Seq<Box<dyn Parser>>, literal: Seq<u8>, i: int) -> int
    decreases parsers.len() - i,
{
    if i >= parsers.len() {
        parsers.len() as int
    } else if parsers[i].parses(literal) {
        i
    } else {
        first_parser_from(parsers, literal, i + 1)
    }
}

/// Index of the first parser of `parsers` that parses `literal`.
pub open spec fn first_parser(parsers: Seq<Box<dyn Parser>>, literal: Seq<u8>) -> int {
    first_parser_from(parsers, literal, 0)
}

/// Bounds and meaning of `first_parser_from`.
pub proof fn lemma_first_parser_from(parsers: Seq<Box<dyn Parser>>, literal: Seq<u8>, i: int)
    requires
        0 <= i <= parsers.len(),
    ensures
        i <= first_parser_from(parsers, literal, i) <= parsers.len(),
        first_parser_from(parsers, literal, i) < parsers.len() ==> parsers[first_parser_from(
            parsers,
            literal,
            i,
        )].parses(literal),
        forall|j: int|
            i <= j < first_parser_from(parsers, literal, i) ==> !(#[trigger] parsers[j].parses(
                literal,
            )),
    decreases parsers.len() - i,
{
    if i < parsers.len() && !parsers[i].parses(literal) {
        lemma_first_parser_from(parsers, literal, i + 1);
    }
}

/// Runs the cascade `parsers` on the literal `segment`: the first parser that
/// yields a matcher wins.
pub fn parse_segment(parsers: &[Box<dyn Parser>], segment: &str) -> (r: Option<Box<dyn Matcher>>)
    ensures
        r is Some <==> first_parser(parsers@, segment.spec_bytes()) < parsers@.len(),
        r matches Some(m) ==> {
            &&& m.accepts(segment.spec_bytes())
            &&& forall|t: Seq<u8>| #[trigger]
                m.accepts(t) == parsers@[first_parser(parsers@, segment.spec_bytes())].made_accepts(
                    segment.spec_bytes(),
                    t,
                )
            &&& forall|t: Seq<u8>| #[trigger]
                m.captured(t) == parsers@[first_parser(
                    parsers@,
                    segment.spec_bytes(),
                )].made_captures(segment.spec_bytes(), t)
        },
{
    let ghost lit = segment.spec_bytes();
    let mut i: usize = 0;
    while i < parsers.len()
        invariant
            i <= parsers@.len(),
            lit == segment.spec_bytes(),
            first_parser(parsers@, lit) == first_parser_from(parsers@, lit, i as int),
        decreases parsers@.len() - i,
    {
        let b: &Box<dyn Parser> = &parsers[i];
        assert(*b == parsers@[i as int]);
        let r = b.parse(segment);
        if r.is_some() {
            assert(first_parser_from(parsers@, lit, i as int) == i);
            proof {
                let m = r->0;
                assert forall|t: Seq<u8>| #[trigger]
                    m.accepts(t) == parsers@[i as int].made_accepts(lit, t) by {
                    assert(m.accepts(t) == b.made_accepts(lit, t));
                }
                assert forall|t: Seq<u8>| #[trigger]
                    m.captured(t) == parsers@[i as int].made_captures(lit, t) by {
                    assert(m.captured(t) == b.made_captures(lit, t));
                }
            }
            return r;
        }
        assert(!parsers@[i as int].parses(lit));
        assert(first_parser_from(parsers@, lit, i as int) == first_parser_from(parsers@, lit, i + 1));
        i = i + 1;
    }
    None
}

} // verus!
