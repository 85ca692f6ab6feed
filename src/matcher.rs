//! Matchers decide whether an incoming segment leads into a node.
//!
//! A matcher is fixed when its node is created; during routing it is asked
//! whether it accepts a segment and, optionally, for a named capture.
use vstd::prelude::*;
use vstd::string::StringSliceAdditionalSpecFns;
use vstd::utf8::*;

verus! {

/// A capture named `name` over the byte span `[span.0, span.1)`.
pub type CaptureSpec = (Seq<char>, (int, int));

/// Segment matching, consulted for every segment while routing.
///
/// `is_match` must be a function of the segment alone, and a capture, when
/// there is one, lies wholly inside the segment it was taken from.
pub trait Matcher: Send + Sync {
    /// Whether a segment whose UTF-8 bytes are `segment` is accepted.
    spec fn accepts(&self, segment: Seq<u8>) -> bool;

    /// The capture taken from the segment `segment`, with a span relative to it.
    spec fn captured(&self, segment: Seq<u8>) -> Option<CaptureSpec>;

    /// Retrieves a potential capture from a segment.
    fn capture<'a>(&'a self, segment: &str) -> (r: Option<(&'a str, (usize, usize))>)
        ensures
            match r {
                None => self.captured(segment.spec_bytes()) is None,
                Some(c) => {
                    &&& self.captured(segment.spec_bytes()) == Some(
                        (c.0@, (c.1.0 as int, c.1.1 as int)),
                    )
                    &&& c.1.0 <= c.1.1 <= segment.spec_bytes().len()
                },
            },
    ;

    /// Determines whether an incoming segment is accepted.
    fn is_match(&self, segment: &str) -> (r: bool)
        ensures
            r == self.accepts(segment.spec_bytes()),
    ;
}

/// Matcher of one literal segment, compared exactly; it captures nothing.
pub struct StaticMatcher {
    inner: String,
}

impl View for StaticMatcher {
    type V = Seq<char>;

    /// The literal that this matcher accepts.
    closed spec fn view(&self) -> Seq<char> {
        self.inner@
    }
}

impl StaticMatcher {
    /// Constructs a new `StaticMatcher` from a segment literal.
    pub fn new(s: &str) -> (r: Self)
        ensures
            r@ == s@,
    {
        StaticMatcher { inner: s.to_owned() }
    }
}

impl Matcher for StaticMatcher {
    open spec fn accepts(&self, segment: Seq<u8>) -> bool {
        segment == encode_utf8(self@)
    }

    open spec fn captured(&self, segment: Seq<u8>) -> Option<CaptureSpec> {
        None
    }

    fn capture<'a>(&'a self, segment: &str) -> (r: Option<(&'a str, (usize, usize))>) {
        None
    }

    fn is_match(&self, segment: &str) -> (r: bool) {
        crate::capture::bytes_equal(self.inner.as_str().as_bytes(), segment.as_bytes())
    }
}

/// Matcher that accepts every segment and captures it whole under a name.
pub struct DynamicMatcher {
    inner: String,
}

impl View for DynamicMatcher {
    type V = Seq<char>;

    /// The name under which segments are captured.
    closed spec fn view(&self) -> Seq<char> {
        self.inner@
    }
}

impl DynamicMatcher {
    /// Constructs a new `DynamicMatcher` capturing under the name `s`.
    pub fn new(s: &str) -> (r: Self)
        ensures
            r@ == s@,
    {
        DynamicMatcher { inner: s.to_owned() }
    }
}

impl Matcher for DynamicMatcher {
    open spec fn accepts(&self, segment: Seq<u8>) -> bool {
        true
    }

    open spec fn captured(&self, segment: Seq<u8>) -> Option<CaptureSpec> {
        Some((self@, (0, segment.len() as int)))
    }

    fn capture<'a>(&'a self, segment: &str) -> (r: Option<(&'a str, (usize, usize))>) {
        Some((self.inner.as_str(), (0, segment.as_bytes().len())))
    }

    fn is_match(&self, segment: &str) -> (r: bool) {
        true
    }
}

} // verus!
