//! The router: a tree of nodes built from an ordered parser cascade.
//!
//! Registration walks the tree segment by segment, creating missing nodes
//! through the cascade; lookup walks it taking at each level the first child
//! (in insertion order) that accepts the segment, collecting captures.
use vstd::prelude::*;
use vstd::string::StringSliceAdditionalSpecFns;
use vstd::utf8::*;

use crate::capture::{captures_view, Captures};
use crate::matcher::{CaptureSpec, Matcher};
use crate::node::{
    captureless, cascade_captureless, extends, first_accepting, frames, grown, insertable,
    lemma_first_accepting_prefix, trace,
    lemma_first_accepting_bounds, matched_depth, size, span_texts, value_at, walk, Node,
};
use crate::parser::{first_parser, lemma_first_parser_from, parse_segment, Parser};
use crate::segment::{
    int_spans, is_segment, lemma_path_spans_are_segments, path_spans, segment_spans,
    segment_str,
};

verus! {

/// The bytes of the literal `"/"` from which the root's matcher is parsed.
pub open spec fn root_literal() -> Seq<u8> {
    encode_utf8(seq!['/'])
}

/// The segments of the path bytes `b`, left to right.
pub open spec fn segments_of(b: Seq<u8>) -> Seq<Seq<u8>> {
    span_texts(b, path_spans(b))
}

/// The capture `c`, taken from a segment starting at `offset`, as a list of
/// zero or one captures with spans over the whole path.
pub open spec fn shifted(c: Option<CaptureSpec>, offset: int) -> Seq<CaptureSpec> {
    match c {
        Some(x) => seq![(x.0, (offset + x.1.0, offset + x.1.1))],
        None => seq![],
    }
}

/// The result `r` with `prefix` put before its captures.
pub open spec fn with_prefix<T>(prefix: Seq<CaptureSpec>, r: Option<(T, Seq<CaptureSpec>)>) -> Option<
    (T, Seq<CaptureSpec>),
> {
    match r {
        Some(x) => Some((x.0, prefix + x.1)),
        None => None,
    }
}

/// What looking up the segments `spans` of the path `b` from `node` yields:
/// the value reached and the captures taken on the way, or nothing when
/// some segment is accepted by no child or the node reached holds no value.
pub open spec fn route<T>(node: Node<T>, b: Seq<u8>, spans: Seq<(int, int)>) -> Option<
    (T, Seq<CaptureSpec>),
>
    decreases spans.len(),
{
    if spans.len() == 0 {
        match node.value {
            Some(v) => Some((v, seq![])),
            None => None,
        }
    } else {
        let seg = b.subrange(spans[0].0, spans[0].1);
        let k = first_accepting(node.children@, seg);
        if k < node.children@.len() {
            let child = node.children@[k];
            with_prefix(
                shifted(child.matcher.captured(seg), spans[0].0),
                route(child, b, spans.drop_first()),
            )
        } else {
            None
        }
    }
}

/// A router from paths to values of type `T`.
///
/// The parsers are tried in the order given, for every segment that needs a
/// new node: put the most specific first, as a parser that accepts anything
/// shadows all those after it.
pub struct Router<T> {
    root: Node<T>,
    parsers: Vec<Box<dyn Parser>>,
}

impl<T> Router<T> {
    /// The tree of the router.
    pub closed spec fn tree(&self) -> Node<T> {
        self.root
    }

    /// The parser cascade of the router, in order.
    pub closed spec fn cascade(&self) -> Seq<Box<dyn Parser>> {
        self.parsers@
    }

    /// The root node of the tree.
    pub fn root(&self) -> (r: &Node<T>)
        ensures
            *r == self.tree(),
    {
        &self.root
    }

    /// Creates a router using `parsers`, or `None` when no parser of the
    /// cascade parses the root literal `"/"`.
    pub fn try_new(parsers: Vec<Box<dyn Parser>>) -> (r: Option<Self>)
        ensures
            r is Some <==> first_parser(parsers@, root_literal()) < parsers@.len(),
            r matches Some(router) ==> {
                &&& router.cascade() == parsers@
                &&& router.tree().children@.len() == 0
                &&& router.tree().value is None
                &&& cascade_captureless(parsers@) ==> captureless(router.tree())
            },
    {
        proof {
            reveal_strlit("/");
            assert("/"@ =~= seq!['/']);
        }
        let parsed = parse_segment(parsers.as_slice(), "/");
        if parsed.is_none() {
            return None;
        }
        Some(Self::new(parsers))
    }

    /// Creates a router using `parsers`; some parser of the cascade must
    /// parse the root literal `"/"`.
    pub fn new(parsers: Vec<Box<dyn Parser>>) -> (r: Self)
        requires
            first_parser(parsers@, root_literal()) < parsers@.len(),
        ensures
            r.cascade() == parsers@,
            r.tree().children@.len() == 0,
            r.tree().value is None,
            cascade_captureless(parsers@) ==> captureless(r.tree()),
    {
        proof {
            reveal_strlit("/");
            assert("/"@ =~= seq!['/']);
        }
        let parsed = parse_segment(parsers.as_slice(), "/");
        let root = Node::new(parsed);
        proof {
            if cascade_captureless(parsers@) {
                let fp = first_parser(parsers@, root_literal());
                lemma_first_parser_from(parsers@, root_literal(), 0);
                assert forall|t: Seq<u8>| (#[trigger] root.matcher.captured(t)) is None by {
                    assert(parsers@[fp].made_captures(root_literal(), t) is None);
                }
            }
        }
        Router { root, parsers }
    }

    /// Replaces the value `v` stored under `path` (or its absence) with
    /// `f(v)`, creating the nodes that the path lacks.
    pub fn update<F: FnOnce(Option<T>) -> T>(&mut self, path: &str, f: F)
        requires
            insertable(old(self).tree(), segments_of(path.spec_bytes()), old(self).cascade()),
            f.requires((value_at(old(self).tree(), segments_of(path.spec_bytes())),)),
        ensures
            ({
                let segs = segments_of(path.spec_bytes());
                &&& walk(final(self).tree(), segs) matches Some(n) && n.value matches Some(v)
                    && f.ensures((value_at(old(self).tree(), segs),), v)
                &&& size(final(self).tree()) == size(old(self).tree()) + segs.len()
                    - matched_depth(old(self).tree(), segs)
            }),
            final(self).cascade() == old(self).cascade(),
            captureless(old(self).tree()) && cascade_captureless(old(self).cascade()) ==> captureless(
                final(self).tree(),
            ),
            frames(old(self).tree(), final(self).tree(), segments_of(path.spec_bytes())),
            extends(old(self).tree(), final(self).tree()),
            grown(
                old(self).tree(),
                final(self).tree(),
                segments_of(path.spec_bytes()),
                old(self).cascade(),
            ),
            forall|q: Seq<u8>|
                #![trigger route(final(self).tree(), q, path_spans(q))]
                trace(old(self).tree(), segments_of(q)) is Some && trace(
                    old(self).tree(),
                    segments_of(q),
                ) != trace(old(self).tree(), segments_of(path.spec_bytes())) ==> route(
                    final(self).tree(),
                    q,
                    path_spans(q),
                ) == route(old(self).tree(), q, path_spans(q)),
    {
        let spans = segment_spans(path);
        proof {
            lemma_path_spans_are_segments(path.spec_bytes());
            assert(span_texts(path.spec_bytes(), int_spans(spans@)).subrange(
                0,
                spans@.len() as int,
            ) =~= segments_of(path.spec_bytes()));
            assert forall|j: int| 0 <= j < spans@.len() implies is_segment(
                path.spec_bytes(),
                #[trigger] spans@[j].0 as int,
                spans@[j].1 as int,
            ) by {
                assert(int_spans(spans@)[j] == path_spans(path.spec_bytes())[j]);
            }
        }
        self.root.update_at(path, &spans, 0, self.parsers.as_slice(), f);
        proof {
            let segs = segments_of(path.spec_bytes());
            assert forall|q: Seq<u8>|
                trace(old(self).tree(), segments_of(q)) is Some && trace(
                    old(self).tree(),
                    segments_of(q),
                ) != trace(old(self).tree(), segs) implies #[trigger] route(
                self.tree(),
                q,
                path_spans(q),
            ) == route(old(self).tree(), q, path_spans(q)) by {
                assert(value_at(self.tree(), segments_of(q)) == value_at(
                    old(self).tree(),
                    segments_of(q),
                ));
                lemma_route_kept(old(self).tree(), self.tree(), q, path_spans(q));
            }
        }
    }

    /// Stores `t` under `path`, replacing any value stored there before,
    /// and creating the nodes that the path lacks.
    pub fn insert(&mut self, path: &str, t: T)
        requires
            insertable(old(self).tree(), segments_of(path.spec_bytes()), old(self).cascade()),
        ensures
            value_at(final(self).tree(), segments_of(path.spec_bytes())) == Some(t),
            size(final(self).tree()) == size(old(self).tree()) + segments_of(path.spec_bytes()).len()
                - matched_depth(old(self).tree(), segments_of(path.spec_bytes())),
            final(self).cascade() == old(self).cascade(),
            captureless(old(self).tree()) && cascade_captureless(old(self).cascade()) ==> captureless(
                final(self).tree(),
            ),
            frames(old(self).tree(), final(self).tree(), segments_of(path.spec_bytes())),
            extends(old(self).tree(), final(self).tree()),
            grown(
                old(self).tree(),
                final(self).tree(),
                segments_of(path.spec_bytes()),
                old(self).cascade(),
            ),
            forall|q: Seq<u8>|
                #![trigger route(final(self).tree(), q, path_spans(q))]
                trace(old(self).tree(), segments_of(q)) is Some && trace(
                    old(self).tree(),
                    segments_of(q),
                ) != trace(old(self).tree(), segments_of(path.spec_bytes())) ==> route(
                    final(self).tree(),
                    q,
                    path_spans(q),
                ) == route(old(self).tree(), q, path_spans(q)),
    {
        let f = move |prior: Option<T>| -> (r: T)
            ensures
                r == t,
            { t };
        self.update(path, f);
    }

    /// Looks `path` up: the value stored at the node that its segments lead
    /// to, taking at each level the first child that accepts the segment, with
    /// the captures taken on the way as spans over `path`.
    ///
    /// Returns `None` when some segment is accepted by no child, or when the
    /// node reached holds no value.
    pub fn lookup<'a>(&'a self, path: &str) -> (r: Option<(&'a T, Captures<'a>)>)
        ensures
            match r {
                None => route(self.tree(), path.spec_bytes(), path_spans(path.spec_bytes())) is None,
                Some(x) => route(self.tree(), path.spec_bytes(), path_spans(path.spec_bytes()))
                    == Some((*x.0, captures_view(x.1@))),
            },
    {
        let ghost b = path.spec_bytes();
        let spans = segment_spans(path);
        let ghost sp = int_spans(spans@);
        proof {
            lemma_path_spans_are_segments(b);
        }
        let mut current: &Node<T> = &self.root;
        let mut captures: Captures<'a> = Vec::new();
        let mut i: usize = 0;
        proof {
            assert(sp.subrange(0, sp.len() as int) =~= sp);
            assert(captures_view(captures@) =~= Seq::<CaptureSpec>::empty());
            match route(self.root, b, sp) {
                Some(y) => {
                    assert(Seq::<CaptureSpec>::empty() + y.1 =~= y.1);
                },
                None => {},
            }
        }
        while i < spans.len()
            invariant
                b == path.spec_bytes(),
                sp == int_spans(spans@),
                sp == path_spans(b),
                i <= spans@.len(),
                forall|j: int|
                    0 <= j < path_spans(b).len() ==> is_segment(
                        b,
                        #[trigger] path_spans(b)[j].0,
                        path_spans(b)[j].1,
                    ),
                route(self.root, b, sp) == with_prefix(
                    captures_view(captures@),
                    route(*current, b, sp.subrange(i as int, sp.len() as int)),
                ),
            decreases spans@.len() - i,
        {
            let (s, e) = spans[i];
            assert(sp[i as int] == (s as int, e as int));
            let seg = segment_str(path, s, e);
            let ghost rest = sp.subrange(i as int, sp.len() as int);
            assert(rest.drop_first() =~= sp.subrange(i + 1, sp.len() as int));
            assert(rest[0] == (s as int, e as int));
            match current.find_child(seg) {
                None => {
                    return None;
                },
                Some(k) => {
                    let child: &'a Node<T> = &current.children[k];
                    let c = child.matcher.capture(seg);
                    let ghost before = captures@;
                    match c {
                        Some(x) => {
                            captures.push((x.0, (s + x.1.0, s + x.1.1)));
                            assert(captures_view(captures@) =~= captures_view(before) + shifted(
                                child.matcher.captured(seg.spec_bytes()),
                                s as int,
                            ));
                        },
                        None => {
                            assert(captures_view(captures@) =~= captures_view(before) + shifted(
                                child.matcher.captured(seg.spec_bytes()),
                                s as int,
                            ));
                        },
                    }
                    proof {
                        let p = captures_view(before);
                        let q = shifted(child.matcher.captured(seg.spec_bytes()), s as int);
                        let x = route(*child, b, sp.subrange(i + 1, sp.len() as int));
                        assert(route(*current, b, rest) == with_prefix(q, x));
                        match x {
                            Some(y) => {
                                assert(p + (q + y.1) =~= (p + q) + y.1);
                            },
                            None => {},
                        }
                    }
                    current = child;
                },
            }
            i = i + 1;
        }
        assert(sp.subrange(i as int, sp.len() as int) =~= Seq::<(int, int)>::empty());
        match current.value.as_ref() {
            None => None,
            Some(v) => {
                assert(captures_view(captures@) + seq![] =~= captures_view(captures@));
                Some((v, captures))
            },
        }
    }
}

proof fn lemma_span_texts_step(b: Seq<u8>, sp: Seq<(int, int)>)
    requires
        sp.len() > 0,
    ensures
        span_texts(b, sp).len() == sp.len(),
        span_texts(b, sp)[0] == b.subrange(sp[0].0, sp[0].1),
        span_texts(b, sp).drop_first() == span_texts(b, sp.drop_first()),
{
    assert(span_texts(b, sp).drop_first() =~= span_texts(b, sp.drop_first()));
}

/// Looking up reaches a value exactly where a value is stored, and it is
/// that value.
proof fn lemma_route_value<T>(node: Node<T>, b: Seq<u8>, sp: Seq<(int, int)>)
    ensures
        route(node, b, sp) is Some <==> value_at(node, span_texts(b, sp)) is Some,
        route(node, b, sp) matches Some(r) ==> value_at(node, span_texts(b, sp)) == Some(r.0),
    decreases sp.len(),
{
    if sp.len() == 0 {
        assert(span_texts(b, sp).len() == 0);
    } else {
        lemma_span_texts_step(b, sp);
        let seg = b.subrange(sp[0].0, sp[0].1);
        let k = first_accepting(node.children@, seg);
        if k < node.children@.len() {
            lemma_route_value(node.children@[k], b, sp.drop_first());
        }
    }
}

/// A lookup that reaches an existing node of `before` finds the same value
/// and captures in a tree `after` that extends it, when the value there is
/// the same.
proof fn lemma_route_kept<T>(before: Node<T>, after: Node<T>, b: Seq<u8>, sp: Seq<(int, int)>)
    requires
        extends(before, after),
        trace(before, span_texts(b, sp)) is Some,
        value_at(after, span_texts(b, sp)) == value_at(before, span_texts(b, sp)),
    ensures
        route(after, b, sp) == route(before, b, sp),
    decreases sp.len(),
{
    if sp.len() == 0 {
        assert(span_texts(b, sp).len() == 0);
    } else {
        lemma_span_texts_step(b, sp);
        let seg = b.subrange(sp[0].0, sp[0].1);
        let k = first_accepting(before.children@, seg);
        lemma_first_accepting_bounds(before.children@, seg);
        assert(k < before.children@.len());
        assert forall|j: int| 0 <= j < before.children@.len() implies (
        #[trigger] before.children@[j]).matcher == after.children@[j].matcher by {
            assert(extends(before.children@[j], after.children@[j]));
        }
        lemma_first_accepting_prefix(before.children@, after.children@, seg, 0);
        assert(extends(before.children@[k], after.children@[k]));
        lemma_route_kept(before.children@[k], after.children@[k], b, sp.drop_first());
    }
}

/// In a tree whose matchers take no capture, looking up collects none.
proof fn lemma_route_captureless<T>(node: Node<T>, b: Seq<u8>, sp: Seq<(int, int)>)
    requires
        captureless(node),
    ensures
        route(node, b, sp) matches Some(r) ==> r.1 == Seq::<CaptureSpec>::empty(),
    decreases sp.len(),
{
    if sp.len() > 0 {
        let seg = b.subrange(sp[0].0, sp[0].1);
        let k = first_accepting(node.children@, seg);
        if k < node.children@.len() {
            lemma_first_accepting_bounds(node.children@, seg);
            let child = node.children@[k];
            assert(captureless(child));
            assert(child.matcher.captured(seg) is None);
            lemma_route_captureless(child, b, sp.drop_first());
            match route(child, b, sp.drop_first()) {
                Some(r) => {
                    assert(Seq::<CaptureSpec>::empty() + r.1 =~= r.1);
                },
                None => {},
            }
        }
    }
}

/// A path that leads to a node is matched to its full length.
proof fn lemma_walk_full_depth<T>(node: Node<T>, segs: Seq<Seq<u8>>)
    requires
        walk(node, segs) is Some,
    ensures
        matched_depth(node, segs) == segs.len(),
    decreases segs.len(),
{
    if segs.len() > 0 {
        let k = first_accepting(node.children@, segs[0]);
        lemma_walk_full_depth(node.children@[k], segs.drop_first());
    }
}

/// Looking a path up in a router that stores `v` under it yields `v`; when
/// no matcher of the router takes a capture (as when every parser of its
/// cascade makes static matchers), the captures are empty.
pub proof fn law_insert_then_lookup<T>(router: Router<T>, path: &str, v: T)
    requires
        value_at(router.tree(), segments_of(path.spec_bytes())) == Some(v),
    ensures
        route(router.tree(), path.spec_bytes(), path_spans(path.spec_bytes())) matches Some(r)
            && r.0 == v,
        captureless(router.tree()) ==> route(
            router.tree(),
            path.spec_bytes(),
            path_spans(path.spec_bytes()),
        ) == Some((v, Seq::<CaptureSpec>::empty())),
{
    let b = path.spec_bytes();
    lemma_route_value(router.tree(), b, path_spans(b));
    if captureless(router.tree()) {
        lemma_route_captureless(router.tree(), b, path_spans(b));
    }
}

/// Storing under a path that already holds a value creates no node: the
/// tree keeps its size, and looking the path up yields the new value.
pub proof fn law_reinsert_replaces<T>(before: Router<T>, after: Router<T>, path: &str, v: T)
    requires
        value_at(before.tree(), segments_of(path.spec_bytes())) is Some,
        value_at(after.tree(), segments_of(path.spec_bytes())) == Some(v),
        size(after.tree()) == size(before.tree()) + segments_of(path.spec_bytes()).len()
            - matched_depth(before.tree(), segments_of(path.spec_bytes())),
    ensures
        size(after.tree()) == size(before.tree()),
        route(after.tree(), path.spec_bytes(), path_spans(path.spec_bytes())) matches Some(r)
            && r.0 == v,
{
    let segs = segments_of(path.spec_bytes());
    lemma_walk_full_depth(before.tree(), segs);
    law_insert_then_lookup(after, path, v);
}

} // verus!
