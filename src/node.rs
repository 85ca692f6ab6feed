//! Vertices of the routing tree.
//!
//! A node owns its matcher, an optional stored value and its children in
//! insertion order; a parent exclusively owns its children.
use vstd::prelude::*;
use vstd::string::StringSliceAdditionalSpecFns;

use crate::matcher::{DynamicMatcher, Matcher};
use crate::parser::{first_parser, lemma_first_parser_from, parse_segment, Parser};
use crate::segment::{int_spans, is_segment, segment_str};

verus! {

/// A vertex of the routing tree.
pub struct Node<T> {
    /// The value stored at this node, if any.
    pub value: Option<T>,
    /// Decides which segments lead into this node; fixed at creation.
    pub matcher: Box<dyn Matcher>,
    /// Children, in the order in which they were added.
    pub children: Vec<Node<T>>,
}

/// Index of the first node of `nodes`, from `i` on, whose matcher accepts
/// `segment`; `nodes.len()` when there is none.
pub open spec fn first_accepting_from<T>(nodes: Seq<Node<T>>, segment: Seq<u8>, i: int) -> int
    decreases nodes.len() - i,
{
    if i >= nodes.len() {
        nodes.len() as int
    } else if nodes[i].matcher.accepts(segment) {
        i
    } else {
        first_accepting_from(nodes, segment, i + 1)
    }
}

/// Index of the first node of `nodes` whose matcher accepts `segment`;
/// `nodes.len()` when there is none.
pub open spec fn first_accepting<T>(nodes: Seq<Node<T>>, segment: Seq<u8>) -> int {
    first_accepting_from(nodes, segment, 0)
}

/// The node reached from `node` by following `segments`, taking at each step
/// the first child that accepts the segment.
pub open spec fn walk<T>(node: Node<T>, segments: Seq<Seq<u8>>) -> Option<Node<T>>
    decreases segments.len(),
{
    if segments.len() == 0 {
        Some(node)
    } else {
        let k = first_accepting(node.children@, segments[0]);
        if k < node.children@.len() {
            walk(node.children@[k], segments.drop_first())
        } else {
            None
        }
    }
}

/// The child indices taken when following `segments` from `node`, or
/// `None` when some segment is accepted by no child.
pub open spec fn trace<T>(node: Node<T>, segments: Seq<Seq<u8>>) -> Option<Seq<int>>
    decreases segments.len(),
{
    if segments.len() == 0 {
        Some(seq![])
    } else {
        let k = first_accepting(node.children@, segments[0]);
        if k < node.children@.len() {
            match trace(node.children@[k], segments.drop_first()) {
                Some(t) => Some(seq![k] + t),
                None => None,
            }
        } else {
            None
        }
    }
}

/// Following any path from `after` takes the same children and reaches the
/// same value as from `before`, except for the node at `target`, whose
/// value may differ; paths unknown to `before` may lead to new nodes.
pub open spec fn frames<T>(before: Node<T>, after: Node<T>, target: Seq<Seq<u8>>) -> bool {
    forall|other: Seq<Seq<u8>>|
        #![trigger trace(after, other)]
        #![trigger value_at(after, other)]
        trace(before, other) is Some ==> {
            &&& trace(after, other) == trace(before, other)
            &&& trace(before, other) != trace(before, target) ==> value_at(after, other)
                == value_at(before, other)
        }
}

/// The value stored at the node that `segments` lead to from `node`.
pub open spec fn value_at<T>(node: Node<T>, segments: Seq<Seq<u8>>) -> Option<T> {
    match walk(node, segments) {
        Some(n) => n.value,
        None => None,
    }
}

/// How many leading segments of `segments` lead to an existing node.
pub open spec fn matched_depth<T>(node: Node<T>, segments: Seq<Seq<u8>>) -> nat
    decreases segments.len(),
{
    if segments.len() == 0 {
        0
    } else {
        let k = first_accepting(node.children@, segments[0]);
        if k < node.children@.len() {
            1 + matched_depth(node.children@[k], segments.drop_first())
        } else {
            0
        }
    }
}

/// Every segment that no existing node accepts, on the way from `node`
/// along `segments`, is parsed by some parser of `parsers`.
pub open spec fn insertable<T>(
    node: Node<T>,
    segments: Seq<Seq<u8>>,
    parsers: Seq<Box<dyn Parser>>,
) -> bool
    decreases segments.len(),
{
    if segments.len() == 0 {
        true
    } else {
        let k = first_accepting(node.children@, segments[0]);
        if k < node.children@.len() {
            insertable(node.children@[k], segments.drop_first(), parsers)
        } else {
            forall|j: int|
                0 <= j < segments.len() ==> first_parser(parsers, #[trigger] segments[j])
                    < parsers.len()
        }
    }
}

/// Number of nodes in the tree rooted at `node`.
pub open spec fn size<T>(node: Node<T>) -> nat
    decreases node,
{
    1 + sizes(node.children@)
}

/// Number of nodes in the trees rooted at `nodes`.
pub open spec fn sizes<T>(nodes: Seq<Node<T>>) -> nat
    decreases nodes,
{
    if nodes.len() == 0 {
        0
    } else {
        sizes(nodes.drop_last()) + size(nodes.last())
    }
}

/// No matcher in the tree rooted at `node` ever takes a capture.
pub open spec fn captureless<T>(node: Node<T>) -> bool
    decreases node,
{
    &&& forall|t: Seq<u8>| (#[trigger] node.matcher.captured(t)) is None
    &&& forall|j: int|
        0 <= j < node.children@.len() ==> captureless(#[trigger] node.children@[j])
}

/// No parser of `parsers` makes a matcher that takes a capture.
pub open spec fn cascade_captureless(parsers: Seq<Box<dyn Parser>>) -> bool {
    forall|i: int, literal: Seq<u8>, t: Seq<u8>|
        0 <= i < parsers.len() ==> (#[trigger] parsers[i].made_captures(literal, t)) is None
}

/// `after` keeps the shape of `before`: the same matcher, and each child of
/// `before` at its index, itself kept in `after`; `after` may have more
/// children, after those of `before`.
pub open spec fn extends<T>(before: Node<T>, after: Node<T>) -> bool
    decreases before,
{
    &&& after.matcher == before.matcher
    &&& before.children@.len() <= after.children@.len()
    &&& forall|j: int|
        0 <= j < before.children@.len() ==> extends(
            #[trigger] before.children@[j],
            after.children@[j],
        )
}

/// `node` is a chain of fresh nodes made for `segments`: each has the matcher
/// that the first parser of `parsers` taking its segment makes from that
/// segment; all but the last hold no value and have the next as only child,
/// and the last has no child.
pub open spec fn chain<T>(
    node: Node<T>,
    segments: Seq<Seq<u8>>,
    parsers: Seq<Box<dyn Parser>>,
) -> bool
    decreases segments.len(),
{
    &&& segments.len() > 0
    &&& forall|t: Seq<u8>| #[trigger]
        node.matcher.accepts(t) == parsers[first_parser(parsers, segments[0])].made_accepts(
            segments[0],
            t,
        )
    &&& forall|t: Seq<u8>| #[trigger]
        node.matcher.captured(t) == parsers[first_parser(parsers, segments[0])].made_captures(
            segments[0],
            t,
        )
    &&& if segments.len() == 1 {
        node.children@.len() == 0
    } else {
        &&& node.value is None
        &&& node.children@.len() == 1
        &&& chain(node.children@[0], segments.drop_first(), parsers)
    }
}

/// `after` is `before` grown along `segments`: where the walk finds an
/// accepting child it goes on in that child, the number of children staying
/// the same; at the first segment that no child accepts, one child is
/// appended, the head of a `chain` made for the remaining segments.
pub open spec fn grown<T>(
    before: Node<T>,
    after: Node<T>,
    segments: Seq<Seq<u8>>,
    parsers: Seq<Box<dyn Parser>>,
) -> bool
    decreases segments.len(),
{
    if segments.len() == 0 {
        true
    } else {
        let k = first_accepting(before.children@, segments[0]);
        if k < before.children@.len() {
            &&& after.children@.len() == before.children@.len()
            &&& grown(before.children@[k], after.children@[k], segments.drop_first(), parsers)
        } else {
            &&& after.children@.len() == before.children@.len() + 1
            &&& chain(after.children@[before.children@.len() as int], segments, parsers)
        }
    }
}

/// Children kept at their indices, with their matchers, still select the
/// same first acceptor when it is one of them.
pub proof fn lemma_first_accepting_prefix<T>(
    a: Seq<Node<T>>,
    b: Seq<Node<T>>,
    segment: Seq<u8>,
    i: int,
)
    requires
        0 <= i <= a.len() <= b.len(),
        forall|j: int| 0 <= j < a.len() ==> (#[trigger] a[j]).matcher == b[j].matcher,
        first_accepting_from(a, segment, i) < a.len(),
    ensures
        first_accepting_from(b, segment, i) == first_accepting_from(a, segment, i),
    decreases a.len() - i,
{
    assert(a[i].matcher == b[i].matcher);
    if !a[i].matcher.accepts(segment) {
        lemma_first_accepting_prefix(a, b, segment, i + 1);
    }
}

/// Every node extends itself.
pub proof fn lemma_extends_refl<T>(node: Node<T>)
    ensures
        extends(node, node),
    decreases node,
{
    assert forall|j: int| 0 <= j < node.children@.len() implies extends(
        #[trigger] node.children@[j],
        node.children@[j],
    ) by {
        lemma_extends_refl(node.children@[j]);
    }
}

/// The texts of the spans `spans` of `b`.
pub open spec fn span_texts(b: Seq<u8>, spans: Seq<(int, int)>) -> Seq<Seq<u8>> {
    spans.map_values(|p: (int, int)| b.subrange(p.0, p.1))
}

proof fn lemma_first_accepting_from<T>(nodes: Seq<Node<T>>, segment: Seq<u8>, i: int)
    requires
        0 <= i <= nodes.len(),
    ensures
        i <= first_accepting_from(nodes, segment, i) <= nodes.len(),
        first_accepting_from(nodes, segment, i) < nodes.len() ==> nodes[first_accepting_from(
            nodes,
            segment,
            i,
        )].matcher.accepts(segment),
        forall|j: int|
            i <= j < first_accepting_from(nodes, segment, i) ==> !(
            #[trigger] nodes[j].matcher.accepts(segment)),
    decreases nodes.len() - i,
{
    if i < nodes.len() && !nodes[i].matcher.accepts(segment) {
        lemma_first_accepting_from(nodes, segment, i + 1);
    }
}

/// Two node sequences whose matchers agree select the same first child.
proof fn lemma_first_accepting_same_matchers<T>(
    a: Seq<Node<T>>,
    b: Seq<Node<T>>,
    segment: Seq<u8>,
    i: int,
)
    requires
        0 <= i <= a.len(),
        a.len() == b.len(),
        forall|j: int| 0 <= j < a.len() ==> (#[trigger] a[j]).matcher == b[j].matcher,
    ensures
        first_accepting_from(a, segment, i) == first_accepting_from(b, segment, i),
    decreases a.len() - i,
{
    if i < a.len() {
        assert(a[i].matcher == b[i].matcher);
        lemma_first_accepting_same_matchers(a, b, segment, i + 1);
    }
}

/// Appending a node that accepts `segment` to nodes none of which do makes
/// the new node the first to accept it.
proof fn lemma_first_accepting_push<T>(a: Seq<Node<T>>, x: Node<T>, segment: Seq<u8>, i: int)
    requires
        0 <= i <= a.len(),
        forall|j: int| i <= j < a.len() ==> !(#[trigger] a[j]).matcher.accepts(segment),
        x.matcher.accepts(segment),
    ensures
        first_accepting_from(a.push(x), segment, i) == a.len(),
    decreases a.len() - i,
{
    if i < a.len() {
        assert(a.push(x)[i] == a[i]);
        lemma_first_accepting_push(a, x, segment, i + 1);
    } else {
        assert(a.push(x)[i] == x);
    }
}

/// Appending a node does not change a first acceptor found before it.
proof fn lemma_first_accepting_push_found<T>(a: Seq<Node<T>>, x: Node<T>, segment: Seq<u8>, i: int)
    requires
        0 <= i <= a.len(),
        first_accepting_from(a, segment, i) < a.len(),
    ensures
        first_accepting_from(a.push(x), segment, i) == first_accepting_from(a, segment, i),
    decreases a.len() - i,
{
    assert(a.push(x)[i] == a[i]);
    if !a[i].matcher.accepts(segment) {
        lemma_first_accepting_push_found(a, x, segment, i + 1);
    }
}

proof fn lemma_sizes_update<T>(nodes: Seq<Node<T>>, k: int, x: Node<T>)
    requires
        0 <= k < nodes.len(),
    ensures
        sizes(nodes.update(k, x)) + size(nodes[k]) == sizes(nodes) + size(x),
    decreases nodes.len(),
{
    let u = nodes.update(k, x);
    if k == nodes.len() - 1 {
        assert(u.drop_last() =~= nodes.drop_last());
    } else {
        assert(u.drop_last() =~= nodes.drop_last().update(k, x));
        lemma_sizes_update(nodes.drop_last(), k, x);
    }
}

proof fn lemma_sizes_push<T>(nodes: Seq<Node<T>>, x: Node<T>)
    ensures
        sizes(nodes.push(x)) == sizes(nodes) + size(x),
{
    assert(nodes.push(x).drop_last() =~= nodes);
}

/// The first accepting node, when there is one, is a node of `nodes`.
pub proof fn lemma_first_accepting_bounds<T>(nodes: Seq<Node<T>>, segment: Seq<u8>)
    ensures
        0 <= first_accepting(nodes, segment) <= nodes.len(),
{
    lemma_first_accepting_from(nodes, segment, 0);
}

impl<T> Node<T> {
    /// Constructs a node with no value and no children that owns the matcher
    /// produced by the parser cascade.
    pub(crate) fn new(parsed: Option<Box<dyn Matcher>>) -> (r: Self)
        requires
            parsed is Some,
        ensures
            r.matcher == parsed->0,
            r.value is None,
            r.children@.len() == 0,
    {
        // Verus loses track of a boxed trait object placed directly in a
        // struct literal, but follows it through `swap`: so the node is made
        // with a placeholder matcher that the parsed one then replaces.
        let mut m = parsed.unwrap();
        let mut node = Node {
            value: None,
            matcher: Box::new(DynamicMatcher::new("")),
            children: Vec::new(),
        };
        core::mem::swap(&mut node.matcher, &mut m);
        node
    }

    /// Registers a child node after the existing ones.
    pub fn add_child(&mut self, child: Node<T>)
        ensures
            final(self).children@ == old(self).children@.push(child),
            final(self).value == old(self).value,
            final(self).matcher == old(self).matcher,
    {
        self.children.push(child);
    }

    /// The children of this node, in insertion order.
    pub fn children(&self) -> (r: &[Node<T>])
        ensures
            r@ == self.children@,
    {
        self.children.as_slice()
    }

    /// The matcher of this node.
    pub fn matcher(&self) -> (r: &Box<dyn Matcher>)
        ensures
            *r == self.matcher,
    {
        &self.matcher
    }

    /// The value stored at this node, if any.
    pub fn value(&self) -> (r: Option<&T>)
        ensures
            match r {
                Some(v) => self.value == Some(*v),
                None => self.value is None,
            },
    {
        self.value.as_ref()
    }

    /// Replaces the stored value (or its absence) `v` with `f(v)`.
    pub fn update<F: FnOnce(Option<T>) -> T>(&mut self, f: F)
        requires
            f.requires((old(self).value,)),
        ensures
            final(self).value matches Some(v) && f.ensures((old(self).value,), v),
            final(self).children == old(self).children,
            final(self).matcher == old(self).matcher,
    {
        let prior = self.value.take();
        let t = f(prior);
        self.value = Some(t);
    }

    /// Index of the first child whose matcher accepts `segment`, if any.
    pub fn find_child(&self, segment: &str) -> (r: Option<usize>)
        ensures
            match r {
                Some(i) => i == first_accepting(self.children@, segment.spec_bytes()) && i
                    < self.children@.len(),
                None => first_accepting(self.children@, segment.spec_bytes())
                    == self.children@.len(),
            },
    {
        let ghost seg = segment.spec_bytes();
        let mut i: usize = 0;
        while i < self.children.len()
            invariant
                i <= self.children@.len(),
                seg == segment.spec_bytes(),
                first_accepting(self.children@, seg) == first_accepting_from(
                    self.children@,
                    seg,
                    i as int,
                ),
            decreases self.children@.len() - i,
        {
            let child = &self.children[i];
            if child.matcher.is_match(segment) {
                return Some(i);
            }
            i = i + 1;
        }
        None
    }

    /// Walks from this node along the segments `spans[k..]` of `path`,
    /// creating each missing node from the cascade `parsers`, and replaces
    /// the value `v` of the node reached with `f(v)`.
    pub(crate) fn update_at<F: FnOnce(Option<T>) -> T>(
        &mut self,
        path: &str,
        spans: &Vec<(usize, usize)>,
        k: usize,
        parsers: &[Box<dyn Parser>],
        f: F,
    )
        requires
            k <= spans@.len(),
            forall|j: int|
                0 <= j < spans@.len() ==> is_segment(
                    path.spec_bytes(),
                    #[trigger] spans@[j].0 as int,
                    spans@[j].1 as int,
                ),
            insertable(
                *old(self),
                span_texts(path.spec_bytes(), int_spans(spans@)).subrange(
                    k as int,
                    spans@.len() as int,
                ),
                parsers@,
            ),
            f.requires(
                (
                    value_at(
                        *old(self),
                        span_texts(path.spec_bytes(), int_spans(spans@)).subrange(
                            k as int,
                            spans@.len() as int,
                        ),
                    ),
                ),
            ),
        ensures
            ({
                let segs = span_texts(path.spec_bytes(), int_spans(spans@)).subrange(
                    k as int,
                    spans@.len() as int,
                );
                &&& walk(*final(self), segs) matches Some(n) && n.value matches Some(v) && f.ensures(
                    (value_at(*old(self), segs),),
                    v,
                )
                &&& size(*final(self)) == size(*old(self)) + segs.len() - matched_depth(
                    *old(self),
                    segs,
                )
            }),
            final(self).matcher == old(self).matcher,
            k < spans@.len() ==> final(self).value == old(self).value,
            k == spans@.len() ==> final(self).children == old(self).children,
            extends(*old(self), *final(self)),
            grown(
                *old(self),
                *final(self),
                span_texts(path.spec_bytes(), int_spans(spans@)).subrange(
                    k as int,
                    spans@.len() as int,
                ),
                parsers@,
            ),
            captureless(*old(self)) && cascade_captureless(parsers@) ==> captureless(*final(self)),
            frames(
                *old(self),
                *final(self),
                span_texts(path.spec_bytes(), int_spans(spans@)).subrange(
                    k as int,
                    spans@.len() as int,
                ),
            ),
        decreases spans@.len() - k,
    {
        let ghost all = span_texts(path.spec_bytes(), int_spans(spans@));
        let ghost segs = all.subrange(k as int, spans@.len() as int);
        if k == spans.len() {
            assert(segs.len() == 0);
            self.update(f);
            assert(self.children@ == old(self).children@);
            assert(captureless(*old(self)) ==> captureless(*self));
            proof {
                lemma_extends_refl(*old(self));
            }
            assert forall|other: Seq<Seq<u8>>| trace(*old(self), other) is Some implies {
                &&& #[trigger] trace(*self, other) == trace(*old(self), other)
                &&& trace(*old(self), other) != trace(*old(self), segs) ==> value_at(*self, other)
                    == value_at(*old(self), other)
            } by {
                if other.len() > 0 {
                    assert(walk(*self, other) == walk(*old(self), other));
                }
            }
            return;
        }
        let ghost rest = all.subrange(k + 1, spans@.len() as int);
        assert(segs.drop_first() =~= rest);
        let (s, e) = spans[k];
        let seg = segment_str(path, s, e);
        assert(seg.spec_bytes() == segs[0]);
        let ghost old_children = self.children@;
        let found = self.find_child(seg);
        let idx: usize = match found {
            Some(i) => i,
            None => {
                assert(forall|j: int|
                    0 <= j < segs.len() ==> first_parser(parsers@, #[trigger] segs[j])
                        < parsers@.len());
                assert(first_parser(parsers@, segs[0]) < parsers@.len());
                let parsed = parse_segment(parsers, seg);
                let child = Node::new(parsed);
                proof {
                    if cascade_captureless(parsers@) {
                        let fp = first_parser(parsers@, segs[0]);
                        lemma_first_parser_from(parsers@, segs[0], 0);
                        assert forall|t: Seq<u8>| (#[trigger] child.matcher.captured(t)) is None by {
                            assert(parsers@[fp].made_captures(segs[0], t) is None);
                        }
                        assert(captureless(child));
                    }
                    lemma_first_accepting_from(old_children, segs[0], 0);
                    lemma_first_accepting_push(old_children, child, segs[0], 0);
                    lemma_sizes_push(old_children, child);
                    assert(forall|j: int| 0 <= j < rest.len() ==> #[trigger] rest[j] == segs[j + 1]);
                }
                self.children.push(child);
                self.children.len() - 1
            },
        };
        let ghost mid = self.children@;
        assert(first_accepting(mid, segs[0]) == idx);
        self.children[idx as usize].update_at(path, spans, k + 1, parsers, f);
        proof {
            let fin = self.children@;
            assert(fin == mid.update(idx as int, fin[idx as int]));
            lemma_first_accepting_same_matchers(mid, fin, segs[0], 0);
            lemma_sizes_update(mid, idx as int, fin[idx as int]);
            assert(walk(*self, segs) == walk(fin[idx as int], rest));
            let old_child_trace = if idx < old_children.len() {
                trace(old_children[idx as int], rest)
            } else {
                None
            };
            assert(idx < old_children.len() ==> trace(*old(self), segs) == match old_child_trace {
                Some(t) => Some(seq![idx as int] + t),
                None => None,
            });
            assert(idx == old_children.len() ==> trace(*old(self), segs) is None);
            assert forall|other: Seq<Seq<u8>>| trace(*old(self), other) is Some implies {
                &&& #[trigger] trace(*self, other) == trace(*old(self), other)
                &&& trace(*old(self), other) != trace(*old(self), segs) ==> value_at(*self, other)
                    == value_at(*old(self), other)
            } by {
                if other.len() > 0 {
                    let k2 = first_accepting(old_children, other[0]);
                    let rest2 = other.drop_first();
                    lemma_first_accepting_from(old_children, other[0], 0);
                    if idx == old_children.len() {
                        lemma_first_accepting_push_found(old_children, mid[idx as int], other[0], 0);
                        assert(mid[k2] == old_children[k2]);
                    } else {
                        assert(mid == old_children);
                    }
                    lemma_first_accepting_same_matchers(mid, fin, other[0], 0);
                    assert(first_accepting(fin, other[0]) == k2);
                    if k2 != idx {
                        assert(fin[k2] == mid[k2]);
                        assert(fin[k2] == old_children[k2]);
                    } else {
                        let t2 = trace(old_children[k2], rest2);
                        assert(trace(fin[k2], rest2) == t2);
                        if trace(*old(self), other) != trace(*old(self), segs) {
                            assert(t2 != old_child_trace) by {
                                if t2 == old_child_trace {
                                    assert(trace(*old(self), other) == trace(*old(self), segs));
                                }
                            }
                            assert(value_at(fin[k2], rest2) == value_at(old_children[k2], rest2));
                        }
                    }
                }
            }
            assert forall|j: int| 0 <= j < old_children.len() implies extends(
                #[trigger] old_children[j],
                fin[j],
            ) by {
                if j != idx {
                    assert(fin[j] == old_children[j]);
                    lemma_extends_refl(old_children[j]);
                }
            }
            assert(extends(*old(self), *self));
            if idx == old_children.len() {
                let nc = fin[idx as int];
                let fp = first_parser(parsers@, segs[0]);
                assert(nc.matcher == mid[idx as int].matcher);
                if rest.len() > 0 {
                    assert(grown(mid[idx as int], nc, rest, parsers@));
                    assert(first_accepting(mid[idx as int].children@, rest[0]) == 0);
                }
                assert(chain(nc, segs, parsers@));
            }
            assert(grown(*old(self), *self, segs, parsers@));
            if captureless(*old(self)) && cascade_captureless(parsers@) {
                assert forall|j: int| 0 <= j < mid.len() implies captureless(#[trigger] mid[j]) by {
                    if j < old_children.len() {
                        assert(mid[j] == old_children[j]);
                    }
                }
                assert forall|j: int| 0 <= j < fin.len() implies captureless(#[trigger] fin[j]) by {
                    if j != idx {
                        assert(fin[j] == mid[j]);
                    }
                }
                assert(captureless(*self));
            }
        }
    }
}

} // verus!
