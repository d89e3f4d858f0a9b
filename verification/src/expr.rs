//! The flat expression arena: append-only storage for lambda-calculus
//! nodes, addressed by integer index, with optional span tracking.

use vstd::prelude::*;

verus! {

/// Index of a node inside an `ExprSet` arena.
pub type Idx = usize;

/// Placeholder index standing for a hole; it never addresses a real node.
pub const HOLE: usize = usize::MAX;

/// A node of an untyped lambda-calculus expression.
///
/// * `Prim(symbol)`: a primitive (function or constant leaf).
/// * `Var(i)`: a de Bruijn index variable, written `$i`.
/// * `IVar(i)`: a de Bruijn-style variable reserved for invented
///   abstractions, written `#i`.
/// * `App(f, x)`: `f` applied to `x`, both arena indices.
/// * `Lam(b)`: a single-argument abstraction whose body is at index `b`.
#[derive(Debug, Clone, PartialEq, Eq)]
pub enum Node {
    Prim(String),
    Var(i32),
    IVar(i32),
    App(Idx, Idx),
    Lam(Idx),
}

/// The mathematical value of a `Node`: the same shape, with the
/// primitive symbol read as its character sequence.
pub enum NodeView {
    Prim(Seq<char>),
    Var(int),
    IVar(int),
    App(int, int),
    Lam(int),
}

impl View for Node {
    type V = NodeView;

    open spec fn view(&self) -> NodeView {
        match *self {
            Node::Prim(p) => NodeView::Prim(p@),
            Node::Var(i) => NodeView::Var(i as int),
            Node::IVar(i) => NodeView::IVar(i as int),
            Node::App(f, x) => NodeView::App(f as int, x as int),
            Node::Lam(b) => NodeView::Lam(b as int),
        }
    }
}

/// The views of all nodes of `s`, in order.
pub open spec fn views_of(s: Seq<Node>) -> Seq<NodeView> {
    s.map_values(|n: Node| n@)
}

/// The guaranteed relation between a node's index and its children's.
#[derive(Debug, Clone, Copy, PartialEq, Eq, Structural)]
pub enum Order {
    /// Children always have strictly smaller indices than their parent.
    ChildFirst,
    /// Children always have strictly larger indices than their parent.
    ParentFirst,
    /// No guaranteed relation.
    Any,
}

/// Index range `[start, end)` covering a node and all its descendants.
#[derive(Debug, Clone, Copy, PartialEq, Eq, Structural)]
pub struct Span {
    pub start: usize,
    pub end: usize,
}

/// An append-only arena of expression nodes, optionally tracking a span
/// for every node.
#[derive(Debug, Clone)]
pub struct ExprSet {
    pub nodes: Vec<Node>,
    pub spans: Option<Vec<Span>>,
    pub order: Order,
}

/// A non-owning view of one node of an arena.
#[derive(Clone, Copy)]
pub struct Expr<'a> {
    pub set: &'a ExprSet,
    pub idx: Idx,
}

/// Does child index `c` respect the placement rule for a node stored at
/// index `i` under the given order? A `HOLE` child is always accepted.
pub open spec fn child_ok(c: int, i: int, len: int, order: Order) -> bool {
    c == HOLE || match order {
        Order::ChildFirst => c < i,
        Order::ParentFirst => i < c && c < len,
        Order::Any => c < len,
    }
}

/// Do all children of node `n`, stored at index `i`, respect the order?
pub open spec fn node_ok(n: Node, i: int, len: int, order: Order) -> bool {
    match n {
        Node::App(f, x) => child_ok(f as int, i, len, order) && child_ok(x as int, i, len, order),
        Node::Lam(b) => child_ok(b as int, i, len, order),
        _ => true,
    }
}

/// Every node of `s` references only indices that the order tag allows.
pub open spec fn nodes_ok(s: Seq<Node>, order: Order) -> bool {
    forall|i: int| 0 <= i < s.len() ==> node_ok(#[trigger] s[i], i, s.len() as int, order)
}

/// No child of node `n` is a `HOLE`.
pub open spec fn node_hole_free(n: Node) -> bool {
    match n {
        Node::App(f, x) => f != HOLE && x != HOLE,
        Node::Lam(b) => b != HOLE,
        _ => true,
    }
}

/// Every node of `s` is free of `HOLE` children.
pub open spec fn nodes_hole_free(s: Seq<Node>) -> bool {
    forall|i: int| 0 <= i < s.len() ==> node_hole_free(#[trigger] s[i])
}

/// Minimum of two indices (specification form).
pub open spec fn umin(a: usize, b: usize) -> usize {
    if a <= b { a } else { b }
}

/// Maximum of two indices (specification form).
pub open spec fn umax(a: usize, b: usize) -> usize {
    if a >= b { a } else { b }
}

/// The span a child-first arena records for the node at index `i`:
/// the enclosing index range of `i` and its children's spans.
pub open spec fn span_of(s: Seq<Node>, i: int) -> Span
    decreases i
        when 0 <= i < s.len() && nodes_ok(s, Order::ChildFirst) && nodes_hole_free(s)
{
    match s[i] {
        Node::App(f, x) => {
            let sf = span_of(s, f as int);
            let sx = span_of(s, x as int);
            Span {
                start: umin(umin(sf.start, sx.start), i as usize),
                end: umax(umax(sf.end, sx.end), (i + 1) as usize),
            }
        },
        Node::Lam(b) => {
            let sb = span_of(s, b as int);
            Span { start: umin(sb.start, i as usize), end: umax(sb.end, (i + 1) as usize) }
        },
        _ => Span { start: i as usize, end: (i + 1) as usize },
    }
}

/// Are the recorded spans exactly those a child-first bottom-up
/// construction computes?
pub open spec fn spans_ok(es: ExprSet) -> bool {
    match es.spans {
        Some(sp) => {
            &&& sp@.len() == es.nodes@.len()
            &&& es.order == Order::ChildFirst
            &&& nodes_hole_free(es.nodes@)
            &&& forall|i: int|
                0 <= i < sp@.len() ==> #[trigger] sp@[i] == span_of(es.nodes@, i)
        },
        None => true,
    }
}

/// Well-formed arena: references respect the order tag, and the span
/// table (when present) is the child-first one.
pub open spec fn wf(es: ExprSet) -> bool {
    &&& nodes_ok(es.nodes@, es.order)
    &&& spans_ok(es)
}

impl ExprSet {
    /// The arena is well-formed (used by most operations' contracts).
    pub open spec fn wf(self) -> bool {
        wf(self)
    }

    /// Create an empty arena with the given order, tracking spans iff
    /// `spans` is set. Span tracking asks for a child-first arena, the
    /// natural result of bottom-up construction: appending a parent
    /// before its children leaves no child span to build on.
    pub fn empty(order: Order, spans: bool) -> (r: ExprSet)
        requires
            spans ==> order == Order::ChildFirst,
        ensures
            r.wf(),
            r.nodes@.len() == 0,
            r.order == order,
            r.spans is Some <==> spans,
    {
        let spans = if spans { Some(Vec::new()) } else { None };
        ExprSet { nodes: Vec::new(), spans, order }
    }

    /// Append a node, returning its index. Children must already be in
    /// the arena (no forward references); with spans enabled, `HOLE`
    /// children are not accepted, since a hole has no span.
    pub fn add(&mut self, node: Node) -> (r: Idx)
        requires
            old(self).wf(),
            old(self).nodes@.len() < HOLE,
            node_ok(node, old(self).nodes@.len() as int, old(self).nodes@.len() as int + 1, old(self).order),
            old(self).spans is Some ==> node_hole_free(node),
        ensures
            final(self).wf(),
            r == old(self).nodes@.len(),
            final(self).nodes@ == old(self).nodes@.push(node),
            final(self).order == old(self).order,
            final(self).spans is Some <==> old(self).spans is Some,
    {
        self.raw_push(node)
    }

    /// Append a node whose children already exist, whatever relation
    /// the order tag asks for globally (the parser builds bottom-up
    /// into any arena and restores the tag's guarantee at the end).
    #[verifier::spinoff_prover]
    pub(crate) fn raw_push(&mut self, node: Node) -> (r: Idx)
        requires
            old(self).nodes@.len() < HOLE,
            node_ok(node, old(self).nodes@.len() as int, old(self).nodes@.len() as int + 1, Order::ChildFirst)
                || node_ok(node, old(self).nodes@.len() as int, old(self).nodes@.len() as int + 1, old(self).order),
            old(self).spans is Some ==> old(self).wf() && node_hole_free(node),
        ensures
            r == old(self).nodes@.len(),
            final(self).nodes@ == old(self).nodes@.push(node),
            final(self).order == old(self).order,
            final(self).spans is Some <==> old(self).spans is Some,
            spans_ok(*final(self)),
            views_of(final(self).nodes@) == views_of(old(self).nodes@).push(node@),
            nodes_ok(old(self).nodes@, old(self).order) && node_ok(
                node,
                old(self).nodes@.len() as int,
                old(self).nodes@.len() as int + 1,
                old(self).order,
            ) ==> nodes_ok(final(self).nodes@, final(self).order),
    {
        let idx = self.nodes.len();
        let ghost old_nodes = self.nodes@;
        let ghost new_nodes = self.nodes@.push(node);
        if self.spans.is_some() {
            let mut spans = self.spans.take().unwrap();
            let span = match &node {
                Node::Var(_) | Node::Prim(_) | Node::IVar(_) => Span { start: idx, end: idx + 1 },
                Node::App(f, x) => {
                    let sf = spans[*f];
                    let sx = spans[*x];
                    Span {
                        start: min_usize(min_usize(sf.start, sx.start), idx),
                        end: max_usize(max_usize(sf.end, sx.end), idx + 1),
                    }
                },
                Node::Lam(b) => {
                    let sb = spans[*b];
                    Span { start: min_usize(sb.start, idx), end: max_usize(sb.end, idx + 1) }
                },
            };
            proof {
                assert forall|i: int| 0 <= i < old_nodes.len()
                    implies span_of(new_nodes, i) == span_of(old_nodes, i) by {
                    lemma_span_of_push(old_nodes, node, i);
                }
                assert(span_of(new_nodes, idx as int) == span);
            }
            spans.push(span);
            self.spans = Some(spans);
        }
        self.nodes.push(node);
        proof {
            assert(views_of(self.nodes@) =~= views_of(old(self).nodes@).push(node@));
        }
        idx
    }

    /// Borrow the node at `idx` as a view.
    pub fn get<'a>(&'a self, idx: Idx) -> (r: Expr<'a>)
        requires
            idx < self.nodes@.len(),
        ensures
            r.set == self,
            r.idx == idx,
    {
        Expr { set: self, idx }
    }

    /// Replace the node at `idx` in place. The replacement must respect
    /// the order tag; the caller is responsible for keeping any recorded
    /// spans meaningful (replacing a leaf by a leaf does).
    pub fn set_node(&mut self, idx: Idx, node: Node)
        requires
            idx < old(self).nodes@.len(),
            node_ok(node, idx as int, old(self).nodes@.len() as int, old(self).order),
            old(self).spans is Some ==> node matches Node::Var(_) || node matches Node::IVar(_)
                || node matches Node::Prim(_),
            old(self).spans is Some ==> old(self).nodes@[idx as int] matches Node::Var(_)
                || old(self).nodes@[idx as int] matches Node::IVar(_)
                || old(self).nodes@[idx as int] matches Node::Prim(_),
            old(self).wf(),
        ensures
            final(self).wf(),
            final(self).nodes@ == old(self).nodes@.update(idx as int, node),
            final(self).order == old(self).order,
            final(self).spans == old(self).spans,
    {
        let ghost new_nodes = self.nodes@.update(idx as int, node);
        self.nodes.set(idx, node);
        proof {
            if self.spans is Some {
                assert forall|i: int| 0 <= i < new_nodes.len()
                    implies span_of(new_nodes, i) == span_of(old(self).nodes@, i) by {
                    lemma_span_of_leaf_update(old(self).nodes@, idx as int, node, i);
                }
            }
        }
    }

    /// Borrow a contiguous range of nodes (a span's slice can be
    /// treated as a self-contained subtree).
    pub fn slice(&self, start: usize, end: usize) -> (r: &[Node])
        requires
            start <= end <= self.nodes@.len(),
        ensures
            r@ == self.nodes@.subrange(start as int, end as int),
    {
        vstd::slice::slice_subrange(self.nodes.as_slice(), start, end)
    }

    /// Number of nodes in the arena.
    pub fn len(&self) -> (r: usize)
        ensures
            r == self.nodes@.len(),
    {
        self.nodes.len()
    }
}

impl<'a> Expr<'a> {
    /// View of another node of the same arena.
    pub fn get(&self, idx: Idx) -> (r: Expr<'a>)
        ensures
            r.set == self.set,
            r.idx == idx,
    {
        Expr { set: self.set, idx }
    }

    /// The node this view points at.
    pub fn node(&self) -> (r: &'a Node)
        requires
            self.idx < self.set.nodes@.len(),
        ensures
            *r == self.set.nodes@[self.idx as int],
    {
        &self.set.nodes[self.idx]
    }
}

/// A mutable handle on one node of an arena.
pub struct ExprMut<'a> {
    pub set: &'a mut ExprSet,
    pub idx: Idx,
}

impl<'a> ExprMut<'a> {
    /// Give up mutability, keeping the position.
    pub fn as_expr(self) -> (r: Expr<'a>)
        ensures
            r.idx == self.idx,
            *r.set == *old(self.set),
    {
        let ExprMut { set, idx } = self;
        Expr { set, idx }
    }

    /// Read the node this handle points at.
    pub fn node(&self) -> (r: &Node)
        requires
            self.idx < old(self.set).nodes@.len(),
        ensures
            *r == old(self.set).nodes@[self.idx as int],
    {
        &self.set.nodes[self.idx]
    }

    /// Replace the node this handle points at (a leaf for a leaf, as
    /// `set_node` asks).
    pub fn write(&mut self, node: Node)
        requires
            old(self).idx < old(self).set.nodes@.len(),
            node_ok(
                node,
                old(self).idx as int,
                old(self).set.nodes@.len() as int,
                old(self).set.order,
            ),
            old(self).set.spans is Some ==> node matches Node::Var(_) || node matches Node::IVar(
                _,
            ) || node matches Node::Prim(_),
            old(self).set.spans is Some ==> old(self).set.nodes@[old(self).idx as int] matches
                Node::Var(_) || old(self).set.nodes@[old(self).idx as int] matches Node::IVar(_)
                || old(self).set.nodes@[old(self).idx as int] matches Node::Prim(_),
            old(self).set.wf(),
        ensures
            final(self).idx == old(self).idx,
            final(self).set.wf(),
            final(self).set.nodes@ == old(self).set.nodes@.update(old(self).idx as int, node),
            final(self).set.order == old(self).set.order,
            final(self).set.spans == old(self).set.spans,
    {
        let i = self.idx;
        self.set.set_node(i, node);
    }
}

impl ExprSet {
    /// A mutable handle on the node at `idx`.
    pub fn get_mut<'a>(&'a mut self, idx: Idx) -> (r: ExprMut<'a>)
        ensures
            r.idx == idx,
            *r.set == *old(self),
    {
        ExprMut { set: self, idx }
    }
}

/// Minimum of two indices.
pub fn min_usize(a: usize, b: usize) -> (r: usize)
    ensures
        r == umin(a, b),
{
    if a <= b { a } else { b }
}

/// Maximum of two indices.
pub fn max_usize(a: usize, b: usize) -> (r: usize)
    ensures
        r == umax(a, b),
{
    if a >= b { a } else { b }
}

/// Appending a node does not change the spans of the nodes already
/// present.
pub proof fn lemma_span_of_push(s: Seq<Node>, node: Node, i: int)
    requires
        nodes_ok(s, Order::ChildFirst),
        nodes_hole_free(s),
        node_ok(node, s.len() as int, s.len() as int + 1, Order::ChildFirst),
        node_hole_free(node),
        0 <= i < s.len(),
    ensures
        span_of(s.push(node), i) == span_of(s, i),
    decreases i,
{
    let t = s.push(node);
    assert(t[i] == s[i]);
    match s[i] {
        Node::App(f, x) => {
            lemma_span_of_push(s, node, f as int);
            lemma_span_of_push(s, node, x as int);
        },
        Node::Lam(b) => {
            lemma_span_of_push(s, node, b as int);
        },
        _ => {},
    }
}

/// Replacing a leaf by a leaf does not change any node's span.
pub proof fn lemma_span_of_leaf_update(s: Seq<Node>, j: int, node: Node, i: int)
    requires
        nodes_ok(s, Order::ChildFirst),
        nodes_hole_free(s),
        0 <= j < s.len(),
        s[j] matches Node::Var(_) || s[j] matches Node::IVar(_) || s[j] matches Node::Prim(_),
        node matches Node::Var(_) || node matches Node::IVar(_) || node matches Node::Prim(_),
        0 <= i < s.len(),
    ensures
        span_of(s.update(j, node), i) == span_of(s, i),
    decreases i,
{
    let t = s.update(j, node);
    if i == j {
        assert(span_of(t, i) == span_of(s, i));
    } else {
        assert(t[i] == s[i]);
        match s[i] {
            Node::App(f, x) => {
                lemma_span_of_leaf_update(s, j, node, f as int);
                lemma_span_of_leaf_update(s, j, node, x as int);
            },
            Node::Lam(b) => {
                lemma_span_of_leaf_update(s, j, node, b as int);
            },
            _ => {},
        }
    }
}

} // verus!
