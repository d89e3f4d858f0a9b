//! Bulk copying of a subtree between arenas: the contiguous span of a
//! node is appended onto a destination arena, every internal index
//! reference rewritten by a constant shift.

use vstd::prelude::*;
use crate::expr::{
    Node, Order, ExprSet, Expr, Span, nodes_ok, nodes_hole_free, node_ok, node_hole_free, span_of,
};

verus! {

/// `n` with its child references moved from a slice starting at
/// `start` to one starting at `l0`.
pub open spec fn shift_node(n: Node, start: int, l0: int) -> Node {
    match n {
        Node::App(f, x) => Node::App((f - start + l0) as usize, (x - start + l0) as usize),
        Node::Lam(b) => Node::Lam((b - start + l0) as usize),
        _ => n,
    }
}

/// `sp` moved from a slice starting at `start` to one starting at
/// `l0`.
pub open spec fn shift_span(sp: Span, start: int, l0: int) -> Span {
    Span { start: (sp.start - start + l0) as usize, end: (sp.end - start + l0) as usize }
}

/// The nodes of `s[start..end]` with their references shifted to a
/// destination whose copy begins at index `l0`.
pub open spec fn copied_nodes(s: Seq<Node>, start: int, end: int, l0: int) -> Seq<Node> {
    Seq::new((end - start) as nat, |k: int| shift_node(s[start + k], start, l0))
}

/// The recorded spans of `s[start..end]`, shifted the same way.
pub open spec fn copied_spans(s: Seq<Node>, start: int, end: int, l0: int) -> Seq<Span> {
    Seq::new((end - start) as nat, |k: int| shift_span(span_of(s, start + k), start, l0))
}

/// Does node `n` keep its children inside `[start, end)`?
pub open spec fn node_closed(n: Node, start: int, end: int) -> bool {
    match n {
        Node::App(f, x) => start <= f < end && start <= x < end,
        Node::Lam(b) => start <= b < end,
        _ => true,
    }
}

/// Every node of `s[start..end]` keeps its children inside
/// `[start, end)`: the slice is a self-contained forest.
pub open spec fn span_closed(s: Seq<Node>, start: int, end: int) -> bool {
    forall|j: int| start <= j < end ==> node_closed(#[trigger] s[j], start, end)
}

/// Inside a self-contained slice, every span stays inside the slice.
pub proof fn lemma_span_within(s: Seq<Node>, start: int, end: int, j: int)
    requires
        nodes_ok(s, Order::ChildFirst),
        nodes_hole_free(s),
        s.len() <= usize::MAX,
        0 <= start <= j < end <= s.len(),
        span_closed(s, start, end),
    ensures
        start <= span_of(s, j).start,
        span_of(s, j).end <= end,
    decreases j,
{
    match s[j] {
        Node::App(f, x) => {
            lemma_span_within(s, start, end, f as int);
            lemma_span_within(s, start, end, x as int);
        },
        Node::Lam(b) => {
            lemma_span_within(s, start, end, b as int);
        },
        _ => {},
    }
}

/// In a child-first arena, a node's span depends only on the nodes up
/// to it: two arenas agreeing on a prefix record the same spans there.
pub proof fn lemma_span_of_agree(s1: Seq<Node>, s2: Seq<Node>, i: int)
    requires
        nodes_ok(s1, Order::ChildFirst),
        nodes_hole_free(s1),
        nodes_ok(s2, Order::ChildFirst),
        nodes_hole_free(s2),
        0 <= i < s1.len(),
        i < s2.len(),
        forall|j: int| 0 <= j <= i ==> s1[j] == s2[j],
    ensures
        span_of(s1, i) == span_of(s2, i),
    decreases i,
{
    match s1[i] {
        Node::App(f, x) => {
            lemma_span_of_agree(s1, s2, f as int);
            lemma_span_of_agree(s1, s2, x as int);
        },
        Node::Lam(b) => {
            lemma_span_of_agree(s1, s2, b as int);
        },
        _ => {},
    }
}

/// After appending a shifted self-contained slice to a child-first
/// arena, the spans of the appended nodes are the source spans,
/// shifted.
pub proof fn lemma_span_of_shifted(s: Seq<Node>, start: int, end: int, d: Seq<Node>, j: int)
    requires
        nodes_ok(s, Order::ChildFirst),
        nodes_hole_free(s),
        s.len() <= usize::MAX,
        0 <= start <= j < end <= s.len(),
        span_closed(s, start, end),
        nodes_ok(d, Order::ChildFirst),
        nodes_hole_free(d),
        d.len() <= usize::MAX,
        d.len() - (end - start) >= 0,
        forall|k: int|
            0 <= k < end - start ==> d[d.len() - (end - start) + k] == shift_node(
                #[trigger] s[start + k],
                start,
                d.len() - (end - start),
            ),
    ensures
        span_of(d, d.len() - (end - start) + (j - start)) == shift_span(
            span_of(s, j),
            start,
            d.len() - (end - start),
        ),
    decreases j,
{
    let l0 = d.len() - (end - start);
    lemma_span_within(s, start, end, j);
    match s[j] {
        Node::App(f, x) => {
            lemma_span_of_shifted(s, start, end, d, f as int);
            lemma_span_of_shifted(s, start, end, d, x as int);
            lemma_span_within(s, start, end, f as int);
            lemma_span_within(s, start, end, x as int);
            assert(d[l0 + (j - start)] == shift_node(s[start + (j - start)], start, l0));
        },
        Node::Lam(b) => {
            lemma_span_of_shifted(s, start, end, d, b as int);
            lemma_span_within(s, start, end, b as int);
            assert(d[l0 + (j - start)] == shift_node(s[start + (j - start)], start, l0));
        },
        _ => {
            assert(d[l0 + (j - start)] == shift_node(s[start + (j - start)], start, l0));
        },
    }
}

impl<'a> Expr<'a> {
    /// Copy this node's span onto the end of `other_set`, rewriting
    /// every internal reference by a constant shift. If exactly one of
    /// the two arenas is parent-first, the appended slice is reversed
    /// in place afterwards. Mixing an `Any`-ordered source into an
    /// ordered destination is refused with an error.
    pub fn copy_span(&self, other_set: &mut ExprSet) -> (r: Result<(), String>)
        requires
            self.set.wf(),
            self.set.spans is Some,
            self.idx < self.set.nodes@.len(),
            span_closed(
                self.set.nodes@,
                span_of(self.set.nodes@, self.idx as int).start as int,
                span_of(self.set.nodes@, self.idx as int).end as int,
            ),
            old(other_set).wf(),
            old(other_set).nodes@.len() + span_of(self.set.nodes@, self.idx as int).end
                - span_of(self.set.nodes@, self.idx as int).start <= usize::MAX,
        ensures
            ({
                let s = self.set.nodes@;
                let start = span_of(s, self.idx as int).start as int;
                let end = span_of(s, self.idx as int).end as int;
                let l0 = old(other_set).nodes@.len() as int;
                let cp = copied_nodes(s, start, end, l0);
                let reversed = old(other_set).order == Order::ParentFirst;
                &&& (r is Err <==> (self.set.order == Order::Any && old(other_set).order
                    != Order::Any))
                &&& final(other_set).order == old(other_set).order
                &&& (r is Err ==> *final(other_set) == *old(other_set))
                &&& (r is Ok ==> final(other_set).nodes@ == old(other_set).nodes@ + (
                if reversed {
                    cp.reverse()
                } else {
                    cp
                }))
                &&& (final(other_set).spans is Some <==> old(other_set).spans is Some)
                &&& (r is Ok && old(other_set).spans is Some ==> final(other_set).spans
                    .unwrap()@ == old(other_set).spans.unwrap()@ + copied_spans(s, start, end, l0))
                &&& (r is Ok && !reversed ==> final(other_set).wf())
            }),
    {
        let ghost s = self.set.nodes@;
        let ghost old_dest = *other_set;
        if matches!(self.set.order, Order::Any) && !matches!(other_set.order, Order::Any) {
            return Err("breaking order invariant: Any-ordered source".to_owned());
        }
        let n_src = self.set.nodes.len();
        let sp = self.get_span().unwrap();
        let l0 = other_set.nodes.len();
        let ghost start = sp.start as int;
        let ghost end = sp.end as int;
        proof {
            crate::cost::lemma_span_in_bounds(s, self.idx as int);
        }
        let mut j = sp.start;
        while j < sp.end
            invariant
                self.set.wf(),
                self.set.spans is Some,
                self.idx < s.len(),
                s == self.set.nodes@,
                s.len() <= usize::MAX,
                sp == span_of(s, self.idx as int),
                start == sp.start as int,
                end == sp.end as int,
                span_closed(s, start, end),
                start <= j as int <= end,
                end <= s.len(),
                l0 == old_dest.nodes@.len(),
                l0 + (end - start) <= usize::MAX,
                other_set.nodes@ == old_dest.nodes@ + copied_nodes(s, start, j as int, l0 as int),
                other_set.spans == old_dest.spans,
                other_set.order == old_dest.order,
                old_dest.wf(),
            decreases end - j,
        {
            let new_node = match &self.set.nodes[j] {
                Node::Prim(p) => Node::Prim(p.clone()),
                Node::Var(i) => Node::Var(*i),
                Node::IVar(i) => Node::IVar(*i),
                Node::App(f, x) => Node::App(*f - sp.start + l0, *x - sp.start + l0),
                Node::Lam(b) => Node::Lam(*b - sp.start + l0),
            };
            proof {
                assert(new_node == shift_node(s[j as int], start, l0 as int));
            }
            other_set.nodes.push(new_node);
            j = j + 1;
            proof {
                assert(other_set.nodes@ =~= old_dest.nodes@ + copied_nodes(
                    s,
                    start,
                    j as int,
                    l0 as int,
                ));
            }
        }
        if other_set.spans.is_some() {
            let mut dspans = other_set.spans.take().unwrap();
            let ghost old_dspans = dspans@;
            let src_spans = self.set.spans.as_ref().unwrap();
            let mut k = sp.start;
            while k < sp.end
                invariant
                    self.set.wf(),
                    self.set.spans is Some,
                    src_spans@ == self.set.spans.unwrap()@,
                    self.idx < s.len(),
                    s == self.set.nodes@,
                    s.len() <= usize::MAX,
                    sp == span_of(s, self.idx as int),
                    start == sp.start as int,
                    end == sp.end as int,
                    span_closed(s, start, end),
                    start <= k as int <= end,
                    end <= s.len(),
                    l0 + (end - start) <= usize::MAX,
                    dspans@ == old_dspans + copied_spans(s, start, k as int, l0 as int),
                decreases end - k,
            {
                let ssp = src_spans[k];
                proof {
                    lemma_span_within(s, start, end, k as int);
                }
                dspans.push(Span { start: ssp.start - sp.start + l0, end: ssp.end - sp.start + l0 });
                k = k + 1;
                proof {
                    assert(dspans@ =~= old_dspans + copied_spans(s, start, k as int, l0 as int));
                }
            }
            other_set.spans = Some(dspans);
        }
        let reversed = matches!(self.set.order, Order::ChildFirst) && matches!(
            other_set.order,
            Order::ParentFirst,
        ) || matches!(self.set.order, Order::ParentFirst) && matches!(
            other_set.order,
            Order::ChildFirst,
        );
        let ghost cp = copied_nodes(s, start, end, l0 as int);
        let ghost mid_spans = other_set.spans;
        if reversed {
            let mut tail: Vec<Node> = Vec::new();
            while other_set.nodes.len() > l0
                invariant
                    l0 <= other_set.nodes@.len(),
                    other_set.nodes@ + tail@.reverse() == old_dest.nodes@ + cp,
                    other_set.spans == mid_spans,
                    other_set.order == old_dest.order,
                decreases other_set.nodes@.len(),
            {
                let nd = other_set.nodes.pop().unwrap();
                tail.push(nd);
                proof {
                    assert(other_set.nodes@ + tail@.reverse() =~= old_dest.nodes@ + cp);
                }
            }
            proof {
                let total = old_dest.nodes@ + cp;
                assert forall|i: int| 0 <= i < l0 implies other_set.nodes@[i]
                    == old_dest.nodes@[i] by {
                    assert((other_set.nodes@ + tail@.reverse())[i] == total[i]);
                }
                assert(other_set.nodes@ =~= old_dest.nodes@);
                assert forall|i: int| 0 <= i < cp.len() implies tail@.reverse()[i] == cp[i] by {
                    assert((other_set.nodes@ + tail@.reverse())[l0 + i] == total[l0 + i]);
                }
                assert(tail@.reverse() =~= cp);
                assert(tail@ =~= cp.reverse());
            }
            other_set.nodes.append(&mut tail);
            proof {
                assert(other_set.nodes@ == old_dest.nodes@ + cp.reverse());
            }
        }
        proof {
            if !reversed {
                lemma_copy_dest_wf(s, start, end, old_dest, *other_set);
            }
        }
        Ok(())
    }
}

/// The destination arena stays well-formed when no reversal happened:
/// the shifted slice respects the destination's order tag, and its
/// spans (if tracked) are exactly the shifted source spans.
proof fn lemma_copy_dest_wf(s: Seq<Node>, start: int, end: int, d0: ExprSet, d1: ExprSet)
    requires
        nodes_ok(s, Order::ChildFirst),
        nodes_hole_free(s),
        s.len() <= usize::MAX,
        0 <= start <= end <= s.len(),
        span_closed(s, start, end),
        d0.wf(),
        d1.order == d0.order,
        d0.nodes@.len() + (end - start) <= usize::MAX,
        d1.nodes@ == d0.nodes@ + copied_nodes(s, start, end, d0.nodes@.len() as int),
        d0.order != Order::ParentFirst,
        d1.spans is Some <==> d0.spans is Some,
        d1.spans is Some ==> d1.spans.unwrap()@ == d0.spans.unwrap()@ + copied_spans(
            s,
            start,
            end,
            d0.nodes@.len() as int,
        ),
    ensures
        d1.wf(),
{
    let l0 = d0.nodes@.len() as int;
    let n = end - start;
    assert forall|i: int| 0 <= i < d1.nodes@.len() implies node_ok(
        #[trigger] d1.nodes@[i],
        i,
        d1.nodes@.len() as int,
        d1.order,
    ) by {
        if i < l0 {
            assert(node_ok(d0.nodes@[i], i, d0.nodes@.len() as int, d0.order));
        } else {
            let k = i - l0;
            assert(d1.nodes@[i] == shift_node(s[start + k], start, l0));
        }
    }
    if d1.spans is Some {
        assert(d0.order == Order::ChildFirst);
        assert forall|i: int| 0 <= i < d1.nodes@.len() implies node_hole_free(
            #[trigger] d1.nodes@[i],
        ) by {
            if i >= l0 {
                assert(d1.nodes@[i] == shift_node(s[start + (i - l0)], start, l0));
            }
        }
        assert forall|i: int| 0 <= i < d1.spans.unwrap()@.len() implies #[trigger] d1.spans
            .unwrap()@[i] == span_of(d1.nodes@, i) by {
            if i < l0 {
                lemma_span_of_agree(d0.nodes@, d1.nodes@, i);
            } else {
                lemma_span_of_shifted(s, start, end, d1.nodes@, start + (i - l0));
            }
        }
    }
}

} // verus!
