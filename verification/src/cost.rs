//! The cost model: per-kind costs, a per-primitive cost table with a
//! default, and the two equivalent ways of costing a subtree (direct
//! recursion, and summation over a precomputed span).

use vstd::prelude::*;
use crate::expr::{Node, Order, Expr, Span, nodes_ok, nodes_hole_free, span_of};

verus! {

/// Per-node costs of a program: flat costs for the node kinds, plus a
/// per-primitive table with a default for unknown primitives.
pub struct ProgramCost {
    pub cost_lam: i32,
    pub cost_app: i32,
    pub cost_var: i32,
    pub cost_ivar: i32,
    pub cost_prim: Vec<(String, i32)>,
    pub cost_prim_default: i32,
}

/// Cost of the symbol `sym` in the table `pairs` (searched from the
/// end, so a later entry shadows an earlier one), or `default`.
pub open spec fn prim_cost_in(pairs: Seq<(String, i32)>, sym: Seq<char>, default: int) -> int
    decreases pairs.len(),
{
    if pairs.len() == 0 {
        default
    } else if pairs.last().0@ == sym {
        pairs.last().1 as int
    } else {
        prim_cost_in(pairs.drop_last(), sym, default)
    }
}

impl ProgramCost {
    /// Cost of the primitive named `sym`.
    pub open spec fn spec_cost_prim(self, sym: Seq<char>) -> int {
        prim_cost_in(self.cost_prim@, sym, self.cost_prim_default as int)
    }

    /// Build a cost model from its parts.
    pub fn new(
        cost_lam: i32,
        cost_app: i32,
        cost_var: i32,
        cost_ivar: i32,
        cost_prim: Vec<(String, i32)>,
        cost_prim_default: i32,
    ) -> (r: ProgramCost)
        ensures
            r == (ProgramCost {
                cost_lam,
                cost_app,
                cost_var,
                cost_ivar,
                cost_prim,
                cost_prim_default,
            }),
    {
        ProgramCost { cost_lam, cost_app, cost_var, cost_ivar, cost_prim, cost_prim_default }
    }

    /// Look up the cost of a primitive symbol, falling back to the
    /// default.
    pub fn cost_prim(&self, sym: &String) -> (r: i32)
        ensures
            r == self.spec_cost_prim(sym@),
    {
        let mut k: usize = self.cost_prim.len();
        proof {
            assert(self.cost_prim@.subrange(0, self.cost_prim@.len() as int) =~= self.cost_prim@);
        }
        while k > 0
            invariant
                k <= self.cost_prim@.len(),
                self.spec_cost_prim(sym@) == prim_cost_in(
                    self.cost_prim@.subrange(0, k as int),
                    sym@,
                    self.cost_prim_default as int,
                ),
            decreases k,
        {
            k = k - 1;
            proof {
                assert(self.cost_prim@.subrange(0, k as int + 1).drop_last()
                    =~= self.cost_prim@.subrange(0, k as int));
                assert(self.cost_prim@.subrange(0, k as int + 1).last()
                    == self.cost_prim@[k as int]);
            }
            if self.cost_prim[k].0 == *sym {
                return self.cost_prim[k].1;
            }
        }
        proof {
            assert(self.cost_prim@.subrange(0, 0) =~= Seq::<(String, i32)>::empty());
        }
        self.cost_prim_default
    }
}

/// The flat cost this model assigns to a single node.
pub open spec fn node_cost(n: Node, pc: ProgramCost) -> int {
    match n {
        Node::IVar(_) => pc.cost_ivar as int,
        Node::Var(_) => pc.cost_var as int,
        Node::Prim(p) => pc.spec_cost_prim(p@),
        Node::App(_, _) => pc.cost_app as int,
        Node::Lam(_) => pc.cost_lam as int,
    }
}

/// Total cost of the subtree at `i`, by direct recursion: the node's
/// own flat cost plus the cost of each child subtree.
pub open spec fn spec_cost_rec(s: Seq<Node>, i: int, pc: ProgramCost) -> int
    decreases (if nodes_ok(s, Order::ChildFirst) { i } else { s.len() - i })
        when 0 <= i < s.len() && nodes_hole_free(s)
            && (nodes_ok(s, Order::ChildFirst) || nodes_ok(s, Order::ParentFirst))
{
    match s[i] {
        Node::App(f, x) => pc.cost_app + spec_cost_rec(s, f as int, pc) + spec_cost_rec(
            s,
            x as int,
            pc,
        ),
        Node::Lam(b) => pc.cost_lam + spec_cost_rec(s, b as int, pc),
        n => node_cost(n, pc),
    }
}

/// Does evaluating `spec_cost_rec` at `i` stay within `i32` at every
/// intermediate sum, in the order the recursive implementation adds?
pub open spec fn cost_rec_fits(s: Seq<Node>, i: int, pc: ProgramCost) -> bool
    decreases (if nodes_ok(s, Order::ChildFirst) { i } else { s.len() - i })
        when 0 <= i < s.len() && nodes_hole_free(s)
            && (nodes_ok(s, Order::ChildFirst) || nodes_ok(s, Order::ParentFirst))
{
    match s[i] {
        Node::App(f, x) => {
            &&& cost_rec_fits(s, f as int, pc)
            &&& cost_rec_fits(s, x as int, pc)
            &&& i32::MIN <= pc.cost_app + spec_cost_rec(s, f as int, pc) <= i32::MAX
            &&& i32::MIN <= pc.cost_app + spec_cost_rec(s, f as int, pc) + spec_cost_rec(
                s,
                x as int,
                pc,
            ) <= i32::MAX
        },
        Node::Lam(b) => {
            &&& cost_rec_fits(s, b as int, pc)
            &&& i32::MIN <= pc.cost_lam + spec_cost_rec(s, b as int, pc) <= i32::MAX
        },
        _ => true,
    }
}

/// Sum of the flat node costs over the index range `[a, b)`.
pub open spec fn sum_costs(s: Seq<Node>, pc: ProgramCost, a: int, b: int) -> int
    decreases b - a,
{
    if a >= b {
        0
    } else {
        node_cost(s[a], pc) + sum_costs(s, pc, a + 1, b)
    }
}

/// Summing a range is the same as summing its two halves.
pub proof fn lemma_sum_split(s: Seq<Node>, pc: ProgramCost, a: int, b: int, c: int)
    requires
        a <= b <= c,
    ensures
        sum_costs(s, pc, a, c) == sum_costs(s, pc, a, b) + sum_costs(s, pc, b, c),
    decreases b - a,
{
    if a < b {
        lemma_sum_split(s, pc, a + 1, b, c);
    }
}

impl<'a> Expr<'a> {
    /// Total cost of this subtree by direct recursion.
    pub fn cost_rec(&self, cost_fn: &ProgramCost) -> (r: i32)
        requires
            self.set.wf(),
            self.set.order != Order::Any,
            nodes_hole_free(self.set.nodes@),
            self.idx < self.set.nodes@.len(),
            cost_rec_fits(self.set.nodes@, self.idx as int, *cost_fn),
        ensures
            r == spec_cost_rec(self.set.nodes@, self.idx as int, *cost_fn),
        decreases (if nodes_ok(self.set.nodes@, Order::ChildFirst) {
            self.idx as int
        } else {
            self.set.nodes@.len() - self.idx
        }),
    {
        match &self.set.nodes[self.idx] {
            Node::IVar(_) => cost_fn.cost_ivar,
            Node::Var(_) => cost_fn.cost_var,
            Node::Prim(p) => cost_fn.cost_prim(p),
            Node::App(f, x) => {
                let cf = self.get(*f).cost_rec(cost_fn);
                let cx = self.get(*x).cost_rec(cost_fn);
                cost_fn.cost_app + cf + cx
            },
            Node::Lam(b) => cost_fn.cost_lam + self.get(*b).cost_rec(cost_fn),
        }
    }

    /// Total cost of this subtree by summing flat node costs over its
    /// precomputed span.
    pub fn cost_span(&self, cost_fn: &ProgramCost) -> (r: i32)
        requires
            self.set.wf(),
            self.set.spans is Some,
            self.idx < self.set.nodes@.len(),
            forall|k: int|
                span_of(self.set.nodes@, self.idx as int).start <= k <= span_of(
                    self.set.nodes@,
                    self.idx as int,
                ).end ==> i32::MIN <= #[trigger] sum_costs(
                    self.set.nodes@,
                    *cost_fn,
                    span_of(self.set.nodes@, self.idx as int).start as int,
                    k,
                ) <= i32::MAX,
        ensures
            r == sum_costs(
                self.set.nodes@,
                *cost_fn,
                span_of(self.set.nodes@, self.idx as int).start as int,
                span_of(self.set.nodes@, self.idx as int).end as int,
            ),
    {
        let ghost s = self.set.nodes@;
        let n = self.set.nodes.len();
        let sp = self.get_span().unwrap();
        let ghost start = sp.start as int;
        let ghost end = sp.end as int;
        proof {
            lemma_span_in_bounds(s, self.idx as int);
        }
        let mut acc: i32 = 0;
        let mut k: usize = sp.start;
        while k < sp.end
            invariant
                self.set.wf(),
                self.set.spans is Some,
                self.idx < s.len(),
                s == self.set.nodes@,
                sp == span_of(s, self.idx as int),
                start == sp.start as int,
                end == sp.end as int,
                start <= k as int <= end,
                end <= s.len(),
                acc == sum_costs(s, *cost_fn, start, k as int),
                forall|j: int|
                    start <= j <= end ==> i32::MIN <= #[trigger] sum_costs(s, *cost_fn, start, j)
                        <= i32::MAX,
            decreases end - k,
        {
            let c = match &self.set.nodes[k] {
                Node::IVar(_) => cost_fn.cost_ivar,
                Node::Var(_) => cost_fn.cost_var,
                Node::Prim(p) => cost_fn.cost_prim(p),
                Node::App(_, _) => cost_fn.cost_app,
                Node::Lam(_) => cost_fn.cost_lam,
            };
            proof {
                lemma_sum_split(s, *cost_fn, start, k as int, k as int + 1);
                assert(sum_costs(s, *cost_fn, k as int + 1, k as int + 1) == 0);
                assert(sum_costs(s, *cost_fn, k as int, k as int + 1) == node_cost(
                    s[k as int],
                    *cost_fn,
                ));
            }
            acc = acc + c;
            k = k + 1;
        }
        acc
    }

    /// The recorded span of this node, if the arena tracks spans.
    pub fn get_span(&self) -> (r: Option<Span>)
        requires
            self.set.wf(),
            self.idx < self.set.nodes@.len(),
        ensures
            match r {
                Some(sp) => self.set.spans is Some && sp == span_of(
                    self.set.nodes@,
                    self.idx as int,
                ),
                None => self.set.spans is None,
            },
    {
        match &self.set.spans {
            Some(spans) => Some(spans[self.idx]),
            None => None,
        }
    }
}

/// A recorded span stays within the arena: `start <= i < end <= len`.
pub proof fn lemma_span_in_bounds(s: Seq<Node>, i: int)
    requires
        nodes_ok(s, Order::ChildFirst),
        nodes_hole_free(s),
        s.len() <= usize::MAX,
        0 <= i < s.len(),
    ensures
        0 <= span_of(s, i).start <= i,
        i < span_of(s, i).end <= s.len(),
    decreases i,
{
    match s[i] {
        Node::App(f, x) => {
            lemma_span_in_bounds(s, f as int);
            lemma_span_in_bounds(s, x as int);
        },
        Node::Lam(b) => {
            lemma_span_in_bounds(s, b as int);
        },
        _ => {},
    }
}

/// Is the subtree at `i` laid out tightly: its span holds exactly the
/// subtree's nodes, children side by side with the parent on top?
pub open spec fn tight(s: Seq<Node>, i: int) -> bool
    decreases i
        when 0 <= i < s.len() && nodes_ok(s, Order::ChildFirst) && nodes_hole_free(s)
{
    match s[i] {
        Node::App(f, x) => {
            let sf = span_of(s, f as int);
            let sx = span_of(s, x as int);
            &&& tight(s, f as int)
            &&& tight(s, x as int)
            &&& ((sf.end == sx.start && sx.end == i) || (sx.end == sf.start && sf.end == i))
        },
        Node::Lam(b) => {
            &&& tight(s, b as int)
            &&& span_of(s, b as int).end == i
        },
        _ => true,
    }
}

/// On a tightly laid out subtree, summing flat costs over the span
/// equals the direct recursive cost: the two cost strategies agree.
pub proof fn lemma_cost_span_eq_cost_rec(s: Seq<Node>, pc: ProgramCost, i: int)
    requires
        nodes_ok(s, Order::ChildFirst),
        nodes_hole_free(s),
        s.len() <= usize::MAX,
        0 <= i < s.len(),
        tight(s, i),
    ensures
        sum_costs(s, pc, span_of(s, i).start as int, span_of(s, i).end as int) == spec_cost_rec(
            s,
            i,
            pc,
        ),
    decreases i,
{
    let sp = span_of(s, i);
    match s[i] {
        Node::App(f, x) => {
            let sf = span_of(s, f as int);
            let sx = span_of(s, x as int);
            lemma_span_in_bounds(s, f as int);
            lemma_span_in_bounds(s, x as int);
            lemma_cost_span_eq_cost_rec(s, pc, f as int);
            lemma_cost_span_eq_cost_rec(s, pc, x as int);
            assert(sum_costs(s, pc, i + 1, i + 1) == 0);
            assert(sum_costs(s, pc, i, i + 1) == node_cost(s[i], pc));
            if sf.end == sx.start && sx.end == i {
                assert(sp.start == sf.start && sp.end == i + 1);
                lemma_sum_split(s, pc, sf.start as int, i, i + 1);
                lemma_sum_split(s, pc, sf.start as int, sx.start as int, i);
            } else {
                assert(sp.start == sx.start && sp.end == i + 1);
                lemma_sum_split(s, pc, sx.start as int, i, i + 1);
                lemma_sum_split(s, pc, sx.start as int, sf.start as int, i);
            }
        },
        Node::Lam(b) => {
            let sb = span_of(s, b as int);
            lemma_span_in_bounds(s, b as int);
            lemma_cost_span_eq_cost_rec(s, pc, b as int);
            assert(sp.start == sb.start && sp.end == i + 1);
            lemma_sum_split(s, pc, sb.start as int, i, i + 1);
            assert(sum_costs(s, pc, i + 1, i + 1) == 0);
            assert(sum_costs(s, pc, i, i + 1) == node_cost(s[i], pc));
        },
        _ => {
            assert(sum_costs(s, pc, i + 1, i + 1) == 0);
            assert(sum_costs(s, pc, i, i + 1) == node_cost(s[i], pc));
        },
    }
}

} // verus!
