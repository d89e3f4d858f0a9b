//! The arena-based unification engine: type terms live in one flat
//! append-only arena, and a polymorphic scheme is instantiated in
//! constant time by pairing its root index with a variable-renumbering
//! shift instead of copying nodes.

use vstd::prelude::*;
use crate::types::{Type, TypeView, UnifyErr, UnifyResult, type_views, lemma_type_views};
use crate::context::resolve_fuel;

verus! {

/// A node of the type arena: a type variable, or a named constructor
/// whose arguments are references into the same arena.
#[derive(Debug, Clone)]
pub enum TNode {
    Var(usize),
    Term(String, Vec<RawTypeRef>),
}

/// A bare index into the type arena, with no notion of variable
/// scope.
#[derive(Debug, Clone, Copy, PartialEq, Eq, Structural)]
pub struct RawTypeRef(pub usize);

/// A `RawTypeRef` plus a shift: a variable id `j` under shift `s`
/// denotes the logical variable `j + s`. Only the shift changes when
/// a scheme is instantiated.
#[derive(Debug, Clone, Copy, PartialEq, Eq, Structural)]
pub struct TypeRef {
    pub raw: RawTypeRef,
    pub shift: usize,
}

/// The type arena: nodes, a cache of the maximum variable id under
/// each node, the append-only binding log, and the next unused
/// logical variable id.
#[derive(Debug)]
pub struct TypeSet {
    pub nodes: Vec<TNode>,
    pub max_vars: Vec<Option<usize>>,
    pub subst: Vec<(usize, TypeRef)>,
    pub next_var: usize,
}

/// The mathematical value of a type arena.
pub struct TsView {
    pub nodes: Seq<TNode>,
    pub max_vars: Seq<Option<usize>>,
    pub subst: Seq<(usize, TypeRef)>,
    pub next_var: int,
}

impl View for TypeSet {
    type V = TsView;

    open spec fn view(&self) -> TsView {
        TsView {
            nodes: self.nodes@,
            max_vars: self.max_vars@,
            subst: self.subst@,
            next_var: self.next_var as int,
        }
    }
}

/// Position of the last (shadowing) binding for logical variable `v`
/// in the log, or `-1`.
pub open spec fn find_binding(s: Seq<(usize, TypeRef)>, v: int) -> int
    decreases s.len(),
{
    if s.len() == 0 {
        -1
    } else if s.last().0 == v {
        s.len() - 1
    } else {
        find_binding(s.drop_last(), v)
    }
}

/// What logical variable `v` is bound to, if anything.
pub open spec fn ts_get(s: Seq<(usize, TypeRef)>, v: int) -> Option<TypeRef> {
    let p = find_binding(s, v);
    if p >= 0 {
        Some(s[p].1)
    } else {
        None
    }
}

/// `find_binding` stays within the log and finds an entry for `v`.
pub proof fn lemma_find_binding(s: Seq<(usize, TypeRef)>, v: int)
    ensures
        -1 <= find_binding(s, v) < s.len(),
        find_binding(s, v) >= 0 ==> s[find_binding(s, v)].0 == v,
    decreases s.len(),
{
    if s.len() > 0 && s.last().0 != v {
        lemma_find_binding(s.drop_last(), v);
        if find_binding(s.drop_last(), v) >= 0 {
            assert(s.drop_last()[find_binding(s.drop_last(), v)] == s[find_binding(s, v)]);
        }
    }
}

/// Maximum variable id in the subterm rooted at `i`, or `None` for a
/// ground subterm.
pub open spec fn spec_max_var(nodes: Seq<TNode>, i: int) -> Option<int>
    decreases i, 1int, 0int,
        when 0 <= i < nodes.len() && nodes_child_first(nodes)
{
    match nodes[i] {
        TNode::Var(j) => Some(j as int),
        TNode::Term(_, args) => spec_max_var_list(nodes, args@, i),
    }
}

/// Maximum variable id over a list of child references, all below
/// bound `b`.
pub open spec fn spec_max_var_list(nodes: Seq<TNode>, args: Seq<RawTypeRef>, b: int) -> Option<
    int,
>
    decreases b, 0int, args.len(),
        when 0 <= b <= nodes.len() && nodes_child_first(nodes) && forall|k: int|
            0 <= k < args.len() ==> (#[trigger] args[k]).0 < b
{
    if args.len() == 0 {
        None
    } else {
        opt_max(
            spec_max_var_list(nodes, args.drop_last(), b),
            spec_max_var(nodes, args.last().0 as int),
        )
    }
}

/// The maximum variable id is itself a variable id: it fits `usize`.
pub proof fn lemma_mv_bounds(nodes: Seq<TNode>, i: int)
    requires
        nodes_child_first(nodes),
        0 <= i < nodes.len(),
    ensures
        match spec_max_var(nodes, i) {
            Some(m) => 0 <= m <= usize::MAX,
            None => true,
        },
    decreases i, 1int, 0int,
{
    match nodes[i] {
        TNode::Var(_) => {},
        TNode::Term(_, args) => {
            lemma_mv_list_bounds(nodes, args@, i);
        },
    }
}

/// As `lemma_mv_bounds`, over a child list.
pub proof fn lemma_mv_list_bounds(nodes: Seq<TNode>, args: Seq<RawTypeRef>, b: int)
    requires
        nodes_child_first(nodes),
        0 <= b <= nodes.len(),
        forall|k: int| 0 <= k < args.len() ==> (#[trigger] args[k]).0 < b,
    ensures
        match spec_max_var_list(nodes, args, b) {
            Some(m) => 0 <= m <= usize::MAX,
            None => true,
        },
    decreases b, 0int, args.len(),
{
    if args.len() > 0 {
        lemma_mv_list_bounds(nodes, args.drop_last(), b);
        lemma_mv_bounds(nodes, args.last().0 as int);
    }
}

/// Maximum of two optional values.
pub open spec fn opt_max(a: Option<int>, b: Option<int>) -> Option<int> {
    match (a, b) {
        (Some(x), Some(y)) => Some(vstd::math::max(x, y)),
        (Some(x), None) => Some(x),
        (None, y) => y,
    }
}

/// Every `Term` node references only strictly smaller indices.
pub open spec fn nodes_child_first(nodes: Seq<TNode>) -> bool {
    forall|i: int|
        0 <= i < nodes.len() ==> match #[trigger] nodes[i] {
            TNode::Term(_, args) => forall|k: int|
                0 <= k < args@.len() ==> (#[trigger] args@[k]).0 < i,
            _ => true,
        }
}

/// Does the cached maximum at `i` agree with the recursive one?
pub open spec fn mv_ok(v: TsView, i: int) -> bool {
    match spec_max_var(v.nodes, i) {
        Some(m) => v.max_vars[i] == Some(m as usize),
        None => v.max_vars[i] == None::<usize>,
    }
}

/// Is `tr` a valid reference whose logical variables all lie below
/// `next_var`?
pub open spec fn tr_in_scope(v: TsView, tr: TypeRef) -> bool {
    &&& tr.raw.0 < v.nodes.len()
    &&& match spec_max_var(v.nodes, tr.raw.0 as int) {
        Some(m) => m + tr.shift < v.next_var,
        None => true,
    }
}

/// Well-formed type arena: child-first nodes, a correct max-variable
/// cache, and a binding log whose entries are in scope, bind distinct
/// variables below `next_var`, and whose targets, when rooted at a
/// bound variable, point at bindings made later (so canonicalization
/// walks strictly forward through the log).
pub open spec fn ts_wf(v: TsView) -> bool {
    &&& v.nodes.len() == v.max_vars.len()
    &&& v.next_var <= usize::MAX
    &&& nodes_child_first(v.nodes)
    &&& forall|i: int| 0 <= i < v.nodes.len() ==> mv_ok(v, i)
    &&& forall|k: int|
        0 <= k < v.subst.len() ==> tr_in_scope(v, (#[trigger] v.subst[k]).1)
    &&& forall|k: int| 0 <= k < v.subst.len() ==> (#[trigger] v.subst[k]).0 < v.next_var
    &&& forall|k1: int, k2: int|
        0 <= k1 < k2 < v.subst.len() ==> (#[trigger] v.subst[k1]).0 != (#[trigger] v.subst[k2]).0
    &&& forall|k: int|
        0 <= k < v.subst.len() ==> match v.nodes[(#[trigger] v.subst[k]).1.raw.0 as int] {
            TNode::Var(j) => !(0 <= find_binding(v.subst, j + v.subst[k].1.shift) <= k),
            _ => true,
        }
}

/// The measure canonicalization walks down: the distance from the
/// binding it is about to follow to the end of the log.
pub open spec fn canon_pos(v: TsView, tr: TypeRef) -> int {
    if tr.raw.0 < v.nodes.len() {
        match v.nodes[tr.raw.0 as int] {
            TNode::Var(j) => {
                if find_binding(v.subst, j + tr.shift) >= 0 {
                    find_binding(v.subst, j + tr.shift)
                } else {
                    v.subst.len() as int
                }
            },
            _ => v.subst.len() as int,
        }
    } else {
        v.subst.len() as int
    }
}

/// The representative of `tr` under the binding log: while the node
/// is a bound variable, follow its binding.
pub open spec fn spec_canonicalize(v: TsView, tr: TypeRef) -> TypeRef
    decreases v.subst.len() - canon_pos(v, tr)
        when ts_wf(v) && tr.raw.0 < v.nodes.len()
{
    match v.nodes[tr.raw.0 as int] {
        TNode::Var(j) => {
            let p = find_binding(v.subst, j + tr.shift);
            if p >= 0 {
                proof {
                    lemma_find_binding(v.subst, j + tr.shift);
                    assert(tr_in_scope(v, v.subst[p].1));
                    match v.nodes[v.subst[p].1.raw.0 as int] {
                        TNode::Var(j2) => {
                            assert(!(0 <= find_binding(v.subst, j2 + v.subst[p].1.shift) <= p));
                            lemma_find_binding(v.subst, j2 + v.subst[p].1.shift);
                        },
                        _ => {},
                    }
                    assert(canon_pos(v, v.subst[p].1) > p);
                    assert(canon_pos(v, tr) == p);
                }
                spec_canonicalize(v, v.subst[p].1)
            } else {
                tr
            }
        },
        _ => tr,
    }
}

/// Is `tr` already a representative: a term node, or an unbound
/// variable?
pub open spec fn is_canon(v: TsView, tr: TypeRef) -> bool {
    &&& tr.raw.0 < v.nodes.len()
    &&& match v.nodes[tr.raw.0 as int] {
        TNode::Var(j) => find_binding(v.subst, j + tr.shift) < 0,
        _ => true,
    }
}

/// Canonicalization lands on a representative that is in scope.
pub proof fn lemma_canon_props(v: TsView, tr: TypeRef)
    requires
        ts_wf(v),
        tr.raw.0 < v.nodes.len(),
    ensures
        is_canon(v, spec_canonicalize(v, tr)),
        tr_in_scope(v, tr) ==> tr_in_scope(v, spec_canonicalize(v, tr)),
    decreases v.subst.len() - canon_pos(v, tr),
{
    match v.nodes[tr.raw.0 as int] {
        TNode::Var(j) => {
            let p = find_binding(v.subst, j + tr.shift);
            if p >= 0 {
                lemma_find_binding(v.subst, j + tr.shift);
                assert(tr_in_scope(v, v.subst[p].1));
                match v.nodes[v.subst[p].1.raw.0 as int] {
                    TNode::Var(j2) => {
                        assert(!(0 <= find_binding(v.subst, j2 + v.subst[p].1.shift) <= p));
                        lemma_find_binding(v.subst, j2 + v.subst[p].1.shift);
                    },
                    _ => {},
                }
                assert(canon_pos(v, v.subst[p].1) > p);
                assert(canon_pos(v, tr) == p);
                lemma_canon_props(v, v.subst[p].1);
            }
        },
        _ => {},
    }
}

impl TypeSet {
    /// The usual way of creating a new type arena, with an
    /// append-only binding log that can be rolled back by truncation.
    pub fn empty() -> (r: TypeSet)
        ensures
            r@.nodes.len() == 0,
            r@.max_vars.len() == 0,
            r@.subst.len() == 0,
            r@.next_var == 0,
            ts_wf(r@),
    {
        TypeSet { nodes: Vec::new(), max_vars: Vec::new(), subst: Vec::new(), next_var: 0 }
    }

    /// Capture the current log length and fresh-variable counter for
    /// a later rollback.
    pub fn save_state(&self) -> (r: (usize, usize))
        ensures
            r.0 == self@.subst.len(),
            r.1 == self@.next_var,
    {
        (self.subst.len(), self.next_var)
    }

    /// Roll back to a previously captured state by truncating the
    /// binding log and restoring the fresh-variable counter.
    pub fn load_state(&mut self, state: (usize, usize))
        ensures
            final(self)@.subst == old(self)@.subst.subrange(
                0,
                vstd::math::min(state.0 as int, old(self)@.subst.len() as int),
            ),
            final(self)@.nodes == old(self)@.nodes,
            final(self)@.max_vars == old(self)@.max_vars,
            final(self)@.next_var == state.1 as int,
    {
        self.subst.truncate(state.0);
        self.next_var = state.1;
        proof {
            assert(self@.subst =~= old(self)@.subst.subrange(
                0,
                vstd::math::min(state.0 as int, old(self)@.subst.len() as int),
            ));
        }
    }

    /// What a logical variable is bound to, if anything.
    fn get_var(&self, var: usize) -> (r: Option<TypeRef>)
        ensures
            r == ts_get(self@.subst, var as int),
    {
        let mut k = self.subst.len();
        proof {
            assert(self@.subst.subrange(0, self@.subst.len() as int) =~= self@.subst);
        }
        while k > 0
            invariant
                k <= self@.subst.len(),
                find_binding(self@.subst, var as int) == find_binding(
                    self@.subst.subrange(0, k as int),
                    var as int,
                ),
            decreases k,
        {
            k = k - 1;
            proof {
                assert(self@.subst.subrange(0, k as int + 1).drop_last() =~= self@.subst.subrange(
                    0,
                    k as int,
                ));
                assert(self@.subst.subrange(0, k as int + 1).last() == self@.subst[k as int]);
            }
            if self.subst[k].0 == var {
                proof {
                    assert(find_binding(self@.subst.subrange(0, k as int + 1), var as int)
                        == k as int);
                }
                return Some(self.subst[k].1);
            }
        }
        None
    }
}

impl RawTypeRef {
    /// Pair this reference with a shift.
    pub fn shift(&self, shift: usize) -> (r: TypeRef)
        ensures
            r.raw == *self,
            r.shift == shift,
    {
        TypeRef { raw: *self, shift }
    }

    /// Borrow the referenced node.
    pub fn node<'a>(&self, typeset: &'a TypeSet) -> (r: &'a TNode)
        requires
            self.0 < typeset@.nodes.len(),
        ensures
            *r == typeset@.nodes[self.0 as int],
    {
        &typeset.nodes[self.0]
    }

    /// The cached maximum variable id under this node (`None` for a
    /// ground subterm).
    pub fn max_var(&self, typeset: &TypeSet) -> (r: Option<usize>)
        requires
            ts_wf(typeset@),
            self.0 < typeset@.nodes.len(),
        ensures
            r == typeset@.max_vars[self.0 as int],
            r == match spec_max_var(typeset@.nodes, self.0 as int) {
                Some(m) => Some(m as usize),
                None => None::<usize>,
            },
    {
        self.max_vars_entry(typeset)
    }

    /// Read the cache entry.
    fn max_vars_entry(&self, typeset: &TypeSet) -> (r: Option<usize>)
        requires
            ts_wf(typeset@),
            self.0 < typeset@.nodes.len(),
        ensures
            r == typeset@.max_vars[self.0 as int],
            r == match spec_max_var(typeset@.nodes, self.0 as int) {
                Some(m) => Some(m as usize),
                None => None::<usize>,
            },
    {
        proof {
            assert(mv_ok(typeset@, self.0 as int));
        }
        typeset.max_vars[self.0]
    }

    /// Instantiate the scheme rooted here into a fresh scope: allocate
    /// one fresh logical variable for each variable id the subterm
    /// uses, and return this reference under the shift that renames
    /// its variables onto those fresh ids. No node is copied.
    pub fn instantiate(&self, typeset: &mut TypeSet) -> (r: TypeRef)
        requires
            ts_wf(old(typeset)@),
            self.0 < old(typeset)@.nodes.len(),
            old(typeset)@.next_var + (match spec_max_var(old(typeset)@.nodes, self.0 as int) {
                Some(m) => m + 1,
                None => 0,
            }) <= usize::MAX,
        ensures
            ts_wf(final(typeset)@),
            r.raw == *self,
            r.shift == old(typeset)@.next_var,
            tr_in_scope(final(typeset)@, r),
            final(typeset)@.nodes == old(typeset)@.nodes,
            final(typeset)@.max_vars == old(typeset)@.max_vars,
            final(typeset)@.subst == old(typeset)@.subst,
            final(typeset)@.next_var == old(typeset)@.next_var + (
            match spec_max_var(old(typeset)@.nodes, self.0 as int) {
                Some(m) => m + 1,
                None => 0,
            }),
    {
        let shift_by = typeset.next_var;
        proof {
            assert(mv_ok(typeset@, self.0 as int));
        }
        match self.max_vars_entry(typeset) {
            Some(max_var) => {
                proof {
                    lemma_mv_bounds(typeset@.nodes, self.0 as int);
                    assert(spec_max_var(typeset@.nodes, self.0 as int) == Some(max_var as int));
                    assert(typeset@.next_var + max_var + 1 <= usize::MAX);
                }
                typeset.next_var = typeset.next_var + max_var + 1;
            },
            None => {},
        }
        proof {
            let v0 = old(typeset)@;
            let v1 = typeset@;
            assert forall|k: int| 0 <= k < v1.subst.len() implies tr_in_scope(
                v1,
                (#[trigger] v1.subst[k]).1,
            ) by {
                assert(tr_in_scope(v0, v0.subst[k].1));
            }
            assert forall|i: int| 0 <= i < v1.nodes.len() implies mv_ok(v1, i) by {
                assert(mv_ok(v0, i));
            }
        }
        TypeRef { raw: *self, shift: shift_by }
    }
}

impl TypeRef {
    /// If this reference denotes a bound variable, follow bindings to
    /// the current representative.
    pub fn canonicalize(&self, typeset: &TypeSet) -> (r: TypeRef)
        requires
            ts_wf(typeset@),
            tr_in_scope(typeset@, *self),
        ensures
            r == spec_canonicalize(typeset@, *self),
            is_canon(typeset@, r),
            tr_in_scope(typeset@, r),
    {
        let mut cur = *self;
        proof {
            lemma_canon_props(typeset@, cur);
        }
        loop
            invariant
                ts_wf(typeset@),
                tr_in_scope(typeset@, cur),
                spec_canonicalize(typeset@, cur) == spec_canonicalize(typeset@, *self),
            decreases typeset@.subst.len() - canon_pos(typeset@, cur),
        {
            match cur.raw.node(typeset) {
                TNode::Var(j) => {
                    let lv = *j + cur.shift;
                    match typeset.get_var(lv) {
                        Some(t) => {
                            proof {
                                let v = typeset@;
                                lemma_find_binding(v.subst, lv as int);
                                let p = find_binding(v.subst, lv as int);
                                assert(t == v.subst[p].1);
                                assert(tr_in_scope(v, v.subst[p].1));
                                match v.nodes[v.subst[p].1.raw.0 as int] {
                                    TNode::Var(j2) => {
                                        assert(!(0 <= find_binding(
                                            v.subst,
                                            j2 + v.subst[p].1.shift,
                                        ) <= p));
                                        lemma_find_binding(v.subst, j2 + v.subst[p].1.shift);
                                    },
                                    _ => {},
                                }
                                assert(canon_pos(v, v.subst[p].1) > p);
                                assert(canon_pos(v, cur) == p);
                                lemma_canon_props(typeset@, cur);
                            }
                            cur = t;
                        },
                        None => {
                            return cur;
                        },
                    }
                },
                _ => {
                    return cur;
                },
            }
        }
    }
}

/// The type tree stored at index `i` of the arena.
pub open spec fn tree_at(nodes: Seq<TNode>, i: int) -> TypeView
    decreases i, 1int, 0int,
        when 0 <= i < nodes.len() && nodes_child_first(nodes)
{
    match nodes[i] {
        TNode::Var(j) => TypeView::Var(j as int),
        TNode::Term(name, args) => TypeView::Term(name@, tree_at_list(nodes, args@, i)),
    }
}

/// The type trees stored at a list of child indices, all below `b`.
pub open spec fn tree_at_list(nodes: Seq<TNode>, args: Seq<RawTypeRef>, b: int) -> Seq<TypeView>
    decreases b, 0int, args.len(),
        when 0 <= b <= nodes.len() && nodes_child_first(nodes) && forall|k: int|
            0 <= k < args.len() ==> (#[trigger] args[k]).0 < b
{
    if args.len() == 0 {
        Seq::empty()
    } else {
        tree_at_list(nodes, args.drop_last(), b).push(tree_at(nodes, args.last().0 as int))
    }
}

/// `tree_at_list` maps the child list elementwise.
pub proof fn lemma_tree_at_list(nodes: Seq<TNode>, args: Seq<RawTypeRef>, b: int)
    requires
        nodes_child_first(nodes),
        0 <= b <= nodes.len(),
        forall|k: int| 0 <= k < args.len() ==> (#[trigger] args[k]).0 < b,
    ensures
        tree_at_list(nodes, args, b).len() == args.len(),
        forall|k: int|
            0 <= k < args.len() ==> tree_at_list(nodes, args, b)[k] == tree_at(
                nodes,
                (#[trigger] args[k]).0 as int,
            ),
    decreases args.len(),
{
    if args.len() > 0 {
        lemma_tree_at_list(nodes, args.drop_last(), b);
        assert forall|k: int| 0 <= k < args.len() implies tree_at_list(nodes, args, b)[k]
            == tree_at(nodes, (#[trigger] args[k]).0 as int) by {
            if k < args.len() - 1 {
                assert(args.drop_last()[k] == args[k]);
            }
        }
    }
}

/// A node's stored tree and cached maximum depend only on the arena
/// up to that node: extending the arena changes neither.
pub proof fn lemma_arena_extend(n1: Seq<TNode>, n2: Seq<TNode>, i: int)
    requires
        nodes_child_first(n1),
        nodes_child_first(n2),
        0 <= i < n1.len(),
        n1.len() <= n2.len(),
        forall|j: int| 0 <= j < n1.len() ==> n1[j] == #[trigger] n2[j],
    ensures
        tree_at(n2, i) == tree_at(n1, i),
        spec_max_var(n2, i) == spec_max_var(n1, i),
    decreases i, 1int, 0int,
{
    match n1[i] {
        TNode::Var(_) => {},
        TNode::Term(_, args) => {
            lemma_arena_extend_list(n1, n2, args@, i);
        },
    }
}

/// As `lemma_arena_extend`, over a child list.
pub proof fn lemma_arena_extend_list(n1: Seq<TNode>, n2: Seq<TNode>, args: Seq<RawTypeRef>, b: int)
    requires
        nodes_child_first(n1),
        nodes_child_first(n2),
        0 <= b <= n1.len(),
        n1.len() <= n2.len(),
        forall|j: int| 0 <= j < n1.len() ==> n1[j] == #[trigger] n2[j],
        forall|k: int| 0 <= k < args.len() ==> (#[trigger] args[k]).0 < b,
    ensures
        tree_at_list(n2, args, b) == tree_at_list(n1, args, b),
        spec_max_var_list(n2, args, b) == spec_max_var_list(n1, args, b),
    decreases b, 0int, args.len(),
{
    if args.len() > 0 {
        lemma_arena_extend_list(n1, n2, args.drop_last(), b);
        lemma_arena_extend(n1, n2, args.last().0 as int);
    }
}

/// Number of nodes a type tree occupies in the arena.
pub open spec fn view_size(v: TypeView) -> int
    decreases v, 1int, 0int,
{
    match v {
        TypeView::Var(_) => 1,
        TypeView::Term(_, args) => 1 + view_size_list(args),
    }
}

/// Total arena size of a list of type trees.
pub open spec fn view_size_list(vs: Seq<TypeView>) -> int
    decreases vs, 0int, vs.len(),
{
    if vs.len() == 0 {
        0
    } else {
        view_size_list(vs.drop_last()) + view_size(vs.last())
    }
}

/// A list's total size splits at any point.
pub proof fn lemma_vsl_split(vs: Seq<TypeView>, k: int)
    requires
        0 <= k <= vs.len(),
    ensures
        view_size_list(vs) == view_size_list(vs.subrange(0, k)) + view_size_list(
            vs.subrange(k, vs.len() as int),
        ),
    decreases vs.len(),
{
    if k == vs.len() {
        assert(vs.subrange(0, k) =~= vs);
        assert(vs.subrange(k, vs.len() as int) =~= Seq::<TypeView>::empty());
    } else {
        lemma_vsl_split(vs.drop_last(), k);
        assert(vs.drop_last().subrange(0, k) =~= vs.subrange(0, k));
        assert(vs.drop_last().subrange(k, vs.len() - 1) =~= vs.subrange(k, vs.len() - 1));
        assert(vs.subrange(k, vs.len() as int).drop_last() =~= vs.subrange(k, vs.len() - 1));
        assert(vs.subrange(k, vs.len() as int).last() == vs.last());
    }
}

/// One step of a prefix sum.
pub proof fn lemma_view_size_list_prefix(vs: Seq<TypeView>, k: int)
    requires
        1 <= k <= vs.len(),
    ensures
        view_size_list(vs.subrange(0, k)) == view_size_list(vs.subrange(0, k - 1)) + view_size(
            vs[k - 1],
        ),
{
    assert(vs.subrange(0, k).drop_last() =~= vs.subrange(0, k - 1));
    assert(vs.subrange(0, k).last() == vs[k - 1]);
}

/// Tree sizes are positive.
pub proof fn lemma_view_size_pos(v: TypeView)
    ensures
        view_size(v) >= 1,
        v matches TypeView::Term(_, _) ==> view_size_list(v->Term_1) >= 0,
    decreases v, 1int, 0int,
{
    match v {
        TypeView::Var(_) => {},
        TypeView::Term(_, args) => {
            lemma_view_size_list_pos(args);
        },
    }
}

/// List sizes are sums of positive sizes.
pub proof fn lemma_view_size_list_pos(vs: Seq<TypeView>)
    ensures
        view_size_list(vs) >= 0,
        forall|k: int| 0 <= k < vs.len() ==> view_size(#[trigger] vs[k]) <= view_size_list(vs),
    decreases vs, 0int, vs.len(),
{
    if vs.len() > 0 {
        lemma_view_size_list_pos(vs.drop_last());
        lemma_view_size_pos(vs.last());
        assert forall|k: int| 0 <= k < vs.len() implies view_size(#[trigger] vs[k])
            <= view_size_list(vs) by {
            if k < vs.len() - 1 {
                assert(vs.drop_last()[k] == vs[k]);
            }
        }
    }
}

impl TypeSet {
    /// Append one node, computing and caching the maximum variable id
    /// occurring under it from the children's cached maxima.
    pub fn add_node(&mut self, node: TNode) -> (r: RawTypeRef)
        requires
            ts_wf(old(self)@),
            old(self)@.nodes.len() < usize::MAX,
            node matches TNode::Term(_, args) ==> forall|k: int|
                0 <= k < args@.len() ==> (#[trigger] args@[k]).0 < old(self)@.nodes.len(),
        ensures
            ts_wf(final(self)@),
            r.0 == old(self)@.nodes.len(),
            final(self)@.nodes == old(self)@.nodes.push(node),
            final(self)@.subst == old(self)@.subst,
            final(self)@.next_var == old(self)@.next_var,
            forall|i: int|
                0 <= i < old(self)@.nodes.len() ==> tree_at(final(self)@.nodes, i) == tree_at(
                    old(self)@.nodes,
                    i,
                ),
            tree_at(final(self)@.nodes, r.0 as int) == match node {
                TNode::Var(j) => TypeView::Var(j as int),
                TNode::Term(name, args) => TypeView::Term(
                    name@,
                    tree_at_list(old(self)@.nodes, args@, old(self)@.nodes.len() as int),
                ),
            },
    {
        let idx = self.nodes.len();
        let max_var: Option<usize> = match &node {
            TNode::Var(j) => Some(*j),
            TNode::Term(_, args) => {
                let mut acc: Option<usize> = None;
                let mut k: usize = 0;
                while k < args.len()
                    invariant
                        ts_wf(self@),
                        k <= args@.len(),
                        forall|j: int|
                            0 <= j < args@.len() ==> (#[trigger] args@[j]).0 < self@.nodes.len(),
                        acc == match spec_max_var_list(
                            self@.nodes,
                            args@.subrange(0, k as int),
                            self@.nodes.len() as int,
                        ) {
                            Some(m) => Some(m as usize),
                            None => None::<usize>,
                        },
                    decreases args@.len() - k,
                {
                    proof {
                        assert(args@.subrange(0, k as int + 1).drop_last() =~= args@.subrange(
                            0,
                            k as int,
                        ));
                        assert(args@.subrange(0, k as int + 1).last() == args@[k as int]);
                        lemma_mv_list_bounds(
                            self@.nodes,
                            args@.subrange(0, k as int),
                            self@.nodes.len() as int,
                        );
                        lemma_mv_bounds(self@.nodes, args@[k as int].0 as int);
                        assert(mv_ok(self@, args@[k as int].0 as int));
                    }
                    let cm = self.max_vars[args[k].0];
                    acc = match (acc, cm) {
                        (Some(a), Some(b)) => if a >= b {
                            Some(a)
                        } else {
                            Some(b)
                        },
                        (Some(a), None) => Some(a),
                        (None, b) => b,
                    };
                    k = k + 1;
                }
                proof {
                    assert(args@.subrange(0, args@.len() as int) =~= args@);
                }
                acc
            },
        };
        let ghost gnode = node;
        self.max_vars.push(max_var);
        self.nodes.push(node);
        proof {
            let v0 = old(self)@;
            let v1 = self@;
            assert(v1.nodes =~= v0.nodes.push(gnode));
            assert(v1.max_vars =~= v0.max_vars.push(max_var));
            assert(nodes_child_first(v1.nodes));
            assert forall|i: int| 0 <= i < v0.nodes.len() implies tree_at(v1.nodes, i) == tree_at(
                v0.nodes,
                i,
            ) && spec_max_var(v1.nodes, i) == spec_max_var(v0.nodes, i) by {
                lemma_arena_extend(v0.nodes, v1.nodes, i);
            }
            match gnode {
                TNode::Var(j) => {},
                TNode::Term(name, args) => {
                    lemma_arena_extend_list(v0.nodes, v1.nodes, args@, v0.nodes.len() as int);
                },
            }
            assert forall|i: int| 0 <= i < v1.nodes.len() implies mv_ok(v1, i) by {
                if i < v0.nodes.len() {
                    assert(mv_ok(v0, i));
                }
            }
            assert forall|k: int| 0 <= k < v1.subst.len() implies tr_in_scope(
                v1,
                (#[trigger] v1.subst[k]).1,
            ) by {
                assert(tr_in_scope(v0, v0.subst[k].1));
                lemma_arena_extend(v0.nodes, v1.nodes, v0.subst[k].1.raw.0 as int);
            }
        }
        RawTypeRef(idx)
    }

    /// Append a whole type tree, bottom-up, returning the reference
    /// to its root.
    pub fn add_tp(&mut self, tp: &Type) -> (r: RawTypeRef)
        requires
            ts_wf(old(self)@),
            old(self)@.nodes.len() + view_size(tp@) <= usize::MAX,
        ensures
            ts_wf(final(self)@),
            final(self)@.subst == old(self)@.subst,
            final(self)@.next_var == old(self)@.next_var,
            final(self)@.nodes.len() == old(self)@.nodes.len() + view_size(tp@),
            forall|j: int|
                0 <= j < old(self)@.nodes.len() ==> final(self)@.nodes[j] == old(self)@.nodes[j],
            forall|i: int|
                0 <= i < old(self)@.nodes.len() ==> tree_at(final(self)@.nodes, i) == tree_at(
                    old(self)@.nodes,
                    i,
                ),
            r.0 < final(self)@.nodes.len(),
            tree_at(final(self)@.nodes, r.0 as int) == tp@,
        decreases *tp,
    {
        proof {
            lemma_view_size_pos(tp@);
        }
        match tp {
            Type::Var(i) => self.add_node(TNode::Var(*i)),
            Type::Term(name, args) => {
                proof {
                    lemma_type_views(args@);
                    lemma_view_size_list_pos(tp@->Term_1);
                }
                let mut refs: Vec<RawTypeRef> = Vec::new();
                let mut k: usize = 0;
                proof {
                    assert(tp@->Term_1.subrange(0, 0) =~= Seq::<TypeView>::empty());
                }
                while k < args.len()
                    invariant
                        ts_wf(self@),
                        k <= args@.len(),
                        *tp == Type::Term(*name, *args),
                        self@.subst == old(self)@.subst,
                        self@.next_var == old(self)@.next_var,
                        old(self)@.nodes.len() <= self@.nodes.len(),
                        forall|j: int|
                            0 <= j < old(self)@.nodes.len() ==> self@.nodes[j] == old(
                                self,
                            )@.nodes[j],
                        self@.nodes.len() == old(self)@.nodes.len() + view_size_list(
                            tp@->Term_1.subrange(0, k as int),
                        ),
                        old(self)@.nodes.len() + view_size(tp@) <= usize::MAX,
                        refs@.len() == k,
                        forall|j: int|
                            0 <= j < k ==> (#[trigger] refs@[j]).0 < self@.nodes.len(),
                        forall|j: int|
                            0 <= j < k ==> tree_at(self@.nodes, (#[trigger] refs@[j]).0 as int)
                                == tp@->Term_1[j],
                    decreases args@.len() - k,
                {
                    proof {
                        lemma_type_views(args@);
                        lemma_view_size_list_pos(tp@->Term_1);
                        assert(decreases_to!(*tp => tp->Term_1));
                        assert(decreases_to!(tp->Term_1 => tp->Term_1@));
                        assert(decreases_to!(tp->Term_1@ => tp->Term_1@[k as int]));
                        lemma_view_size_list_prefix(tp@->Term_1, k as int + 1);
                        lemma_vsl_split(tp@->Term_1, k as int);
                        lemma_view_size_list_pos(
                            tp@->Term_1.subrange(k as int, tp@->Term_1.len() as int),
                        );
                        assert(tp@->Term_1.subrange(k as int, tp@->Term_1.len() as int)[0]
                            == tp@->Term_1[k as int]);
                        assert(args@[k as int]@ == tp@->Term_1[k as int]);
                        lemma_view_size_pos(tp@->Term_1[k as int]);
                    }
                    let ghost pre = self@;
                    let cr = self.add_tp(&args[k]);
                    refs.push(cr);
                    k = k + 1;
                    proof {
                        assert forall|j: int| 0 <= j < k implies tree_at(
                            self@.nodes,
                            (#[trigger] refs@[j]).0 as int,
                        ) == tp@->Term_1[j] by {
                            if j < k - 1 {
                                lemma_arena_extend(pre.nodes, self@.nodes, refs@[j].0 as int);
                            }
                        }
                    }
                }
                proof {
                    assert(tp@->Term_1.subrange(0, args@.len() as int) =~= tp@->Term_1);
                }
                let ghost pre2 = self@;
                let r = self.add_node(TNode::Term(name.clone(), refs));
                proof {
                    lemma_type_views(args@);
                    assert(tp@ == TypeView::Term(name@, type_views(args@)));
                    assert forall|j: int| 0 <= j < refs@.len() implies tree_at_list(
                        pre2.nodes,
                        refs@,
                        pre2.nodes.len() as int,
                    )[j] == tp@->Term_1[j] by {
                        lemma_tree_at_list(pre2.nodes, refs@, pre2.nodes.len() as int);
                        assert(tree_at(pre2.nodes, refs@[j].0 as int) == tp@->Term_1[j]);
                    }
                    lemma_tree_at_list(pre2.nodes, refs@, pre2.nodes.len() as int);
                    assert(tree_at_list(pre2.nodes, refs@, pre2.nodes.len() as int)
                        =~= tp@->Term_1);
                    assert forall|i: int| 0 <= i < old(self)@.nodes.len() implies tree_at(
                        self@.nodes,
                        i,
                    ) == tree_at(old(self)@.nodes, i) by {
                        lemma_arena_extend(pre2.nodes, self@.nodes, i);
                        lemma_arena_extend(old(self)@.nodes, pre2.nodes, i);
                    }
                }
                r
            },
        }
    }
}

/// A child's maximum variable id never exceeds its parent's.
pub proof fn lemma_mv_child(nodes: Seq<TNode>, i: int, k: int)
    requires
        nodes_child_first(nodes),
        0 <= i < nodes.len(),
        nodes[i] matches TNode::Term(_, args) && 0 <= k < args@.len(),
    ensures
        match spec_max_var(nodes, nodes[i]->Term_1@[k].0 as int) {
            Some(mc) => spec_max_var(nodes, i) matches Some(mp) && mc <= mp,
            None => true,
        },
{
    match nodes[i] {
        TNode::Var(_) => {},
        TNode::Term(_, args) => {
            lemma_mv_list_elem(nodes, args@, i, k);
        },
    }
}

/// An element's maximum never exceeds the list maximum.
pub proof fn lemma_mv_list_elem(nodes: Seq<TNode>, args: Seq<RawTypeRef>, b: int, k: int)
    requires
        nodes_child_first(nodes),
        0 <= b <= nodes.len(),
        forall|j: int| 0 <= j < args.len() ==> (#[trigger] args[j]).0 < b,
        0 <= k < args.len(),
    ensures
        match spec_max_var(nodes, args[k].0 as int) {
            Some(mc) => spec_max_var_list(nodes, args, b) matches Some(ml) && mc <= ml,
            None => true,
        },
    decreases args.len(),
{
    if k == args.len() - 1 {
    } else {
        lemma_mv_list_elem(nodes, args.drop_last(), b, k);
        assert(args.drop_last()[k] == args[k]);
    }
}

/// A canonical reference's in-scope children are in scope under the
/// canonical shift.
pub proof fn lemma_child_in_scope(v: TsView, c: TypeRef, k: int)
    requires
        ts_wf(v),
        tr_in_scope(v, c),
        v.nodes[c.raw.0 as int] matches TNode::Term(_, args) && 0 <= k < args@.len(),
    ensures
        tr_in_scope(v, TypeRef { raw: v.nodes[c.raw.0 as int]->Term_1@[k], shift: c.shift }),
{
    lemma_mv_child(v.nodes, c.raw.0 as int, k);
}

/// Does logical variable `i` occur in the full resolution of `tr`,
/// within `fuel` resolution steps?
pub open spec fn spec_occurs_ts(v: TsView, i: int, tr: TypeRef, fuel: nat) -> bool
    decreases fuel,
{
    if fuel == 0 {
        true
    } else {
        let c = spec_canonicalize(v, tr);
        match v.nodes[c.raw.0 as int] {
            TNode::Var(j) => i == j + c.shift,
            TNode::Term(_, args) => exists|k: int|
                0 <= k < args@.len() && spec_occurs_ts(
                    v,
                    i,
                    TypeRef { raw: args@[k], shift: c.shift },
                    (fuel - 1) as nat,
                ),
        }
    }
}

/// Fuel-bounded occurs check.
fn occurs_fuel(typeset: &TypeSet, i: usize, tr: TypeRef, fuel: usize) -> (r: bool)
    requires
        ts_wf(typeset@),
        tr_in_scope(typeset@, tr),
    ensures
        r == spec_occurs_ts(typeset@, i as int, tr, fuel as nat),
    decreases fuel,
{
    if fuel == 0 {
        return true;
    }
    let c = tr.canonicalize(typeset);
    match c.raw.node(typeset) {
        TNode::Var(j) => {
            proof {
                assert(mv_ok(typeset@, c.raw.0 as int));
            }
            *j + c.shift == i
        },
        TNode::Term(_, args) => {
            let n = args.len();
            let ghost gargs = args@;
            let mut k: usize = 0;
            let mut found = false;
            while k < n
                invariant
                    ts_wf(typeset@),
                    tr_in_scope(typeset@, c),
                    tr_in_scope(typeset@, tr),
                    c == spec_canonicalize(typeset@, tr),
                    typeset@.nodes[c.raw.0 as int] matches TNode::Term(_, a2) && a2@ == gargs,
                    n == gargs.len(),
                    k <= n,
                    fuel >= 1,
                    !found ==> forall|j: int|
                        0 <= j < k ==> !spec_occurs_ts(
                            typeset@,
                            i as int,
                            TypeRef { raw: gargs[j], shift: c.shift },
                            (fuel - 1) as nat,
                        ),
                    found ==> spec_occurs_ts(typeset@, i as int, tr, fuel as nat),
                    found ==> k == n,
                decreases n - k,
            {
                proof {
                    lemma_child_in_scope(typeset@, c, k as int);
                }
                let child = match c.raw.node(typeset) {
                    TNode::Term(_, args2) => TypeRef { raw: args2[k], shift: c.shift },
                    _ => TypeRef { raw: c.raw, shift: c.shift },
                };
                proof {
                    assert(child == TypeRef { raw: gargs[k as int], shift: c.shift });
                }
                if occurs_fuel(typeset, i, child, fuel - 1) {
                    proof {
                        assert(spec_occurs_ts(typeset@, i as int, child, (fuel - 1) as nat));
                        assert(spec_occurs_ts(typeset@, i as int, tr, fuel as nat));
                    }
                    found = true;
                    k = n;
                } else {
                    k = k + 1;
                }
            }
            found
        },
    }
}

impl TypeRef {
    /// Does logical variable `i` occur in this type, after resolving
    /// bindings (the occurs check that keeps types finite)?
    pub fn occurs(&self, i: usize, typeset: &TypeSet) -> (r: bool)
        requires
            ts_wf(typeset@),
            tr_in_scope(typeset@, *self),
        ensures
            r == spec_occurs_ts(typeset@, i as int, *self, resolve_fuel()),
    {
        occurs_fuel(typeset, i, *self, usize::MAX)
    }
}

/// Finding a binding after a push: the pushed variable is found at
/// the end, everything else where it was.
pub proof fn lemma_find_push(s: Seq<(usize, TypeRef)>, pair: (usize, TypeRef), v: int)
    ensures
        find_binding(s.push(pair), v) == if pair.0 == v {
            s.len() as int
        } else {
            find_binding(s, v)
        },
{
    assert(s.push(pair).drop_last() =~= s);
}

/// An unbound variable appears in no log entry.
pub proof fn lemma_find_none(s: Seq<(usize, TypeRef)>, v: int)
    requires
        find_binding(s, v) < 0,
    ensures
        forall|k: int| 0 <= k < s.len() ==> (#[trigger] s[k]).0 != v,
    decreases s.len(),
{
    if s.len() > 0 {
        lemma_find_none(s.drop_last(), v);
        assert forall|k: int| 0 <= k < s.len() implies (#[trigger] s[k]).0 != v by {
            if k < s.len() - 1 {
                assert(s.drop_last()[k] == s[k]);
            }
        }
    }
}

/// Appending a fresh binding keeps the arena well-formed.
pub proof fn lemma_wf_push(v: TsView, lv: int, tgt: TypeRef)
    requires
        ts_wf(v),
        0 <= lv < v.next_var,
        find_binding(v.subst, lv) < 0,
        is_canon(v, tgt),
        tr_in_scope(v, tgt),
        v.nodes[tgt.raw.0 as int] matches TNode::Var(j) ==> j + tgt.shift != lv,
    ensures
        ts_wf(
            TsView { subst: v.subst.push((lv as usize, tgt)), ..v },
        ),
{
    let v2 = TsView { subst: v.subst.push((lv as usize, tgt)), ..v };
    lemma_find_none(v.subst, lv);
    assert(nodes_child_first(v2.nodes));
    assert forall|i: int| 0 <= i < v2.nodes.len() implies mv_ok(v2, i) by {
        assert(mv_ok(v, i));
    }
    assert forall|k: int| 0 <= k < v2.subst.len() implies tr_in_scope(
        v2,
        (#[trigger] v2.subst[k]).1,
    ) by {
        if k < v.subst.len() {
            assert(v2.subst[k] == v.subst[k]);
            assert(tr_in_scope(v, v.subst[k].1));
        }
    }
    assert forall|k: int| 0 <= k < v2.subst.len() implies (#[trigger] v2.subst[k]).0
        < v2.next_var by {
        if k < v.subst.len() {
            assert(v2.subst[k] == v.subst[k]);
        }
    }
    assert forall|k1: int, k2: int| 0 <= k1 < k2 < v2.subst.len() implies (
    #[trigger] v2.subst[k1]).0 != (#[trigger] v2.subst[k2]).0 by {
        if k2 < v.subst.len() {
            assert(v2.subst[k1] == v.subst[k1] && v2.subst[k2] == v.subst[k2]);
        } else {
            assert(v2.subst[k1] == v.subst[k1]);
            assert(v.subst[k1].0 != lv);
        }
    }
    assert forall|k: int| 0 <= k < v2.subst.len() implies match v2.nodes[(
    #[trigger] v2.subst[k]).1.raw.0 as int] {
        TNode::Var(j) => !(0 <= find_binding(v2.subst, j + v2.subst[k].1.shift) <= k),
        _ => true,
    } by {
        if k < v.subst.len() {
            assert(v2.subst[k] == v.subst[k]);
            match v2.nodes[v2.subst[k].1.raw.0 as int] {
                TNode::Var(j) => {
                    lemma_find_push(v.subst, (lv as usize, tgt), j + v.subst[k].1.shift);
                },
                _ => {},
            }
        } else {
            match v2.nodes[tgt.raw.0 as int] {
                TNode::Var(j) => {
                    lemma_find_push(v.subst, (lv as usize, tgt), j + tgt.shift);
                },
                _ => {},
            }
        }
    }
}

/// One unification step of the arena engine, mirrored mathematically:
/// canonicalize both sides, then either find the identical variable,
/// bind a variable after the occurs check, or match heads and unify
/// the argument pairs left to right. The returned log replaces the
/// arena's.
pub open spec fn spec_unify_ts(v: TsView, t1: TypeRef, t2: TypeRef, fuel: nat) -> (
    Seq<(usize, TypeRef)>,
    UnifyResult,
)
    decreases fuel, 0int,
{
    if fuel == 0 {
        (v.subst, Err(UnifyErr::Occurs))
    } else {
        let c1 = spec_canonicalize(v, t1);
        let c2 = spec_canonicalize(v, t2);
        match v.nodes[c1.raw.0 as int] {
            TNode::Var(j) => {
                let ish = j + c1.shift;
                if v.nodes[c2.raw.0 as int] matches TNode::Var(j2) && j2 + c2.shift == ish {
                    (v.subst, Ok(()))
                } else if spec_occurs_ts(v, ish, c2, (fuel - 1) as nat) {
                    (v.subst, Err(UnifyErr::Occurs))
                } else {
                    (v.subst.push((ish as usize, c2)), Ok(()))
                }
            },
            _ => match v.nodes[c2.raw.0 as int] {
                TNode::Var(j) => {
                    let ish = j + c2.shift;
                    if spec_occurs_ts(v, ish, c1, (fuel - 1) as nat) {
                        (v.subst, Err(UnifyErr::Occurs))
                    } else {
                        (v.subst.push((ish as usize, c1)), Ok(()))
                    }
                },
                _ => {
                    let n1 = v.nodes[c1.raw.0 as int];
                    let n2 = v.nodes[c2.raw.0 as int];
                    if n1->Term_0@ != n2->Term_0@ || n1->Term_1@.len() != n2->Term_1@.len() {
                        (v.subst, Err(UnifyErr::Production))
                    } else {
                        spec_unify_ts_list(
                            v,
                            n1->Term_1@,
                            n2->Term_1@,
                            c1.shift,
                            c2.shift,
                            0,
                            (fuel - 1) as nat,
                        )
                    }
                },
            },
        }
    }
}

/// Unify corresponding argument pairs left to right under the two
/// canonical shifts; the first failure short-circuits.
pub open spec fn spec_unify_ts_list(
    v: TsView,
    xs: Seq<RawTypeRef>,
    ys: Seq<RawTypeRef>,
    sh1: usize,
    sh2: usize,
    k: int,
    fuel: nat,
) -> (Seq<(usize, TypeRef)>, UnifyResult)
    decreases fuel, xs.len() - k + 1,
{
    if k < 0 || k >= xs.len() || k >= ys.len() {
        (v.subst, Ok(()))
    } else {
        let (s1, r) = spec_unify_ts(
            v,
            TypeRef { raw: xs[k], shift: sh1 },
            TypeRef { raw: ys[k], shift: sh2 },
            fuel,
        );
        if r is Err {
            (s1, r)
        } else {
            spec_unify_ts_list(TsView { subst: s1, ..v }, xs, ys, sh1, sh2, k + 1, fuel)
        }
    }
}

/// The conservative compatibility pre-check of the arena engine:
/// the left side is read raw (never canonicalized), the right side
/// canonicalized; two variables or a variable and a term always pass.
pub open spec fn spec_might_ts(v: TsView, r1: RawTypeRef, t2: TypeRef) -> bool
    decreases r1.0,
        when ts_wf(v) && r1.0 < v.nodes.len() && t2.raw.0 < v.nodes.len()
{
    let c2 = spec_canonicalize(v, t2);
    match v.nodes[r1.0 as int] {
        TNode::Var(_) => true,
        TNode::Term(x, xs) => match v.nodes[c2.raw.0 as int] {
            TNode::Var(_) => true,
            TNode::Term(y, ys) => x@ == y@ && xs@.len() == ys@.len() && forall|k: int|
                0 <= k < xs@.len() ==> spec_might_ts(
                    v,
                    #[trigger] xs@[k],
                    TypeRef { raw: ys@[k], shift: c2.shift },
                ),
        },
    }
}

impl TypeSet {
    /// The head symbol and arity of two term nodes match.
    fn heads_match(&self, a: RawTypeRef, b: RawTypeRef) -> (r: bool)
        requires
            a.0 < self@.nodes.len(),
            b.0 < self@.nodes.len(),
            self@.nodes[a.0 as int] matches TNode::Term(_, _),
            self@.nodes[b.0 as int] matches TNode::Term(_, _),
        ensures
            r == (self@.nodes[a.0 as int]->Term_0@ == self@.nodes[b.0 as int]->Term_0@
                && self@.nodes[a.0 as int]->Term_1@.len() == self@.nodes[b.0 as int]->Term_1@.len()),
    {
        let xa = match &self.nodes[a.0] {
            TNode::Term(x, xs) => (x.clone(), xs.len()),
            TNode::Var(_) => (String::new(), 0),
        };
        match &self.nodes[b.0] {
            TNode::Term(y, ys) => xa.0 == *y && xa.1 == ys.len(),
            TNode::Var(_) => false,
        }
    }

    /// The `k`-th argument reference of a term node.
    fn term_child(&self, a: RawTypeRef, k: usize) -> (r: RawTypeRef)
        requires
            a.0 < self@.nodes.len(),
            self@.nodes[a.0 as int] matches TNode::Term(_, args) && k < args@.len(),
        ensures
            r == self@.nodes[a.0 as int]->Term_1@[k as int],
    {
        match &self.nodes[a.0] {
            TNode::Term(_, args) => args[k],
            TNode::Var(_) => a,
        }
    }

    /// The number of arguments of a term node (zero for a variable).
    fn term_arity(&self, a: RawTypeRef) -> (r: usize)
        requires
            a.0 < self@.nodes.len(),
        ensures
            self@.nodes[a.0 as int] matches TNode::Term(_, args) ==> r == args@.len(),
    {
        match &self.nodes[a.0] {
            TNode::Term(_, args) => args.len(),
            TNode::Var(_) => 0,
        }
    }

    /// A fast, non-mutating, conservative check that returns `false`
    /// only when the two types can never unify: head symbols or
    /// arities differ somewhere no variable could absorb.
    pub fn might_unify(&self, t1: &RawTypeRef, t2: &TypeRef) -> (r: bool)
        requires
            ts_wf(self@),
            t1.0 < self@.nodes.len(),
            tr_in_scope(self@, *t2),
        ensures
            r == spec_might_ts(self@, *t1, *t2),
        decreases t1.0,
    {
        let c2 = t2.canonicalize(self);
        let n1_var = match &self.nodes[t1.0] {
            TNode::Var(_) => true,
            _ => false,
        };
        if n1_var {
            return true;
        }
        let n2_var = match &self.nodes[c2.raw.0] {
            TNode::Var(_) => true,
            _ => false,
        };
        if n2_var {
            return true;
        }
        if !self.heads_match(*t1, c2.raw) {
            return false;
        }
        let n = self.term_arity(*t1);
        let mut k: usize = 0;
        while k < n
            invariant
                ts_wf(self@),
                t1.0 < self@.nodes.len(),
                tr_in_scope(self@, *t2),
                tr_in_scope(self@, c2),
                c2 == spec_canonicalize(self@, *t2),
                self@.nodes[t1.0 as int] matches TNode::Term(_, xs) && xs@.len() == n,
                self@.nodes[c2.raw.0 as int] matches TNode::Term(_, ys) && ys@.len() == n,
                k <= n,
                forall|j: int|
                    0 <= j < k ==> spec_might_ts(
                        self@,
                        #[trigger] self@.nodes[t1.0 as int]->Term_1@[j],
                        TypeRef {
                            raw: self@.nodes[c2.raw.0 as int]->Term_1@[j],
                            shift: c2.shift,
                        },
                    ),
            decreases n - k,
        {
            let x = self.term_child(*t1, k);
            let y = self.term_child(c2.raw, k);
            proof {
                lemma_child_in_scope(self@, c2, k as int);
                assert(x.0 < t1.0);
            }
            if !self.might_unify(&x, &TypeRef { raw: y, shift: c2.shift }) {
                return false;
            }
            k = k + 1;
        }
        true
    }

    /// Fuel-bounded unification pass of the arena engine.
    fn unify_fuel(&mut self, t1: TypeRef, t2: TypeRef, fuel: usize) -> (r: UnifyResult)
        requires
            ts_wf(old(self)@),
            tr_in_scope(old(self)@, t1),
            tr_in_scope(old(self)@, t2),
        ensures
            final(self)@.nodes == old(self)@.nodes,
            final(self)@.max_vars == old(self)@.max_vars,
            final(self)@.next_var == old(self)@.next_var,
            ts_wf(final(self)@),
            (final(self)@.subst, r) == spec_unify_ts(old(self)@, t1, t2, fuel as nat),
        decreases fuel,
    {
        if fuel == 0 {
            return Err(UnifyErr::Occurs);
        }
        let c1 = t1.canonicalize(self);
        let c2 = t2.canonicalize(self);
        let n1_var: Option<usize> = match c1.raw.node(self) {
            TNode::Var(j) => Some(*j),
            _ => None,
        };
        let n2_var: Option<usize> = match c2.raw.node(self) {
            TNode::Var(j) => Some(*j),
            _ => None,
        };
        proof {
            assert(mv_ok(self@, c1.raw.0 as int));
            assert(mv_ok(self@, c2.raw.0 as int));
        }
        match n1_var {
            Some(j1) => {
                let ish = j1 + c1.shift;
                match n2_var {
                    Some(j2) => {
                        if j2 + c2.shift == ish {
                            return Ok(());
                        }
                    },
                    None => {},
                }
                if occurs_fuel(self, ish, c2, fuel - 1) {
                    return Err(UnifyErr::Occurs);
                }
                proof {
                    lemma_wf_push(self@, ish as int, c2);
                }
                self.subst.push((ish, c2));
                proof {
                    assert(self@.subst =~= old(self)@.subst.push((ish, c2)));
                }
                Ok(())
            },
            None => {
                match n2_var {
                    Some(j2) => {
                        let ish = j2 + c2.shift;
                        if occurs_fuel(self, ish, c1, fuel - 1) {
                            return Err(UnifyErr::Occurs);
                        }
                        proof {
                            lemma_wf_push(self@, ish as int, c1);
                        }
                        self.subst.push((ish, c1));
                        proof {
                            assert(self@.subst =~= old(self)@.subst.push((ish, c1)));
                        }
                        Ok(())
                    },
                    None => {
                        if !self.heads_match(c1.raw, c2.raw) {
                            return Err(UnifyErr::Production);
                        }
                        let n = self.term_arity(c1.raw);
                        let ghost v0 = old(self)@;
                        let mut k: usize = 0;
                        while k < n
                            invariant
                                v0 == old(self)@,
                                ts_wf(self@),
                                self@.nodes == v0.nodes,
                                self@.max_vars == v0.max_vars,
                                self@.next_var == v0.next_var,
                                tr_in_scope(self@, c1),
                                tr_in_scope(self@, c2),
                                self@.nodes[c1.raw.0 as int] matches TNode::Term(_, xs)
                                    && xs@.len() == n,
                                self@.nodes[c2.raw.0 as int] matches TNode::Term(_, ys)
                                    && ys@.len() == n,
                                k <= n,
                                fuel >= 1,
                                spec_unify_ts(v0, t1, t2, fuel as nat) == spec_unify_ts_list(
                                    self@,
                                    self@.nodes[c1.raw.0 as int]->Term_1@,
                                    self@.nodes[c2.raw.0 as int]->Term_1@,
                                    c1.shift,
                                    c2.shift,
                                    k as int,
                                    (fuel - 1) as nat,
                                ),
                            decreases n - k,
                        {
                            let x = self.term_child(c1.raw, k);
                            let y = self.term_child(c2.raw, k);
                            proof {
                                lemma_child_in_scope(self@, c1, k as int);
                                lemma_child_in_scope(self@, c2, k as int);
                            }
                            let r = self.unify_fuel(
                                TypeRef { raw: x, shift: c1.shift },
                                TypeRef { raw: y, shift: c2.shift },
                                fuel - 1,
                            );
                            if let Err(e) = r {
                                return Err(e);
                            }
                            k = k + 1;
                        }
                        Ok(())
                    },
                }
            },
        }
    }

    /// Unify two type references: canonicalize both sides, then find
    /// the identical variable, bind a variable after the occurs
    /// check, or match constructor heads and unify the argument pairs
    /// left to right.
    pub fn unify(&mut self, t1: &TypeRef, t2: &TypeRef) -> (r: UnifyResult)
        requires
            ts_wf(old(self)@),
            tr_in_scope(old(self)@, *t1),
            tr_in_scope(old(self)@, *t2),
        ensures
            final(self)@.nodes == old(self)@.nodes,
            final(self)@.max_vars == old(self)@.max_vars,
            final(self)@.next_var == old(self)@.next_var,
            ts_wf(final(self)@),
            (final(self)@.subst, r) == spec_unify_ts(old(self)@, *t1, *t2, resolve_fuel()),
    {
        self.unify_fuel(*t1, *t2, usize::MAX)
    }
}

/// Iterator over the `(left, right)` pairs of an arrow chain in the
/// arena, following raw references (no canonicalization).
pub struct ArrowIterTypeRef<'a> {
    pub typeset: &'a TypeSet,
    pub curr: RawTypeRef,
}

/// Is the node at `i` an arrow: the binary constructor named `->`?
pub open spec fn node_is_arrow(nodes: Seq<TNode>, i: int) -> bool {
    nodes[i] matches TNode::Term(nm, args) && nm@ == crate::types::arrow_chars() && args@.len()
        == 2
}

impl<'a> ArrowIterTypeRef<'a> {
    /// The next arrow pair, stepping to the right-hand side.
    pub fn next(&mut self) -> (r: Option<(RawTypeRef, RawTypeRef)>)
        requires
            ts_wf(old(self).typeset@),
            old(self).curr.0 < old(self).typeset@.nodes.len(),
        ensures
            final(self).typeset == old(self).typeset,
            match r {
                Some(p) => node_is_arrow(old(self).typeset@.nodes, old(self).curr.0 as int)
                    && p.0 == old(self).typeset@.nodes[old(self).curr.0 as int]->Term_1@[0]
                    && p.1 == old(self).typeset@.nodes[old(self).curr.0 as int]->Term_1@[1]
                    && final(self).curr == p.1 && p.1.0 < old(self).curr.0,
                None => !node_is_arrow(old(self).typeset@.nodes, old(self).curr.0 as int)
                    && final(self).curr == old(self).curr,
            },
    {
        match self.curr.as_arrow(self.typeset) {
            Some((left, right)) => {
                self.curr = right;
                Some((left, right))
            },
            None => None,
        }
    }
}

impl RawTypeRef {
    /// Convert the referenced arena subtree into an owned type tree.
    pub fn tp(&self, typeset: &TypeSet) -> (r: Type)
        requires
            ts_wf(typeset@),
            self.0 < typeset@.nodes.len(),
        ensures
            r@ == tree_at(typeset@.nodes, self.0 as int),
        decreases self.0,
    {
        match &typeset.nodes[self.0] {
            TNode::Var(j) => Type::Var(*j),
            TNode::Term(name, args) => {
                let ghost gargs = args@;
                let n = args.len();
                let mut cargs: Vec<Type> = Vec::new();
                let mut k: usize = 0;
                while k < n
                    invariant
                        ts_wf(typeset@),
                        self.0 < typeset@.nodes.len(),
                        typeset@.nodes[self.0 as int] matches TNode::Term(_, a2) && a2@ == gargs,
                        n == gargs.len(),
                        k <= n,
                        cargs@.len() == k,
                        forall|j: int|
                            0 <= j < k ==> #[trigger] cargs@[j]@ == tree_at(
                                typeset@.nodes,
                                gargs[j].0 as int,
                            ),
                    decreases n - k,
                {
                    let cr = match &typeset.nodes[self.0] {
                        TNode::Term(_, args2) => args2[k],
                        TNode::Var(_) => RawTypeRef(0),
                    };
                    let c = cr.tp(typeset);
                    cargs.push(c);
                    k = k + 1;
                }
                let r = Type::Term(name.clone(), cargs);
                proof {
                    lemma_type_views(cargs@);
                    lemma_tree_at_list(typeset@.nodes, gargs, self.0 as int);
                    assert forall|j: int| 0 <= j < gargs.len() implies type_views(cargs@)[j]
                        == tree_at_list(typeset@.nodes, gargs, self.0 as int)[j] by {
                        assert(cargs@[j]@ == tree_at(typeset@.nodes, gargs[j].0 as int));
                    }
                    assert(type_views(cargs@) =~= tree_at_list(
                        typeset@.nodes,
                        gargs,
                        self.0 as int,
                    ));
                }
                r
            },
        }
    }

    /// Render the referenced subtree as text.
    pub fn show(&self, typeset: &TypeSet) -> (r: String)
        requires
            ts_wf(typeset@),
            self.0 < typeset@.nodes.len(),
        ensures
            r@ == crate::types::type_show(tree_at(typeset@.nodes, self.0 as int), true),
    {
        self.tp(typeset).show()
    }

    /// The two sides of an arrow node, or `None` for anything else.
    pub fn as_arrow(&self, typeset: &TypeSet) -> (r: Option<(RawTypeRef, RawTypeRef)>)
        requires
            ts_wf(typeset@),
            self.0 < typeset@.nodes.len(),
        ensures
            match r {
                Some(p) => node_is_arrow(typeset@.nodes, self.0 as int)
                    && p.0 == typeset@.nodes[self.0 as int]->Term_1@[0]
                    && p.1 == typeset@.nodes[self.0 as int]->Term_1@[1]
                    && p.0.0 < self.0 && p.1.0 < self.0,
                None => !node_is_arrow(typeset@.nodes, self.0 as int),
            },
    {
        match &typeset.nodes[self.0] {
            TNode::Term(name, args) => {
                if crate::types::str_is_arrow(name.as_str()) && args.len() == 2 {
                    Some((args[0], args[1]))
                } else {
                    None
                }
            },
            _ => None,
        }
    }

    /// Is the referenced node an arrow?
    pub fn is_arrow(&self, typeset: &TypeSet) -> (r: bool)
        requires
            ts_wf(typeset@),
            self.0 < typeset@.nodes.len(),
        ensures
            r == node_is_arrow(typeset@.nodes, self.0 as int),
    {
        match self.as_arrow(typeset) {
            Some(_) => true,
            None => false,
        }
    }

    /// Iterate over the arrow chain starting here.
    pub fn iter_arrows<'a>(&self, typeset: &'a TypeSet) -> (r: ArrowIterTypeRef<'a>)
        ensures
            r.curr == *self,
            r.typeset == typeset,
    {
        ArrowIterTypeRef { curr: *self, typeset }
    }

    /// The uncurried argument references of this arrow chain (empty
    /// for a non-arrow).
    pub fn iter_args(&self, typeset: &TypeSet) -> (r: Vec<RawTypeRef>)
        requires
            ts_wf(typeset@),
            self.0 < typeset@.nodes.len(),
        ensures
            r@ == spec_args_raw(typeset@.nodes, *self),
        decreases self.0,
    {
        let mut out: Vec<RawTypeRef> = Vec::new();
        let mut cur = *self;
        while cur.is_arrow(typeset)
            invariant
                ts_wf(typeset@),
                cur.0 < typeset@.nodes.len(),
                spec_args_raw(typeset@.nodes, *self) == out@ + spec_args_raw(
                    typeset@.nodes,
                    cur,
                ),
            decreases cur.0,
        {
            match cur.as_arrow(typeset) {
                Some((left, right)) => {
                    out.push(left);
                    let ghost prev = cur;
                    cur = right;
                    proof {
                        assert(spec_args_raw(typeset@.nodes, *self) =~= out@ + spec_args_raw(
                            typeset@.nodes,
                            cur,
                        ));
                    }
                },
                None => {
                    proof {
                        assert(false);
                    }
                },
            }
        }
        proof {
            assert(spec_args_raw(typeset@.nodes, *self) =~= out@);
        }
        out
    }

    /// Arity of this arrow chain (zero for a non-arrow).
    pub fn arity(&self, typeset: &TypeSet) -> (r: usize)
        requires
            ts_wf(typeset@),
            self.0 < typeset@.nodes.len(),
        ensures
            r == spec_args_raw(typeset@.nodes, *self).len(),
    {
        let args = self.iter_args(typeset);
        args.len()
    }

    /// The return type after uncurrying; a non-arrow is returned
    /// unchanged.
    pub fn return_type(&self, typeset: &TypeSet) -> (r: RawTypeRef)
        requires
            ts_wf(typeset@),
            self.0 < typeset@.nodes.len(),
        ensures
            r == spec_return_raw(typeset@.nodes, *self),
            r.0 < typeset@.nodes.len(),
        decreases self.0,
    {
        match self.as_arrow(typeset) {
            Some((_, right)) => right.return_type(typeset),
            None => *self,
        }
    }

    /// Are there no type variables under this node?
    pub fn is_concrete(&self, typeset: &TypeSet) -> (r: bool)
        requires
            ts_wf(typeset@),
            self.0 < typeset@.nodes.len(),
        ensures
            r == (spec_max_var(typeset@.nodes, self.0 as int) is None),
    {
        match self.max_var(typeset) {
            Some(_) => false,
            None => true,
        }
    }
}

/// The uncurried argument references of an arrow chain, read raw.
pub open spec fn spec_args_raw(nodes: Seq<TNode>, r: RawTypeRef) -> Seq<RawTypeRef>
    decreases r.0,
        when r.0 < nodes.len() && nodes_child_first(nodes)
{
    if node_is_arrow(nodes, r.0 as int) {
        seq![nodes[r.0 as int]->Term_1@[0]] + spec_args_raw(nodes, nodes[r.0 as int]->Term_1@[1])
    } else {
        Seq::empty()
    }
}

/// The return reference of an arrow chain, read raw.
pub open spec fn spec_return_raw(nodes: Seq<TNode>, r: RawTypeRef) -> RawTypeRef
    decreases r.0,
        when r.0 < nodes.len() && nodes_child_first(nodes)
{
    if node_is_arrow(nodes, r.0 as int) {
        spec_return_raw(nodes, nodes[r.0 as int]->Term_1@[1])
    } else {
        r
    }
}

/// The uncurried argument references of an arrow chain, resolving
/// bindings at each step, within `fuel` steps.
pub open spec fn spec_args_ts(v: TsView, tr: TypeRef, fuel: nat) -> Seq<TypeRef>
    decreases fuel,
{
    if fuel == 0 {
        Seq::empty()
    } else {
        let c = spec_canonicalize(v, tr);
        if node_is_arrow(v.nodes, c.raw.0 as int) {
            seq![
                TypeRef { raw: v.nodes[c.raw.0 as int]->Term_1@[0], shift: c.shift },
            ] + spec_args_ts(
                v,
                TypeRef { raw: v.nodes[c.raw.0 as int]->Term_1@[1], shift: c.shift },
                (fuel - 1) as nat,
            )
        } else {
            Seq::empty()
        }
    }
}

/// The return reference of an arrow chain, resolving bindings at
/// each step, within `fuel` steps.
pub open spec fn spec_return_ts(v: TsView, tr: TypeRef, fuel: nat) -> TypeRef
    decreases fuel,
{
    if fuel == 0 {
        tr
    } else {
        let c = spec_canonicalize(v, tr);
        if node_is_arrow(v.nodes, c.raw.0 as int) {
            spec_return_ts(
                v,
                TypeRef { raw: v.nodes[c.raw.0 as int]->Term_1@[1], shift: c.shift },
                (fuel - 1) as nat,
            )
        } else {
            tr
        }
    }
}

/// No type variable under the resolution of `tr`, within `fuel`
/// steps.
pub open spec fn spec_concrete_ts(v: TsView, tr: TypeRef, fuel: nat) -> bool
    decreases fuel,
{
    if fuel == 0 {
        false
    } else {
        let c = spec_canonicalize(v, tr);
        match v.nodes[c.raw.0 as int] {
            TNode::Var(_) => false,
            TNode::Term(_, args) => forall|k: int|
                0 <= k < args@.len() ==> spec_concrete_ts(
                    v,
                    TypeRef { raw: #[trigger] args@[k], shift: c.shift },
                    (fuel - 1) as nat,
                ),
        }
    }
}

impl TypeRef {
    /// Convert the referenced subtree into an owned type tree (the
    /// raw tree: bindings and the shift are not applied).
    pub fn tp(&self, typeset: &TypeSet) -> (r: Type)
        requires
            ts_wf(typeset@),
            self.raw.0 < typeset@.nodes.len(),
        ensures
            r@ == tree_at(typeset@.nodes, self.raw.0 as int),
    {
        self.raw.tp(typeset)
    }

    /// Render this reference as text: the shift, then the raw tree.
    pub fn show(&self, typeset: &TypeSet) -> (r: String)
        requires
            ts_wf(typeset@),
            self.raw.0 < typeset@.nodes.len(),
        ensures
            r@ == seq!['[', 's', 'h', 'i', 'f', 't', ' '] + crate::show::dec_chars(
                self.shift as int,
            ) + seq![']', ' '] + crate::types::type_show(
                tree_at(typeset@.nodes, self.raw.0 as int),
                true,
            ),
    {
        let mut out: Vec<char> = Vec::new();
        out.push('[');
        out.push('s');
        out.push('h');
        out.push('i');
        out.push('f');
        out.push('t');
        out.push(' ');
        crate::show::push_usize_dec(self.shift, &mut out);
        out.push(']');
        out.push(' ');
        let t = self.raw.tp(typeset);
        let ts = t.show();
        crate::show::push_string_chars(&ts, &mut out);
        proof {
            assert(out@ =~= seq!['[', 's', 'h', 'i', 'f', 't', ' '] + crate::show::dec_chars(
                self.shift as int,
            ) + seq![']', ' '] + crate::types::type_show(
                tree_at(typeset@.nodes, self.raw.0 as int),
                true,
            ));
        }
        crate::show::chars_to_string(&out)
    }

    /// The two sides of the canonical arrow, under its shift, or
    /// `None` if the representative is not an arrow.
    pub fn as_arrow(&self, typeset: &TypeSet) -> (r: Option<(TypeRef, TypeRef)>)
        requires
            ts_wf(typeset@),
            tr_in_scope(typeset@, *self),
        ensures
            ({
                let c = spec_canonicalize(typeset@, *self);
                match r {
                    Some(p) => node_is_arrow(typeset@.nodes, c.raw.0 as int) && p.0 == (TypeRef {
                        raw: typeset@.nodes[c.raw.0 as int]->Term_1@[0],
                        shift: c.shift,
                    }) && p.1 == (TypeRef {
                        raw: typeset@.nodes[c.raw.0 as int]->Term_1@[1],
                        shift: c.shift,
                    }) && tr_in_scope(typeset@, p.0) && tr_in_scope(typeset@, p.1),
                    None => !node_is_arrow(typeset@.nodes, c.raw.0 as int),
                }
            }),
    {
        let c = self.canonicalize(typeset);
        match c.raw.as_arrow(typeset) {
            Some((l, rr)) => {
                proof {
                    lemma_child_in_scope(typeset@, c, 0);
                    lemma_child_in_scope(typeset@, c, 1);
                }
                Some((l.shift(c.shift), rr.shift(c.shift)))
            },
            None => None,
        }
    }

    /// Is the representative an arrow?
    pub fn is_arrow(&self, typeset: &TypeSet) -> (r: bool)
        requires
            ts_wf(typeset@),
            tr_in_scope(typeset@, *self),
        ensures
            r == node_is_arrow(
                typeset@.nodes,
                spec_canonicalize(typeset@, *self).raw.0 as int,
            ),
    {
        match self.as_arrow(typeset) {
            Some(_) => true,
            None => false,
        }
    }

    /// The `(left, right)` pairs of the arrow chain starting here,
    /// resolving bindings at each step.
    pub fn iter_arrows(&self, typeset: &TypeSet) -> (r: Vec<(TypeRef, TypeRef)>)
        requires
            ts_wf(typeset@),
            tr_in_scope(typeset@, *self),
        ensures
            r@.map_values(|p: (TypeRef, TypeRef)| p.0) == spec_args_ts(
                typeset@,
                *self,
                resolve_fuel(),
            ),
    {
        let mut out: Vec<(TypeRef, TypeRef)> = Vec::new();
        let mut cur = *self;
        let mut fuel: usize = usize::MAX;
        proof {
            assert(out@.map_values(|p: (TypeRef, TypeRef)| p.0) =~= Seq::<TypeRef>::empty());
        }
        loop
            invariant
                ts_wf(typeset@),
                tr_in_scope(typeset@, cur),
                spec_args_ts(typeset@, *self, resolve_fuel()) == out@.map_values(
                    |p: (TypeRef, TypeRef)| p.0,
                ) + spec_args_ts(typeset@, cur, fuel as nat),
            decreases fuel,
        {
            if fuel == 0 {
                proof {
                    assert(spec_args_ts(typeset@, *self, resolve_fuel()) =~= out@.map_values(
                        |p: (TypeRef, TypeRef)| p.0,
                    ));
                }
                return out;
            }
            match cur.as_arrow(typeset) {
                Some((l, rr)) => {
                    out.push((l, rr));
                    cur = rr;
                    fuel = fuel - 1;
                    proof {
                        assert(out@.map_values(|p: (TypeRef, TypeRef)| p.0)
                            =~= out@.drop_last().map_values(|p: (TypeRef, TypeRef)| p.0).push(
                            l,
                        ));
                        assert(spec_args_ts(typeset@, *self, resolve_fuel()) =~= out@.map_values(
                            |p: (TypeRef, TypeRef)| p.0,
                        ) + spec_args_ts(typeset@, cur, fuel as nat));
                    }
                },
                None => {
                    proof {
                        assert(spec_args_ts(typeset@, *self, resolve_fuel()) =~= out@.map_values(
                            |p: (TypeRef, TypeRef)| p.0,
                        ));
                    }
                    return out;
                },
            }
        }
    }

    /// The uncurried argument references of this arrow chain.
    pub fn iter_args(&self, typeset: &TypeSet) -> (r: Vec<TypeRef>)
        requires
            ts_wf(typeset@),
            tr_in_scope(typeset@, *self),
        ensures
            r@ == spec_args_ts(typeset@, *self, resolve_fuel()),
    {
        let pairs = self.iter_arrows(typeset);
        let mut out: Vec<TypeRef> = Vec::new();
        let mut k: usize = 0;
        while k < pairs.len()
            invariant
                k <= pairs@.len(),
                out@ == pairs@.subrange(0, k as int).map_values(|p: (TypeRef, TypeRef)| p.0),
            decreases pairs@.len() - k,
        {
            out.push(pairs[k].0);
            k = k + 1;
            proof {
                assert(pairs@.subrange(0, k as int).drop_last() =~= pairs@.subrange(0, k - 1));
                assert(out@ =~= pairs@.subrange(0, k as int).map_values(
                    |p: (TypeRef, TypeRef)| p.0,
                ));
            }
        }
        proof {
            assert(pairs@.subrange(0, pairs@.len() as int) =~= pairs@);
        }
        out
    }

    /// Arity of this arrow chain (zero for a non-arrow).
    pub fn arity(&self, typeset: &TypeSet) -> (r: usize)
        requires
            ts_wf(typeset@),
            tr_in_scope(typeset@, *self),
        ensures
            r == spec_args_ts(typeset@, *self, resolve_fuel()).len(),
    {
        let args = self.iter_args(typeset);
        args.len()
    }

    /// The return reference after uncurrying; a non-arrow is returned
    /// unchanged.
    pub fn return_type(&self, typeset: &TypeSet) -> (r: TypeRef)
        requires
            ts_wf(typeset@),
            tr_in_scope(typeset@, *self),
        ensures
            r == spec_return_ts(typeset@, *self, resolve_fuel()),
            tr_in_scope(typeset@, r),
    {
        let mut cur = *self;
        let mut fuel: usize = usize::MAX;
        loop
            invariant
                ts_wf(typeset@),
                tr_in_scope(typeset@, cur),
                spec_return_ts(typeset@, *self, resolve_fuel()) == spec_return_ts(
                    typeset@,
                    cur,
                    fuel as nat,
                ),
            decreases fuel,
        {
            if fuel == 0 {
                return cur;
            }
            match cur.as_arrow(typeset) {
                Some((_, rr)) => {
                    cur = rr;
                    fuel = fuel - 1;
                },
                None => {
                    return cur;
                },
            }
        }
    }

    /// Are there no type variables in the full resolution of this
    /// reference?
    pub fn is_concrete(&self, typeset: &TypeSet) -> (r: bool)
        requires
            ts_wf(typeset@),
            tr_in_scope(typeset@, *self),
        ensures
            r == spec_concrete_ts(typeset@, *self, resolve_fuel()),
    {
        concrete_fuel(typeset, *self, usize::MAX)
    }
}

/// Fuel-bounded concreteness check.
fn concrete_fuel(typeset: &TypeSet, tr: TypeRef, fuel: usize) -> (r: bool)
    requires
        ts_wf(typeset@),
        tr_in_scope(typeset@, tr),
    ensures
        r == spec_concrete_ts(typeset@, tr, fuel as nat),
    decreases fuel,
{
    if fuel == 0 {
        return false;
    }
    let c = tr.canonicalize(typeset);
    match c.raw.node(typeset) {
        TNode::Var(_) => false,
        TNode::Term(_, args) => {
            let n = args.len();
            let ghost gargs = args@;
            let mut k: usize = 0;
            while k < n
                invariant
                    ts_wf(typeset@),
                    tr_in_scope(typeset@, c),
                    tr_in_scope(typeset@, tr),
                    c == spec_canonicalize(typeset@, tr),
                    typeset@.nodes[c.raw.0 as int] matches TNode::Term(_, a2) && a2@ == gargs,
                    n == gargs.len(),
                    k <= n,
                    fuel >= 1,
                    forall|j: int|
                        0 <= j < k ==> spec_concrete_ts(
                            typeset@,
                            TypeRef { raw: gargs[j], shift: c.shift },
                            (fuel - 1) as nat,
                        ),
                decreases n - k,
            {
                proof {
                    lemma_child_in_scope(typeset@, c, k as int);
                }
                let child = match c.raw.node(typeset) {
                    TNode::Term(_, args2) => TypeRef { raw: args2[k], shift: c.shift },
                    _ => TypeRef { raw: c.raw, shift: c.shift },
                };
                if !concrete_fuel(typeset, child, fuel - 1) {
                    return false;
                }
                k = k + 1;
            }
            true
        },
    }
}

/// Does variable id `j` occur syntactically in the subterm stored at
/// `i` (no bindings applied)?
pub open spec fn raw_var_occurs(nodes: Seq<TNode>, i: int, j: int) -> bool
    decreases i, 1int, 0int,
        when 0 <= i < nodes.len() && nodes_child_first(nodes)
{
    match nodes[i] {
        TNode::Var(j0) => j == j0,
        TNode::Term(_, args) => exists|k: int|
            0 <= k < args@.len() && raw_var_occurs(nodes, (#[trigger] args@[k]).0 as int, j),
    }
}

/// Occurring variables are bounded by the cached maximum.
pub proof fn lemma_raw_var_bound(nodes: Seq<TNode>, i: int, j: int)
    requires
        nodes_child_first(nodes),
        0 <= i < nodes.len(),
        raw_var_occurs(nodes, i, j),
    ensures
        spec_max_var(nodes, i) matches Some(m) && j <= m,
        j >= 0,
    decreases i, 1int, 0int,
{
    match nodes[i] {
        TNode::Var(_) => {},
        TNode::Term(_, args) => {
            let k = choose|k: int|
                0 <= k < args@.len() && raw_var_occurs(nodes, (#[trigger] args@[k]).0 as int, j);
            lemma_raw_var_bound(nodes, args@[k].0 as int, j);
            lemma_mv_list_elem(nodes, args@, i, k);
        },
    }
}

/// Does the instance of the scheme at `raw` under `shift` mention
/// logical variable `x`?
pub open spec fn ref_mentions(nodes: Seq<TNode>, raw: RawTypeRef, shift: int, x: int) -> bool {
    exists|j: int| raw_var_occurs(nodes, raw.0 as int, j) && x == j + shift
}

/// Law: two successive instantiations of one scheme yield the same
/// stored term under two shifts -- structurally equal up to renaming
/// each scheme variable `j` to `j + shift` -- and the two instances
/// share no logical variable: the second shift starts past every
/// variable the first instance can mention.
pub proof fn lemma_instantiate_twice_disjoint(
    nodes: Seq<TNode>,
    raw: RawTypeRef,
    s1: int,
    s2: int,
)
    requires
        nodes_child_first(nodes),
        raw.0 < nodes.len(),
        s1 >= 0,
        match spec_max_var(nodes, raw.0 as int) {
            Some(m) => s2 >= s1 + m + 1,
            None => s2 >= s1,
        },
    ensures
        forall|x: int|
            !(#[trigger] ref_mentions(nodes, raw, s1, x) && ref_mentions(nodes, raw, s2, x)),
{
    assert forall|x: int|
        !(#[trigger] ref_mentions(nodes, raw, s1, x) && ref_mentions(nodes, raw, s2, x)) by {
        if ref_mentions(nodes, raw, s1, x) && ref_mentions(nodes, raw, s2, x) {
            let j1 = choose|j: int| raw_var_occurs(nodes, raw.0 as int, j) && x == j + s1;
            let j2 = choose|j: int| raw_var_occurs(nodes, raw.0 as int, j) && x == j + s2;
            lemma_raw_var_bound(nodes, raw.0 as int, j1);
            lemma_raw_var_bound(nodes, raw.0 as int, j2);
        }
    }
}

/// Law: unifying a variable reference with itself succeeds and binds
/// nothing, whenever the reference resolves to a variable (in
/// particular, always for an unbound variable).
pub proof fn lemma_unify_var_self(v: TsView, t: TypeRef, fuel: nat)
    requires
        ts_wf(v),
        t.raw.0 < v.nodes.len(),
        v.nodes[spec_canonicalize(v, t).raw.0 as int] matches TNode::Var(_),
        fuel >= 1,
    ensures
        spec_unify_ts(v, t, t, fuel) == (v.subst, Ok::<(), UnifyErr>(())),
{
    lemma_canon_props(v, t);
}

/// Law: unifying a variable with a term that contains that same
/// variable fails with the occurs check (so no infinite type is ever
/// built). The containment hypothesis names the argument position
/// whose resolution is the variable itself.
pub proof fn lemma_unify_occurs(v: TsView, t1: TypeRef, t2: TypeRef, k: int, fuel: nat)
    requires
        ts_wf(v),
        t1.raw.0 < v.nodes.len(),
        t2.raw.0 < v.nodes.len(),
        v.nodes[spec_canonicalize(v, t1).raw.0 as int] matches TNode::Var(_),
        v.nodes[spec_canonicalize(v, t2).raw.0 as int] matches TNode::Term(_, args) && 0 <= k
            < args@.len(),
        ({
            let c1 = spec_canonicalize(v, t1);
            let c2 = spec_canonicalize(v, t2);
            let c3 = spec_canonicalize(
                v,
                TypeRef { raw: v.nodes[c2.raw.0 as int]->Term_1@[k], shift: c2.shift },
            );
            &&& v.nodes[c3.raw.0 as int] matches TNode::Var(j3) && j3 + c3.shift
                == v.nodes[c1.raw.0 as int]->Var_0 + c1.shift
            &&& c3.raw.0 < v.nodes.len()
        }),
        fuel >= 2,
    ensures
        spec_unify_ts(v, t1, t2, fuel).1 == Err::<(), UnifyErr>(UnifyErr::Occurs),
{
    let c1 = spec_canonicalize(v, t1);
    let c2 = spec_canonicalize(v, t2);
    let x = v.nodes[c1.raw.0 as int]->Var_0 + c1.shift;
    lemma_canon_props(v, t1);
    lemma_canon_props(v, t2);
    let child = TypeRef { raw: v.nodes[c2.raw.0 as int]->Term_1@[k], shift: c2.shift };
    let c3 = spec_canonicalize(v, child);
    assert(spec_occurs_ts(v, x, child, (fuel - 2) as nat)) by {
        if fuel - 2 == 0 {
        } else {
            assert(v.nodes[c3.raw.0 as int] matches TNode::Var(j3) && x == j3 + c3.shift);
        }
    }
    assert(spec_occurs_ts(v, x, c2, (fuel - 1) as nat)) by {
        lemma_canon_idem(v, c2);
        assert(spec_canonicalize(v, c2) == c2);
    }
}

/// Canonicalizing a representative changes nothing.
pub proof fn lemma_canon_idem(v: TsView, c: TypeRef)
    requires
        ts_wf(v),
        c.raw.0 < v.nodes.len(),
        is_canon(v, c),
    ensures
        spec_canonicalize(v, c) == c,
{
}

/// Law (root case): if the pre-check rejects two types because their
/// representatives' head symbols or arities differ, unification
/// fails on them, under any recursion budget.
pub proof fn lemma_might_ts_root_complete(v: TsView, t1: TypeRef, t2: TypeRef, fuel: nat)
    requires
        ts_wf(v),
        t1.raw.0 < v.nodes.len(),
        t2.raw.0 < v.nodes.len(),
        v.nodes[t1.raw.0 as int] matches TNode::Term(_, _),
        v.nodes[spec_canonicalize(v, t2).raw.0 as int] matches TNode::Term(_, _),
        ({
            let n1 = v.nodes[t1.raw.0 as int];
            let n2 = v.nodes[spec_canonicalize(v, t2).raw.0 as int];
            !(n1->Term_0@ == n2->Term_0@ && n1->Term_1@.len() == n2->Term_1@.len())
        }),
    ensures
        !spec_might_ts(v, t1.raw, t2),
        fuel >= 1 ==> spec_unify_ts(v, t1, t2, fuel).1 is Err,
{
    if fuel >= 1 {
        assert(spec_canonicalize(v, t1) == t1);
    }
}

/// Is `s1` the log `s0` extended only by bindings of variables that
/// were unbound when each was appended?
pub open spec fn fresh_ext(s0: Seq<(usize, TypeRef)>, s1: Seq<(usize, TypeRef)>) -> bool
    decreases s1.len(),
{
    if s1.len() < s0.len() {
        false
    } else if s1.len() == s0.len() {
        s1 == s0
    } else {
        fresh_ext(s0, s1.drop_last()) && find_binding(s1.drop_last(), s1.last().0 as int) < 0
    }
}

/// Fresh extension is transitive.
pub proof fn lemma_fresh_ext_trans(
    a: Seq<(usize, TypeRef)>,
    b: Seq<(usize, TypeRef)>,
    cc: Seq<(usize, TypeRef)>,
)
    requires
        fresh_ext(a, b),
        fresh_ext(b, cc),
    ensures
        fresh_ext(a, cc),
    decreases cc.len(),
{
    if cc.len() == b.len() {
    } else {
        lemma_fresh_ext_trans(a, b, cc.drop_last());
    }
}

/// A fresh extension keeps the base log as its prefix.
pub proof fn lemma_fresh_ext_prefix(s0: Seq<(usize, TypeRef)>, s1: Seq<(usize, TypeRef)>)
    requires
        fresh_ext(s0, s1),
    ensures
        s0.len() <= s1.len(),
        forall|i: int| 0 <= i < s0.len() ==> s1[i] == s0[i],
    decreases s1.len(),
{
    if s1.len() > s0.len() {
        lemma_fresh_ext_prefix(s0, s1.drop_last());
        assert forall|i: int| 0 <= i < s0.len() implies s1[i] == s0[i] by {
            assert(s1.drop_last()[i] == s0[i]);
        }
    }
}

/// A variable bound in the base log keeps its binding position under
/// a fresh extension.
pub proof fn lemma_find_fresh_ext(s0: Seq<(usize, TypeRef)>, s1: Seq<(usize, TypeRef)>, w: int)
    requires
        fresh_ext(s0, s1),
        find_binding(s0, w) >= 0,
    ensures
        find_binding(s1, w) == find_binding(s0, w),
    decreases s1.len(),
{
    if s1.len() > s0.len() {
        lemma_find_fresh_ext(s0, s1.drop_last(), w);
        lemma_find_push(s1.drop_last(), s1.last(), w);
        assert(s1.drop_last().push(s1.last()) =~= s1);
    }
}

/// A representative that is a term keeps its identity under a fresh
/// extension of the log.
pub proof fn lemma_canon_fresh_ext(v: TsView, v2: TsView, tr: TypeRef)
    requires
        ts_wf(v),
        ts_wf(v2),
        v2.nodes == v.nodes,
        v2.max_vars == v.max_vars,
        v2.next_var == v.next_var,
        fresh_ext(v.subst, v2.subst),
        tr.raw.0 < v.nodes.len(),
        v.nodes[spec_canonicalize(v, tr).raw.0 as int] matches TNode::Term(_, _),
    ensures
        spec_canonicalize(v2, tr) == spec_canonicalize(v, tr),
    decreases v.subst.len() - canon_pos(v, tr),
{
    match v.nodes[tr.raw.0 as int] {
        TNode::Var(j) => {
            let lv = j + tr.shift;
            let p = find_binding(v.subst, lv);
            assert(p >= 0);
            lemma_find_binding(v.subst, lv);
            lemma_find_fresh_ext(v.subst, v2.subst, lv);
            lemma_fresh_ext_prefix(v.subst, v2.subst);
            assert(v2.subst[p] == v.subst[p]);
            assert(tr_in_scope(v, v.subst[p].1));
            match v.nodes[v.subst[p].1.raw.0 as int] {
                TNode::Var(j2) => {
                    assert(!(0 <= find_binding(v.subst, j2 + v.subst[p].1.shift) <= p));
                    lemma_find_binding(v.subst, j2 + v.subst[p].1.shift);
                },
                _ => {},
            }
            assert(canon_pos(v, v.subst[p].1) > p);
            assert(canon_pos(v, tr) == p);
            lemma_canon_fresh_ext(v, v2, v.subst[p].1);
        },
        _ => {},
    }
}

/// A definite incompatibility survives any fresh extension of the
/// binding log.
pub proof fn lemma_might_ts_fresh_ext(v: TsView, v2: TsView, r1: RawTypeRef, t2: TypeRef)
    requires
        ts_wf(v),
        ts_wf(v2),
        v2.nodes == v.nodes,
        v2.max_vars == v.max_vars,
        v2.next_var == v.next_var,
        fresh_ext(v.subst, v2.subst),
        r1.0 < v.nodes.len(),
        t2.raw.0 < v.nodes.len(),
        !spec_might_ts(v, r1, t2),
    ensures
        !spec_might_ts(v2, r1, t2),
    decreases r1.0,
{
    let c2 = spec_canonicalize(v, t2);
    lemma_canon_props(v, t2);
    match v.nodes[r1.0 as int] {
        TNode::Var(_) => {},
        TNode::Term(x, xs) => {
            match v.nodes[c2.raw.0 as int] {
                TNode::Var(_) => {},
                TNode::Term(y, ys) => {
                    lemma_canon_fresh_ext(v, v2, t2);
                    if x@ == y@ && xs@.len() == ys@.len() {
                        let k = choose|k: int|
                            0 <= k < xs@.len() && !spec_might_ts(
                                v,
                                #[trigger] xs@[k],
                                TypeRef { raw: ys@[k], shift: c2.shift },
                            );
                        lemma_might_ts_fresh_ext(
                            v,
                            v2,
                            xs@[k],
                            TypeRef { raw: ys@[k], shift: c2.shift },
                        );
                    }
                },
            }
        },
    }
}

/// Unification only appends bindings of then-unbound variables, and
/// keeps the arena well-formed, whatever the recursion budget.
pub proof fn lemma_unify_ts_ext(v: TsView, t1: TypeRef, t2: TypeRef, fuel: nat)
    requires
        ts_wf(v),
        tr_in_scope(v, t1),
        tr_in_scope(v, t2),
    ensures
        ({
            let (s1, r) = spec_unify_ts(v, t1, t2, fuel);
            &&& fresh_ext(v.subst, s1)
            &&& ts_wf(TsView { subst: s1, ..v })
        }),
    decreases fuel, 0int,
{
    if fuel == 0 {
        assert(TsView { subst: v.subst, ..v } == v);
    } else {
        let c1 = spec_canonicalize(v, t1);
        let c2 = spec_canonicalize(v, t2);
        lemma_canon_props(v, t1);
        lemma_canon_props(v, t2);
        match v.nodes[c1.raw.0 as int] {
            TNode::Var(j) => {
                let ish = j + c1.shift;
                proof_push_case(v, c1, c2, ish);
            },
            _ => {
                match v.nodes[c2.raw.0 as int] {
                    TNode::Var(j) => {
                        let ish = j + c2.shift;
                        proof_push_case(v, c2, c1, ish);
                    },
                    _ => {
                        let n1 = v.nodes[c1.raw.0 as int];
                        let n2 = v.nodes[c2.raw.0 as int];
                        if n1->Term_0@ == n2->Term_0@ && n1->Term_1@.len() == n2->Term_1@.len() {
                            lemma_unify_ts_list_ext(
                                v,
                                n1->Term_1@,
                                n2->Term_1@,
                                c1,
                                c2,
                                0,
                                (fuel - 1) as nat,
                            );
                        } else {
                            assert(TsView { subst: v.subst, ..v } == v);
                        }
                    },
                }
            },
        }
    }
}

/// The facts `lemma_unify_ts_ext` needs at a binding site.
proof fn proof_push_case(v: TsView, cv: TypeRef, tgt: TypeRef, ish: int)
    requires
        ts_wf(v),
        is_canon(v, cv),
        cv.raw.0 < v.nodes.len(),
        v.nodes[cv.raw.0 as int] matches TNode::Var(j) && ish == j + cv.shift,
        tr_in_scope(v, cv),
        is_canon(v, tgt),
        tr_in_scope(v, tgt),
    ensures
        0 <= ish < v.next_var,
        find_binding(v.subst, ish) < 0,
        fresh_ext(v.subst, v.subst.push((ish as usize, tgt))),
        (v.nodes[tgt.raw.0 as int] matches TNode::Var(j2) && j2 + tgt.shift != ish) ==> ts_wf(
            TsView { subst: v.subst.push((ish as usize, tgt)), ..v },
        ),
        (v.nodes[tgt.raw.0 as int] matches TNode::Term(_, _)) ==> ts_wf(
            TsView { subst: v.subst.push((ish as usize, tgt)), ..v },
        ),
        fresh_ext(v.subst, v.subst),
        ts_wf(TsView { subst: v.subst, ..v }),
{
    assert(mv_ok(v, cv.raw.0 as int));
    assert(fresh_ext(v.subst, v.subst));
    assert(v.subst.push((ish as usize, tgt)).drop_last() =~= v.subst);
    assert(v.subst.push((ish as usize, tgt)).last() == (ish as usize, tgt));
    assert(fresh_ext(v.subst, v.subst.push((ish as usize, tgt))));
    assert(TsView { subst: v.subst, ..v } == v);
    if v.nodes[tgt.raw.0 as int] matches TNode::Var(j2) && j2 + tgt.shift != ish {
        lemma_wf_push(v, ish, tgt);
    }
    if v.nodes[tgt.raw.0 as int] matches TNode::Term(_, _) {
        lemma_wf_push(v, ish, tgt);
    }
}

/// As `lemma_unify_ts_ext`, over the argument pairs.
pub proof fn lemma_unify_ts_list_ext(
    v: TsView,
    xs: Seq<RawTypeRef>,
    ys: Seq<RawTypeRef>,
    c1: TypeRef,
    c2: TypeRef,
    k: int,
    fuel: nat,
)
    requires
        ts_wf(v),
        tr_in_scope(v, c1),
        tr_in_scope(v, c2),
        v.nodes[c1.raw.0 as int] matches TNode::Term(_, a) && a@ == xs,
        v.nodes[c2.raw.0 as int] matches TNode::Term(_, b) && b@ == ys,
        xs.len() == ys.len(),
        0 <= k,
    ensures
        ({
            let (s1, r) = spec_unify_ts_list(v, xs, ys, c1.shift, c2.shift, k, fuel);
            &&& fresh_ext(v.subst, s1)
            &&& ts_wf(TsView { subst: s1, ..v })
        }),
    decreases fuel, xs.len() - k + 1,
{
    if k >= xs.len() {
        assert(TsView { subst: v.subst, ..v } == v);
    } else {
        lemma_child_in_scope(v, c1, k);
        lemma_child_in_scope(v, c2, k);
        let p1 = TypeRef { raw: xs[k], shift: c1.shift };
        let p2 = TypeRef { raw: ys[k], shift: c2.shift };
        lemma_unify_ts_ext(v, p1, p2, fuel);
        let (s1, r) = spec_unify_ts(v, p1, p2, fuel);
        if !(r is Err) {
            let v1 = TsView { subst: s1, ..v };
            lemma_unify_ts_list_ext(v1, xs, ys, c1, c2, k + 1, fuel);
            let (s2, _) = spec_unify_ts_list(v1, xs, ys, c1.shift, c2.shift, k + 1, fuel);
            lemma_fresh_ext_trans(v.subst, s1, s2);
        }
    }
}

/// Law: a `false` from the conservative pre-check is never wrong for
/// the arena engine either: if `might_unify` rejects a raw type
/// against a reference, `unify` fails on them, under any recursion
/// budget (the converse need not hold).
pub proof fn lemma_might_ts_complete(v: TsView, t1: TypeRef, t2: TypeRef, fuel: nat)
    requires
        ts_wf(v),
        tr_in_scope(v, t1),
        tr_in_scope(v, t2),
        !spec_might_ts(v, t1.raw, t2),
    ensures
        spec_unify_ts(v, t1, t2, fuel).1 is Err,
    decreases fuel, 0int,
{
    if fuel > 0 {
        let c2 = spec_canonicalize(v, t2);
        lemma_canon_props(v, t2);
        match v.nodes[t1.raw.0 as int] {
            TNode::Var(_) => {
                assert(false);
            },
            TNode::Term(x, xs) => {
                assert(spec_canonicalize(v, t1) == t1);
                match v.nodes[c2.raw.0 as int] {
                    TNode::Var(_) => {
                        assert(false);
                    },
                    TNode::Term(y, ys) => {
                        if x@ == y@ && xs@.len() == ys@.len() {
                            let k0 = choose|k: int|
                                0 <= k < xs@.len() && !spec_might_ts(
                                    v,
                                    #[trigger] xs@[k],
                                    TypeRef { raw: ys@[k], shift: c2.shift },
                                );
                            lemma_might_ts_list_complete(
                                v,
                                xs@,
                                ys@,
                                t1,
                                c2,
                                0,
                                k0,
                                (fuel - 1) as nat,
                            );
                        }
                    },
                }
            },
        }
    }
}

/// As `lemma_might_ts_complete`, over the argument pairs: one
/// definitely incompatible pair at or after position `k` makes the
/// pairwise pass fail.
pub proof fn lemma_might_ts_list_complete(
    v: TsView,
    xs: Seq<RawTypeRef>,
    ys: Seq<RawTypeRef>,
    c1: TypeRef,
    c2: TypeRef,
    k: int,
    k0: int,
    fuel: nat,
)
    requires
        ts_wf(v),
        tr_in_scope(v, c1),
        tr_in_scope(v, c2),
        v.nodes[c1.raw.0 as int] matches TNode::Term(_, a) && a@ == xs,
        v.nodes[c2.raw.0 as int] matches TNode::Term(_, b) && b@ == ys,
        xs.len() == ys.len(),
        0 <= k <= k0 < xs.len(),
        !spec_might_ts(v, xs[k0], TypeRef { raw: ys[k0], shift: c2.shift }),
    ensures
        spec_unify_ts_list(v, xs, ys, c1.shift, c2.shift, k, fuel).1 is Err,
    decreases fuel, xs.len() - k + 1,
{
    lemma_child_in_scope(v, c1, k);
    lemma_child_in_scope(v, c2, k);
    let p1 = TypeRef { raw: xs[k], shift: c1.shift };
    let p2 = TypeRef { raw: ys[k], shift: c2.shift };
    if k == k0 {
        lemma_might_ts_complete(v, p1, p2, fuel);
    } else {
        let (s1, r) = spec_unify_ts(v, p1, p2, fuel);
        if !(r is Err) {
            lemma_unify_ts_ext(v, p1, p2, fuel);
            let v1 = TsView { subst: s1, ..v };
            lemma_might_ts_fresh_ext(
                v,
                v1,
                xs[k0],
                TypeRef { raw: ys[k0], shift: c2.shift },
            );
            lemma_might_ts_list_complete(v1, xs, ys, c1, c2, k + 1, k0, fuel);
        }
    }
}

/// Law: against an empty binding log, unifying any reference with
/// itself succeeds and binds nothing, whenever the budget exceeds
/// the node's index (always true of the budget `unify` runs with).
pub proof fn lemma_unify_self_noop(v: TsView, t: TypeRef, fuel: nat)
    requires
        ts_wf(v),
        t.raw.0 < v.nodes.len(),
        v.subst.len() == 0,
        fuel > t.raw.0,
    ensures
        spec_unify_ts(v, t, t, fuel) == (v.subst, Ok::<(), UnifyErr>(())),
    decreases t.raw.0, 1int, 0int,
{
    assert(spec_canonicalize(v, t) == t);
    match v.nodes[t.raw.0 as int] {
        TNode::Var(_) => {},
        TNode::Term(_, args) => {
            lemma_unify_self_list_noop(v, args@, t, 0, (fuel - 1) as nat);
        },
    }
}

/// As `lemma_unify_self_noop`, over the argument pairs of one term
/// unified with itself.
pub proof fn lemma_unify_self_list_noop(
    v: TsView,
    xs: Seq<RawTypeRef>,
    c: TypeRef,
    k: int,
    fuel: nat,
)
    requires
        ts_wf(v),
        c.raw.0 < v.nodes.len(),
        v.subst.len() == 0,
        v.nodes[c.raw.0 as int] matches TNode::Term(_, a) && a@ == xs,
        0 <= k,
        fuel >= c.raw.0,
    ensures
        spec_unify_ts_list(v, xs, xs, c.shift, c.shift, k, fuel) == (
            v.subst,
            Ok::<(), UnifyErr>(()),
        ),
    decreases c.raw.0, 0int, xs.len() - k + 1,
{
    if k < xs.len() {
        assert(xs[k].0 < c.raw.0);
        lemma_unify_self_noop(v, TypeRef { raw: xs[k], shift: c.shift }, fuel);
        lemma_unify_self_list_noop(v, xs, c, k + 1, fuel);
    }
}

} // verus!
