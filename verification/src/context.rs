//! The classical unification engine: a substitution context over
//! owned type trees, with an append-only (rollback-capable) binding
//! log or an alternative union-find-style binding table.

use vstd::prelude::*;
use crate::types::{
    Type, TypeView, UnifyErr, UnifyResult, type_view, type_views, lemma_type_views, view_occurs,
    view_concrete, arrow_chars,
};

verus! {

/// The fuel bound on substitution chains: resolution that takes more
/// steps than this (impossible for any context built through this
/// module's own operations) is treated as a cyclic context.
pub open spec fn resolve_fuel() -> nat {
    usize::MAX as nat
}

/// The mathematical value of a substitution context.
pub struct CtxView {
    /// The append-only binding log, oldest first (later entries
    /// shadow earlier ones).
    pub ao: Seq<(int, TypeView)>,
    /// The union-find-style table, indexed by variable id.
    pub uf: Seq<Option<TypeView>>,
    /// The next unused type-variable id.
    pub next_var: int,
    /// Which of the two backings this context uses.
    pub append_only: bool,
}

/// A substitution context: bindings from type variables to types,
/// plus the next fresh variable id.
#[derive(Debug)]
pub struct Context {
    subst_unionfind: Vec<Option<Type>>,
    subst_append_only: Vec<(usize, Type)>,
    next_var: usize,
    append_only: bool,
}

impl View for Context {
    type V = CtxView;

    closed spec fn view(&self) -> CtxView {
        CtxView {
            ao: Seq::new(
                self.subst_append_only@.len(),
                |k: int|
                    (
                        self.subst_append_only@[k].0 as int,
                        type_view(self.subst_append_only@[k].1),
                    ),
            ),
            uf: Seq::new(
                self.subst_unionfind@.len(),
                |k: int|
                    match self.subst_unionfind@[k] {
                        Some(t) => Some(type_view(t)),
                        None => None,
                    },
            ),
            next_var: self.next_var as int,
            append_only: self.append_only,
        }
    }
}

/// The last binding for `v` in an append-only log, if any.
pub open spec fn ao_lookup(s: Seq<(int, TypeView)>, v: int) -> Option<TypeView>
    decreases s.len(),
{
    if s.len() == 0 {
        None
    } else if s.last().0 == v {
        Some(s.last().1)
    } else {
        ao_lookup(s.drop_last(), v)
    }
}

/// What variable `v` is bound to in the context, if anything.
pub open spec fn ctx_get(c: CtxView, v: int) -> Option<TypeView> {
    if c.append_only {
        ao_lookup(c.ao, v)
    } else {
        if 0 <= v < c.uf.len() {
            c.uf[v]
        } else {
            None
        }
    }
}

/// The context after binding `v` to `t`. In the union-find backing, a
/// variable the table does not cover yet first grows the table with
/// unbound entries.
pub open spec fn ctx_set(c: CtxView, v: int, t: TypeView) -> CtxView {
    if c.append_only {
        CtxView { ao: c.ao.push((v, t)), ..c }
    } else if v < c.uf.len() {
        CtxView { uf: c.uf.update(v, Some(t)), ..c }
    } else {
        CtxView {
            uf: (c.uf + Seq::new((v - c.uf.len()) as nat, |k: int| None::<TypeView>)).push(
                Some(t),
            ),
            ..c
        }
    }
}

/// The context instantiation leaves: bindings unchanged, the
/// fresh-variable counter advanced past every variable of the
/// shifted scheme (a ground scheme allocates nothing).
pub open spec fn ctx_after_instantiate(c: CtxView, scheme: TypeView) -> CtxView {
    if crate::types::view_concrete(scheme) {
        c
    } else {
        CtxView {
            next_var: c.next_var + crate::types::vmax_view(scheme) + 1,
            uf: if c.append_only {
                c.uf
            } else {
                c.uf + Seq::new(
                    (crate::types::vmax_view(scheme) + 1) as nat,
                    |k: int| None::<TypeView>,
                )
            },
            ..c
        }
    }
}

/// Resolve every bound variable in `v`, recursively, following at
/// most `fuel` bindings along any path.
pub open spec fn spec_apply(c: CtxView, v: TypeView, fuel: nat) -> TypeView
    decreases fuel, v, 1int, 0int,
{
    match v {
        TypeView::Var(i) => {
            if fuel == 0 {
                v
            } else {
                match ctx_get(c, i) {
                    Some(t) => spec_apply(c, t, (fuel - 1) as nat),
                    None => v,
                }
            }
        },
        TypeView::Term(name, args) => TypeView::Term(name, spec_apply_list(c, args, fuel)),
    }
}

/// `spec_apply` over a list of argument types.
pub open spec fn spec_apply_list(c: CtxView, vs: Seq<TypeView>, fuel: nat) -> Seq<TypeView>
    decreases fuel, vs, 0int, vs.len(),
{
    if vs.len() == 0 {
        Seq::empty()
    } else {
        spec_apply_list(c, vs.drop_last(), fuel).push(spec_apply(c, vs.last(), fuel))
    }
}

/// `spec_apply_list` maps the list elementwise.
pub proof fn lemma_spec_apply_list(c: CtxView, vs: Seq<TypeView>, fuel: nat)
    ensures
        spec_apply_list(c, vs, fuel).len() == vs.len(),
        forall|i: int|
            0 <= i < vs.len() ==> spec_apply_list(c, vs, fuel)[i] == spec_apply(
                c,
                #[trigger] vs[i],
                fuel,
            ),
    decreases vs.len(),
{
    if vs.len() > 0 {
        lemma_spec_apply_list(c, vs.drop_last(), fuel);
        assert forall|i: int| 0 <= i < vs.len() implies spec_apply_list(c, vs, fuel)[i]
            == spec_apply(c, #[trigger] vs[i], fuel) by {
            if i < vs.len() - 1 {
                assert(vs.drop_last()[i] == vs[i]);
            }
        }
    }
}

/// One unification step of the tree engine, mirrored mathematically:
/// apply the context to both sides, take the ground fast path, then
/// bind a variable (after the occurs check) or recurse over the
/// arguments of equal-headed terms.
pub open spec fn spec_unify(c: CtxView, v1: TypeView, v2: TypeView, fuel: nat) -> (
    CtxView,
    UnifyResult,
)
    decreases fuel, 0int,
{
    if fuel == 0 {
        (c, Err(UnifyErr::Occurs))
    } else {
        let a1 = spec_apply(c, v1, resolve_fuel());
        let a2 = spec_apply(c, v2, resolve_fuel());
        if view_concrete(a1) && view_concrete(a2) {
            if a1 == a2 {
                (c, Ok(()))
            } else {
                (c, Err(UnifyErr::ConcreteSubtree))
            }
        } else {
            match a1 {
                TypeView::Var(i) => {
                    if a2 == TypeView::Var(i) {
                        (c, Ok(()))
                    } else if view_occurs(a2, i) {
                        (c, Err(UnifyErr::Occurs))
                    } else {
                        (ctx_set(c, i, a2), Ok(()))
                    }
                },
                _ => match a2 {
                    TypeView::Var(i) => {
                        if view_occurs(a1, i) {
                            (c, Err(UnifyErr::Occurs))
                        } else {
                            (ctx_set(c, i, a1), Ok(()))
                        }
                    },
                    _ => {
                        let xs = a1->Term_1;
                        let ys = a2->Term_1;
                        if a1->Term_0 != a2->Term_0 || xs.len() != ys.len() {
                            (c, Err(UnifyErr::Production))
                        } else {
                            spec_unify_list(c, xs, ys, 0, (fuel - 1) as nat)
                        }
                    },
                },
            }
        }
    }
}

/// Unify corresponding argument pairs left to right; the first
/// failure short-circuits, keeping the bindings made so far.
pub open spec fn spec_unify_list(
    c: CtxView,
    xs: Seq<TypeView>,
    ys: Seq<TypeView>,
    k: int,
    fuel: nat,
) -> (CtxView, UnifyResult)
    decreases fuel, xs.len() - k + 1,
{
    if k < 0 || k >= xs.len() || k >= ys.len() {
        (c, Ok(()))
    } else {
        let (c1, r) = spec_unify(c, xs[k], ys[k], fuel);
        if r is Err {
            (c1, r)
        } else {
            spec_unify_list(c1, xs, ys, k + 1, fuel)
        }
    }
}

impl Context {
    /// The usual way of creating a context: append-only bindings,
    /// which can be rolled back by truncation.
    pub fn empty() -> (r: Context)
        ensures
            r@.ao.len() == 0,
            r@.uf.len() == 0,
            r@.next_var == 0,
            r@.append_only == true,
    {
        Context {
            subst_unionfind: Vec::new(),
            subst_append_only: Vec::new(),
            next_var: 0,
            append_only: true,
        }
    }

    /// A context backed by a union-find-style table instead of an
    /// append-only log; flat lookups, but no rollback.
    pub fn empty_unionfind() -> (r: Context)
        ensures
            r@.ao.len() == 0,
            r@.uf.len() == 0,
            r@.next_var == 0,
            r@.append_only == false,
    {
        Context {
            subst_unionfind: Vec::new(),
            subst_append_only: Vec::new(),
            next_var: 0,
            append_only: false,
        }
    }

    /// Capture the current log length and fresh-variable counter, for
    /// a later rollback.
    pub fn save_state(&self) -> (r: (usize, usize))
        requires
            self@.append_only,
        ensures
            r.0 == self@.ao.len(),
            r.1 == self@.next_var,
    {
        (self.subst_append_only.len(), self.next_var)
    }

    /// Roll back to a previously captured state by truncating the
    /// binding log and restoring the fresh-variable counter.
    pub fn load_state(&mut self, state: (usize, usize))
        requires
            old(self)@.append_only,
        ensures
            final(self)@.append_only,
            final(self)@.ao == old(self)@.ao.subrange(
                0,
                vstd::math::min(state.0 as int, old(self)@.ao.len() as int),
            ),
            final(self)@.uf == old(self)@.uf,
            final(self)@.next_var == state.1 as int,
    {
        self.subst_append_only.truncate(state.0);
        self.next_var = state.1;
        proof {
            assert(self@.ao =~= old(self)@.ao.subrange(
                0,
                vstd::math::min(state.0 as int, old(self)@.ao.len() as int),
            ));
        }
    }

    /// The next unused type-variable id.
    pub fn next_var_id(&self) -> (r: usize)
        ensures
            r as int == self@.next_var,
    {
        self.next_var
    }

    /// Allocate a fresh type variable.
    pub fn fresh_type_var(&mut self) -> (r: Type)
        requires
            old(self)@.next_var < usize::MAX,
        ensures
            r@ == TypeView::Var(old(self)@.next_var),
            final(self)@.next_var == old(self)@.next_var + 1,
            final(self)@.ao == old(self)@.ao,
            final(self)@.append_only == old(self)@.append_only,
            final(self)@.append_only ==> final(self)@.uf == old(self)@.uf,
            !final(self)@.append_only ==> final(self)@.uf == old(self)@.uf.push(
                None::<TypeView>,
            ),
            forall|v: int| ctx_get(final(self)@, v) == ctx_get(old(self)@, v),
    {
        if !self.append_only {
            self.subst_unionfind.push(None);
            proof {
                assert(self@.uf =~= old(self)@.uf.push(None::<TypeView>));
                assert(self@.ao =~= old(self)@.ao);
            }
        }
        self.next_var = self.next_var + 1;
        proof {
            assert(self@.ao =~= old(self)@.ao);
            if self@.append_only {
                assert(self@.uf =~= old(self)@.uf);
            } else {
                assert(self@.uf =~= old(self)@.uf.push(None::<TypeView>));
            }
        }
        Type::Var(self.next_var - 1)
    }

    /// Allocate fresh type variables until variable `var` exists.
    pub(crate) fn fresh_type_vars(&mut self, var: usize)
        requires
            var < usize::MAX,
        ensures
            final(self)@.next_var == vstd::math::max(old(self)@.next_var, var as int + 1),
            final(self)@.ao == old(self)@.ao,
            final(self)@.append_only == old(self)@.append_only,
            final(self)@.append_only ==> final(self)@.uf == old(self)@.uf,
            !final(self)@.append_only ==> final(self)@.uf == old(self)@.uf + Seq::new(
                (final(self)@.next_var - old(self)@.next_var) as nat,
                |k: int| None::<TypeView>,
            ),
            forall|v: int| ctx_get(final(self)@, v) == ctx_get(old(self)@, v),
    {
        proof {
            if self@.append_only {
            } else {
                assert(self@.uf =~= old(self)@.uf + Seq::new(
                    (self@.next_var - old(self)@.next_var) as nat,
                    |k: int| None::<TypeView>,
                ));
            }
        }
        while var >= self.next_var
            invariant
                var < usize::MAX,
                self@.next_var >= old(self)@.next_var,
                var >= self@.next_var ==> self@.next_var <= var,
                self@.next_var <= vstd::math::max(old(self)@.next_var, var as int + 1),
                self@.ao == old(self)@.ao,
                self@.append_only == old(self)@.append_only,
                self@.append_only ==> self@.uf == old(self)@.uf,
                !self@.append_only ==> self@.uf == old(self)@.uf + Seq::new(
                    (self@.next_var - old(self)@.next_var) as nat,
                    |k: int| None::<TypeView>,
                ),
                forall|v: int| ctx_get(self@, v) == ctx_get(old(self)@, v),
            decreases var + 1 - self.next_var,
        {
            let ghost prev = self@;
            let _ = self.fresh_type_var();
            proof {
                if !self@.append_only {
                    assert(self@.uf =~= old(self)@.uf + Seq::new(
                        (self@.next_var - old(self)@.next_var) as nat,
                        |k: int| None::<TypeView>,
                    ));
                }
            }
        }
    }

    /// What a variable is bound to, if anything.
    fn get(&self, var: usize) -> (r: Option<&Type>)
        ensures
            match r {
                Some(t) => ctx_get(self@, var as int) == Some(t@),
                None => ctx_get(self@, var as int) is None,
            },
    {
        if self.append_only {
            let mut k = self.subst_append_only.len();
            proof {
                assert(self@.ao.subrange(0, self@.ao.len() as int) =~= self@.ao);
            }
            while k > 0
                invariant
                    self@.append_only,
                    k <= self.subst_append_only@.len(),
                    ao_lookup(self@.ao, var as int) == ao_lookup(
                        self@.ao.subrange(0, k as int),
                        var as int,
                    ),
                decreases k,
            {
                k = k - 1;
                proof {
                    assert(self@.ao.subrange(0, k as int + 1).drop_last() =~= self@.ao.subrange(
                        0,
                        k as int,
                    ));
                    assert(self@.ao.subrange(0, k as int + 1).last() == self@.ao[k as int]);
                }
                if self.subst_append_only[k].0 == var {
                    let r = &self.subst_append_only[k].1;
                    proof {
                        assert(*r == self.subst_append_only@[k as int].1);
                        assert(self@.ao[k as int].1 == type_view(self.subst_append_only@[k as int].1));
                        assert(self@.ao[k as int].0 == var as int);
                        assert(ao_lookup(self@.ao.subrange(0, k as int + 1), var as int)
                            == Some(self@.ao[k as int].1));
                        assert(ctx_get(self@, var as int) == Some(type_view(*r)));
                    }
                    return Some(r);
                }
            }
            proof {
                assert(self@.ao.subrange(0, 0).len() == 0);
            }
            None
        } else {
            if var < self.subst_unionfind.len() {
                match &self.subst_unionfind[var] {
                    Some(t) => Some(t),
                    None => None,
                }
            } else {
                None
            }
        }
    }

    /// Bind a variable (growing the union-find table if it does not
    /// cover the variable yet).
    fn set(&mut self, var: usize, ty: Type)
        ensures
            final(self)@ == ctx_set(old(self)@, var as int, ty@),
    {
        if self.append_only {
            self.subst_append_only.push((var, ty));
            proof {
                assert(self@.ao =~= old(self)@.ao.push((var as int, ty@)));
                assert(self@.uf =~= old(self)@.uf);
                assert(self@ == ctx_set(old(self)@, var as int, ty@));
            }
        } else if var < self.subst_unionfind.len() {
            self.subst_unionfind.set(var, Some(ty));
            proof {
                assert(self@.uf =~= old(self)@.uf.update(var as int, Some(ty@)));
                assert(self@.ao =~= old(self)@.ao);
                assert(self@ == ctx_set(old(self)@, var as int, ty@));
            }
        } else {
            let ghost mid0 = self@;
            while self.subst_unionfind.len() < var
                invariant
                    !self@.append_only,
                    self@.append_only == mid0.append_only,
                    self@.ao == mid0.ao,
                    self@.next_var == mid0.next_var,
                    mid0.uf.len() <= self@.uf.len() <= var,
                    self@.uf =~= mid0.uf + Seq::new(
                        (self@.uf.len() - mid0.uf.len()) as nat,
                        |k: int| None::<TypeView>,
                    ),
                decreases var - self.subst_unionfind@.len(),
            {
                let ghost prevuf = self@.uf;
                self.subst_unionfind.push(None);
                proof {
                    assert(self@.uf =~= prevuf.push(None::<TypeView>));
                    assert(self@.uf =~= mid0.uf + Seq::new(
                        (self@.uf.len() - mid0.uf.len()) as nat,
                        |k: int| None::<TypeView>,
                    ));
                    assert(self@.ao =~= mid0.ao);
                }
            }
            let ghost prevuf = self@.uf;
            let ghost tyv = ty@;
            self.subst_unionfind.push(Some(ty));
            proof {
                assert(self@.uf =~= prevuf.push(Some(tyv)));
                assert(self@.uf =~= (mid0.uf + Seq::new(
                    (var - mid0.uf.len()) as nat,
                    |k: int| None::<TypeView>,
                )).push(Some(tyv)));
                assert(self@.ao =~= mid0.ao);
                assert(self@ == ctx_set(old(self)@, var as int, tyv));
            }
        }
    }
}

/// `v` with every type variable shifted up by `s`.
pub open spec fn shift_view(v: TypeView, s: int) -> TypeView
    decreases v, 1int, 0int,
{
    match v {
        TypeView::Var(i) => TypeView::Var(i + s),
        TypeView::Term(name, args) => TypeView::Term(name, shift_view_list(args, s)),
    }
}

/// `shift_view` over a list of argument types.
pub open spec fn shift_view_list(vs: Seq<TypeView>, s: int) -> Seq<TypeView>
    decreases vs, 0int, vs.len(),
{
    if vs.len() == 0 {
        Seq::empty()
    } else {
        shift_view_list(vs.drop_last(), s).push(shift_view(vs.last(), s))
    }
}

/// `shift_view_list` maps the list elementwise.
pub proof fn lemma_shift_view_list(vs: Seq<TypeView>, s: int)
    ensures
        shift_view_list(vs, s).len() == vs.len(),
        forall|i: int|
            0 <= i < vs.len() ==> shift_view_list(vs, s)[i] == shift_view(#[trigger] vs[i], s),
    decreases vs.len(),
{
    if vs.len() > 0 {
        lemma_shift_view_list(vs.drop_last(), s);
        assert forall|i: int| 0 <= i < vs.len() implies shift_view_list(vs, s)[i] == shift_view(
            #[trigger] vs[i],
            s,
        ) by {
            if i < vs.len() - 1 {
                assert(vs.drop_last()[i] == vs[i]);
            }
        }
    }
}

/// The conservative compatibility pre-check of the tree engine: two
/// variables, or a variable and a term, always pass; two terms pass
/// only with equal heads and arity and pairwise-compatible arguments.
pub open spec fn spec_might_unify(v1: TypeView, v2: TypeView) -> bool
    decreases v1,
{
    match v1 {
        TypeView::Var(_) => true,
        TypeView::Term(x, xs) => match v2 {
            TypeView::Var(_) => true,
            TypeView::Term(y, ys) => x == y && xs.len() == ys.len() && forall|k: int|
                0 <= k < xs.len() ==> spec_might_unify(#[trigger] xs[k], ys[k]),
        },
    }
}

impl Type {
    /// Resolve every context-bound variable in this type, following
    /// at most `fuel` bindings along any path.
    fn apply_fuel(&self, ctx: &Context, fuel: usize) -> (r: Type)
        ensures
            r@ == spec_apply(ctx@, self@, fuel as nat),
        decreases fuel, *self,
    {
        match self {
            Type::Var(i) => {
                if fuel == 0 {
                    return Type::Var(*i);
                }
                match ctx.get(*i) {
                    Some(b) => {
                        let bc = b.clone();
                        bc.apply_fuel(ctx, fuel - 1)
                    },
                    None => Type::Var(*i),
                }
            },
            Type::Term(name, args) => {
                proof {
                    lemma_type_views(args@);
                    lemma_spec_apply_list(ctx@, self@->Term_1, fuel as nat);
                }
                let mut cargs: Vec<Type> = Vec::new();
                let mut k: usize = 0;
                while k < args.len()
                    invariant
                        k <= args@.len(),
                        *self == Type::Term(*name, *args),
                        cargs@.len() == k,
                        forall|j: int|
                            0 <= j < k ==> #[trigger] cargs@[j]@ == spec_apply(
                                ctx@,
                                args@[j]@,
                                fuel as nat,
                            ),
                    decreases args@.len() - k,
                {
                    proof {
                        lemma_type_views(args@);
                        assert(decreases_to!(*self => self->Term_1));
                        assert(decreases_to!(self->Term_1 => self->Term_1@));
                        assert(decreases_to!(self->Term_1@ => self->Term_1@[k as int]));
                    }
                    let c = args[k].apply_fuel(ctx, fuel);
                    cargs.push(c);
                    k = k + 1;
                }
                let r = Type::Term(name.clone(), cargs);
                proof {
                    lemma_type_views(args@);
                    lemma_type_views(cargs@);
                    lemma_spec_apply_list(ctx@, self@->Term_1, fuel as nat);
                    assert forall|j: int| 0 <= j < args@.len() implies type_views(cargs@)[j]
                        == spec_apply_list(ctx@, self@->Term_1, fuel as nat)[j] by {
                        assert(cargs@[j]@ == spec_apply(ctx@, args@[j]@, fuel as nat));
                        assert(self@->Term_1[j] == args@[j]@);
                    }
                    assert(type_views(cargs@) =~= spec_apply_list(
                        ctx@,
                        self@->Term_1,
                        fuel as nat,
                    ));
                }
                r
            },
        }
    }

    /// Apply the context's substitution to this type: every bound
    /// variable is replaced, recursively, by what it is bound to.
    pub fn apply(&self, ctx: &Context) -> (r: Type)
        ensures
            r@ == spec_apply(ctx@, self@, resolve_fuel()),
    {
        self.apply_fuel(ctx, usize::MAX)
    }

    /// The amortizing twin of `apply`: the interface offers both as
    /// interchangeable strategies with identical observable results.
    /// Here the write-back is omitted, so the context is untouched.
    pub fn apply_cached(&self, ctx: &mut Context) -> (r: Type)
        ensures
            r@ == spec_apply(old(ctx)@, self@, resolve_fuel()),
            final(ctx)@ == old(ctx)@,
    {
        self.apply_fuel(ctx, usize::MAX)
    }

    /// Shift every variable of this type into the fresh range of the
    /// context, returning the renamed copy (used by `instantiate`).
    fn instantiate_aux(&self, ctx: &mut Context, shift_by: usize) -> (r: Type)
        requires
            forall|j: int| view_occurs(self@, j) ==> j + shift_by < usize::MAX,
        ensures
            r@ == shift_view(self@, shift_by as int),
            final(ctx)@.ao == old(ctx)@.ao,
            final(ctx)@.append_only == old(ctx)@.append_only,
            final(ctx)@.next_var >= old(ctx)@.next_var,
            final(ctx)@.next_var == vstd::math::max(
                old(ctx)@.next_var,
                if crate::types::vmax_view(self@) >= 0 {
                    crate::types::vmax_view(self@) + shift_by + 1
                } else {
                    old(ctx)@.next_var
                },
            ),
            final(ctx)@.append_only ==> final(ctx)@.uf == old(ctx)@.uf,
            !final(ctx)@.append_only ==> final(ctx)@.uf == old(ctx)@.uf + Seq::new(
                (final(ctx)@.next_var - old(ctx)@.next_var) as nat,
                |k: int| None::<TypeView>,
            ),
            forall|v: int| ctx_get(final(ctx)@, v) == ctx_get(old(ctx)@, v),
            forall|j: int| view_occurs(r@, j) ==> j < final(ctx)@.next_var,
        decreases *self,
    {
        match self {
            Type::Var(i) => {
                proof {
                    assert(view_occurs(self@, *i as int));
                    assert(crate::types::vmax_view(self@) == *i as int);
                }
                let new = *i + shift_by;
                ctx.fresh_type_vars(new);
                Type::Var(new)
            },
            Type::Term(name, args) => {
                proof {
                    lemma_type_views(args@);
                    lemma_shift_view_list(self@->Term_1, shift_by as int);
                }
                let mut cargs: Vec<Type> = Vec::new();
                let mut k: usize = 0;
                proof {
                    lemma_type_views(args@);
                    assert(crate::types::vmax_list(self@->Term_1.subrange(0, 0)) == -1);
                    if !ctx@.append_only {
                        assert(ctx@.uf =~= old(ctx)@.uf + Seq::new(
                            (ctx@.next_var - old(ctx)@.next_var) as nat,
                            |q: int| None::<TypeView>,
                        ));
                    }
                }
                while k < args.len()
                    invariant
                        k <= args@.len(),
                        *self == Type::Term(*name, *args),
                        self@->Term_1.len() == args@.len(),
                        forall|j: int|
                            0 <= j < args@.len() ==> self@->Term_1[j] == #[trigger] args@[j]@,
                        forall|j: int| view_occurs(self@, j) ==> j + shift_by < usize::MAX,
                        cargs@.len() == k,
                        forall|j: int|
                            0 <= j < k ==> #[trigger] cargs@[j]@ == shift_view(
                                args@[j]@,
                                shift_by as int,
                            ),
                        ctx@.ao == old(ctx)@.ao,
                        ctx@.append_only == old(ctx)@.append_only,
                        ctx@.next_var >= old(ctx)@.next_var,
                        ctx@.next_var == vstd::math::max(
                            old(ctx)@.next_var,
                            if crate::types::vmax_list(self@->Term_1.subrange(0, k as int))
                                >= 0 {
                                crate::types::vmax_list(self@->Term_1.subrange(0, k as int))
                                    + shift_by + 1
                            } else {
                                old(ctx)@.next_var
                            },
                        ),
                        ctx@.append_only ==> ctx@.uf == old(ctx)@.uf,
                        !ctx@.append_only ==> ctx@.uf == old(ctx)@.uf + Seq::new(
                            (ctx@.next_var - old(ctx)@.next_var) as nat,
                            |q: int| None::<TypeView>,
                        ),
                        forall|v: int| ctx_get(ctx@, v) == ctx_get(old(ctx)@, v),
                        forall|j: int, l: int|
                            0 <= l < k && #[trigger] view_occurs(cargs@[l]@, j) ==> j
                                < ctx@.next_var,
                    decreases args@.len() - k,
                {
                    proof {
                        lemma_type_views(args@);
                        assert(decreases_to!(*self => self->Term_1));
                        assert(decreases_to!(self->Term_1 => self->Term_1@));
                        assert(decreases_to!(self->Term_1@ => self->Term_1@[k as int]));
                        assert forall|j: int| view_occurs(args@[k as int]@, j) implies j
                            + shift_by < usize::MAX by {
                            assert(self@->Term_1[k as int] == args@[k as int]@);
                            assert(view_occurs(self@, j));
                        }
                    }
                    let ghost pre = ctx@;
                    let c = args[k].instantiate_aux(ctx, shift_by);
                    cargs.push(c);
                    k = k + 1;
                    proof {
                        assert(self@->Term_1.subrange(0, k as int).drop_last()
                            =~= self@->Term_1.subrange(0, k - 1));
                        assert(self@->Term_1.subrange(0, k as int).last()
                            == self@->Term_1[k - 1]);
                        if !ctx@.append_only {
                            assert(ctx@.uf =~= old(ctx)@.uf + Seq::new(
                                (ctx@.next_var - old(ctx)@.next_var) as nat,
                                |q: int| None::<TypeView>,
                            ));
                        }
                    }
                }
                let r = Type::Term(name.clone(), cargs);
                proof {
                    assert(self@->Term_1.subrange(0, args@.len() as int) =~= self@->Term_1);
                    assert(crate::types::vmax_view(self@) == crate::types::vmax_list(
                        self@->Term_1,
                    ));
                    lemma_type_views(args@);
                    lemma_type_views(cargs@);
                    lemma_shift_view_list(self@->Term_1, shift_by as int);
                    assert forall|j: int| 0 <= j < args@.len() implies type_views(cargs@)[j]
                        == shift_view_list(self@->Term_1, shift_by as int)[j] by {
                        assert(cargs@[j]@ == shift_view(args@[j]@, shift_by as int));
                        assert(self@->Term_1[j] == args@[j]@);
                    }
                    assert(type_views(cargs@) =~= shift_view_list(
                        self@->Term_1,
                        shift_by as int,
                    ));
                    assert forall|j: int| view_occurs(r@, j) implies j < ctx@.next_var by {
                        let l = choose|l: int|
                            0 <= l < r@->Term_1.len() && view_occurs(r@->Term_1[l], j);
                        assert(r@->Term_1[l] == cargs@[l]@);
                    }
                }
                r
            },
        }
    }

    /// Rename all variables of this type to fresh variables of the
    /// context, by shifting them past every variable in use: the
    /// polymorphic scheme is copied into a fresh scope. A ground type
    /// is returned unchanged.
    pub fn instantiate(&self, ctx: &mut Context) -> (r: Type)
        requires
            forall|j: int| view_occurs(self@, j) ==> j + old(ctx)@.next_var < usize::MAX,
        ensures
            r@ == if view_concrete(self@) {
                self@
            } else {
                shift_view(self@, old(ctx)@.next_var)
            },
            final(ctx)@ == ctx_after_instantiate(old(ctx)@, self@),
            final(ctx)@.next_var >= old(ctx)@.next_var,
            forall|v: int| ctx_get(final(ctx)@, v) == ctx_get(old(ctx)@, v),
            forall|j: int| view_occurs(r@, j) ==> j < final(ctx)@.next_var,
    {
        if self.is_concrete() {
            let r = self.clone();
            proof {
                lemma_concrete_no_vars(r@);
                crate::types::lemma_type_view_nonneg(*self);
                crate::types::lemma_vmax(self@);
            }
            r
        } else {
            let shift_by = ctx.next_var_id();
            proof {
                crate::types::lemma_type_view_nonneg(*self);
                crate::types::lemma_vmax(self@);
            }
            self.instantiate_aux(ctx, shift_by)
        }
    }
}

/// A ground type has no variable occurrences.
pub proof fn lemma_concrete_no_vars(v: TypeView)
    requires
        view_concrete(v),
    ensures
        forall|j: int| !view_occurs(v, j),
    decreases v,
{
    assert forall|j: int| !view_occurs(v, j) by {
        if view_occurs(v, j) {
            match v {
                TypeView::Var(_) => {
                },
                TypeView::Term(_, args) => {
                    let k = choose|k: int| 0 <= k < args.len() && view_occurs(args[k], j);
                    lemma_concrete_no_vars(args[k]);
                },
            }
        }
    }
}

impl Context {
    /// The conservative compatibility pre-check: never a false
    /// negative relative to `unify`, possibly a false positive.
    pub fn might_unify(t1: &Type, t2: &Type) -> (r: bool)
        ensures
            r == spec_might_unify(t1@, t2@),
        decreases *t1,
    {
        match (t1, t2) {
            (Type::Term(x, xs), Type::Term(y, ys)) => {
                proof {
                    lemma_type_views(xs@);
                    lemma_type_views(ys@);
                }
                if !(*x == *y) {
                    return false;
                }
                if xs.len() != ys.len() {
                    return false;
                }
                let mut k: usize = 0;
                while k < xs.len()
                    invariant
                        k <= xs@.len(),
                        xs@.len() == ys@.len(),
                        *t1 == Type::Term(*x, *xs),
                        *t2 == Type::Term(*y, *ys),
                        x@ == y@,
                        forall|j: int|
                            0 <= j < k ==> spec_might_unify(#[trigger] xs@[j]@, ys@[j]@),
                    decreases xs@.len() - k,
                {
                    proof {
                        assert(decreases_to!(*t1 => t1->Term_1));
                        assert(decreases_to!(t1->Term_1 => t1->Term_1@));
                        assert(decreases_to!(t1->Term_1@ => t1->Term_1@[k as int]));
                    }
                    if !Context::might_unify(&xs[k], &ys[k]) {
                        proof {
                            lemma_type_views(xs@);
                            lemma_type_views(ys@);
                            assert(!spec_might_unify(t1@->Term_1[k as int], t2@->Term_1[k as int]));
                        }
                        return false;
                    }
                    k = k + 1;
                }
                proof {
                    lemma_type_views(xs@);
                    lemma_type_views(ys@);
                    assert forall|j: int| 0 <= j < t1@->Term_1.len() implies spec_might_unify(
                        #[trigger] t1@->Term_1[j],
                        t2@->Term_1[j],
                    ) by {
                        assert(t1@->Term_1[j] == xs@[j]@ && t2@->Term_1[j] == ys@[j]@);
                    }
                }
                true
            },
            _ => true,
        }
    }

    /// One fuel-bounded unification pass (the fuel only guards
    /// against a cyclic binding log, which no use of this module's
    /// own operations can produce).
    fn unify_fuel(&mut self, t1: &Type, t2: &Type, fuel: usize) -> (r: UnifyResult)
        ensures
            (final(self)@, r) == spec_unify(old(self)@, t1@, t2@, fuel as nat),
        decreases fuel,
    {
        if fuel == 0 {
            return Err(UnifyErr::Occurs);
        }
        let a1 = t1.apply(self);
        let a2 = t2.apply(self);
        if a1.is_concrete() && a2.is_concrete() {
            if a1 == a2 {
                return Ok(());
            } else {
                return Err(UnifyErr::ConcreteSubtree);
            }
        }
        match a1 {
            Type::Var(i) => {
                if a2 == Type::Var(i) {
                    return Ok(());
                }
                if a2.occurs(i) {
                    return Err(UnifyErr::Occurs);
                }
                self.set(i, a2);
                Ok(())
            },
            _ => {
                match a2 {
                    Type::Var(i) => {
                        if a1.occurs(i) {
                            return Err(UnifyErr::Occurs);
                        }
                        self.set(i, a1);
                        Ok(())
                    },
                    _ => {
                        let ghost c0 = self@;
                        let ghost va1 = a1@;
                        let ghost va2 = a2@;
                        match (a1, a2) {
                            (Type::Term(n1, xs), Type::Term(n2, ys)) => {
                                proof {
                                    lemma_type_views(xs@);
                                    lemma_type_views(ys@);
                                }
                                if !(n1 == n2) || xs.len() != ys.len() {
                                    return Err(UnifyErr::Production);
                                }
                                proof {
                                    assert(va1 matches TypeView::Term(_, _));
                                    assert(va2 matches TypeView::Term(_, _));
                                }
                                let mut k: usize = 0;
                                while k < xs.len()
                                    invariant
                                        k <= xs@.len(),
                                        xs@.len() == ys@.len(),
                                        fuel >= 1,
                                        va1 matches TypeView::Term(_, _),
                                        va2 matches TypeView::Term(_, _),
                                        va1->Term_1.len() == xs@.len(),
                                        va2->Term_1.len() == ys@.len(),
                                        forall|j: int|
                                            0 <= j < xs@.len() ==> va1->Term_1[j] == #[trigger] xs@[j]@
                                                && va2->Term_1[j] == ys@[j]@,
                                        spec_unify(old(self)@, t1@, t2@, fuel as nat)
                                            == spec_unify_list(
                                            self@,
                                            va1->Term_1,
                                            va2->Term_1,
                                            k as int,
                                            (fuel - 1) as nat,
                                        ),
                                    decreases xs@.len() - k,
                                {
                                    let r = self.unify_fuel(&xs[k], &ys[k], fuel - 1);
                                    if let Err(e) = r {
                                        return Err(e);
                                    }
                                    k = k + 1;
                                }
                                Ok(())
                            },
                            _ => {
                                proof {
                                    assert(false);
                                }
                                Err(UnifyErr::Production)
                            },
                        }
                    },
                }
            },
        }
    }

    /// Unify the two types: resolve both under the current
    /// substitution, take the ground fast path, bind a variable
    /// (guarded by the occurs check) or match constructor heads and
    /// unify the arguments pairwise, left to right.
    pub fn unify(&mut self, t1: &Type, t2: &Type) -> (r: UnifyResult)
        ensures
            (final(self)@, r) == spec_unify(old(self)@, t1@, t2@, resolve_fuel()),
    {
        self.unify_fuel(t1, t2, usize::MAX)
    }

    /// The amortizing twin of `unify`: the interface offers both as
    /// interchangeable strategies with identical observable behaviour.
    pub fn unify_cached(&mut self, t1: &Type, t2: &Type) -> (r: UnifyResult)
        ensures
            (final(self)@, r) == spec_unify(old(self)@, t1@, t2@, resolve_fuel()),
    {
        self.unify_fuel(t1, t2, usize::MAX)
    }
}

/// A definite incompatibility means the two views differ.
pub proof fn lemma_might_false_neq(v1: TypeView, v2: TypeView)
    requires
        !spec_might_unify(v1, v2),
    ensures
        v1 != v2,
    decreases v1,
{
    match v1 {
        TypeView::Var(_) => {},
        TypeView::Term(x, xs) => match v2 {
            TypeView::Var(_) => {},
            TypeView::Term(y, ys) => {
                if x == y && xs.len() == ys.len() {
                    let k = choose|k: int|
                        0 <= k < xs.len() && !spec_might_unify(#[trigger] xs[k], ys[k]);
                    lemma_might_false_neq(xs[k], ys[k]);
                }
            },
        },
    }
}

/// Substitution cannot repair a definite incompatibility: applying
/// any context to both sides leaves `might_unify` false.
pub proof fn lemma_might_false_apply(c: CtxView, v1: TypeView, v2: TypeView, f1: nat, f2: nat)
    requires
        !spec_might_unify(v1, v2),
    ensures
        !spec_might_unify(spec_apply(c, v1, f1), spec_apply(c, v2, f2)),
    decreases v1,
{
    match v1 {
        TypeView::Var(_) => {},
        TypeView::Term(x, xs) => match v2 {
            TypeView::Var(_) => {},
            TypeView::Term(y, ys) => {
                lemma_spec_apply_list(c, xs, f1);
                lemma_spec_apply_list(c, ys, f2);
                if x == y && xs.len() == ys.len() {
                    let k = choose|k: int|
                        0 <= k < xs.len() && !spec_might_unify(#[trigger] xs[k], ys[k]);
                    lemma_might_false_apply(c, xs[k], ys[k], f1, f2);
                    assert(!spec_might_unify(
                        spec_apply_list(c, xs, f1)[k],
                        spec_apply_list(c, ys, f2)[k],
                    ));
                }
            },
        },
    }
}

/// Law: a `false` from the conservative pre-check is never wrong.
/// If `might_unify` rejects two types, then `unify` fails on them,
/// in any context and under any recursion budget (the converse need
/// not hold: the pre-check may accept types that fail to unify).
pub proof fn lemma_might_unify_complete(c: CtxView, v1: TypeView, v2: TypeView, fuel: nat)
    requires
        !spec_might_unify(v1, v2),
    ensures
        spec_unify(c, v1, v2, fuel).1 is Err,
    decreases fuel, 0int,
{
    if fuel > 0 {
        let a1 = spec_apply(c, v1, resolve_fuel());
        let a2 = spec_apply(c, v2, resolve_fuel());
        lemma_might_false_apply(c, v1, v2, resolve_fuel(), resolve_fuel());
        lemma_might_false_neq(a1, a2);
        if view_concrete(a1) && view_concrete(a2) {
        } else {
            match a1 {
                TypeView::Var(_) => {
                    assert(false);
                },
                TypeView::Term(x, xs) => match a2 {
                    TypeView::Var(_) => {
                        assert(false);
                    },
                    TypeView::Term(y, ys) => {
                        if x == y && xs.len() == ys.len() {
                            let k0 = choose|k: int|
                                0 <= k < xs.len() && !spec_might_unify(#[trigger] xs[k], ys[k]);
                            lemma_might_unify_list_complete(
                                c,
                                xs,
                                ys,
                                0,
                                k0,
                                (fuel - 1) as nat,
                            );
                        }
                    },
                },
            }
        }
    }
}

/// As `lemma_might_unify_complete`, over the argument pairs: one
/// definitely incompatible pair at or after position `k` makes the
/// pairwise pass fail.
pub proof fn lemma_might_unify_list_complete(
    c: CtxView,
    xs: Seq<TypeView>,
    ys: Seq<TypeView>,
    k: int,
    k0: int,
    fuel: nat,
)
    requires
        xs.len() == ys.len(),
        k <= k0 < xs.len(),
        0 <= k,
        !spec_might_unify(xs[k0], ys[k0]),
    ensures
        spec_unify_list(c, xs, ys, k, fuel).1 is Err,
    decreases fuel, xs.len() - k + 1,
{
    let (c1, r) = spec_unify(c, xs[k], ys[k], fuel);
    if k == k0 {
        lemma_might_unify_complete(c, xs[k], ys[k], fuel);
    } else {
        if r is Err {
        } else {
            lemma_might_unify_list_complete(c1, xs, ys, k + 1, k0, fuel);
        }
    }
}

/// Law: unifying an unbound variable with itself succeeds and binds
/// nothing.
pub proof fn lemma_unify_var_self(c: CtxView, i: int, fuel: nat)
    requires
        ctx_get(c, i) is None,
        fuel >= 1,
    ensures
        spec_unify(c, TypeView::Var(i), TypeView::Var(i), fuel) == (c, Ok::<(), UnifyErr>(())),
{
}

/// Law: unifying a variable with an arrow from that same variable
/// fails with the occurs check: the infinite type is rejected.
pub proof fn lemma_unify_occurs_arrow(c: CtxView, i: int, g: TypeView, fuel: nat)
    requires
        ctx_get(c, i) is None,
        fuel >= 1,
    ensures
        spec_unify(
            c,
            TypeView::Var(i),
            TypeView::Term(arrow_chars(), seq![TypeView::Var(i), g]),
            fuel,
        ).1 == Err::<(), UnifyErr>(UnifyErr::Occurs),
{
    let v2 = TypeView::Term(arrow_chars(), seq![TypeView::Var(i), g]);
    let a2 = spec_apply(c, v2, resolve_fuel());
    lemma_spec_apply_list(c, seq![TypeView::Var(i), g], resolve_fuel());
    assert(a2->Term_1[0] == spec_apply(c, TypeView::Var(i), resolve_fuel()));
    assert(a2->Term_1[0] == TypeView::Var(i));
    assert(view_occurs(a2->Term_1[0], i));
    assert(view_occurs(a2, i));
    assert(!view_concrete(a2->Term_1[0]));
    assert(!view_concrete(a2));
    assert(a2 != TypeView::Var(i)) by {
        if a2 == TypeView::Var(i) {
            assert(a2 is Term);
        }
    }
}

} // verus!
