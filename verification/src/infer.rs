//! The type inference driver: a recursive walk over the expression
//! arena that allocates fresh type variables, unifies function types
//! against argument and result types, and consults an external DSL
//! for primitive type schemes.

use vstd::prelude::*;
use std::collections::VecDeque;
use crate::expr::{Node, Order, Expr, nodes_ok, nodes_hole_free};
use crate::types::{Type, TypeView, UnifyErr, arrow_chars, view_occurs, view_concrete, vmax_view};
use crate::context::{Context, CtxView, spec_apply, spec_unify, shift_view, resolve_fuel};

verus! {

/// The interface a domain supplies to the inference driver: the type
/// scheme of each primitive symbol it knows, and a cost for each
/// primitive (with a default for unknown ones).
pub trait Dsl {
    /// What scheme (if any) this domain assigns to a primitive.
    spec fn spec_type_of_prim(&self, sym: Seq<char>) -> Option<TypeView>;

    /// What cost this domain assigns to a primitive.
    spec fn spec_cost_of_prim(&self, sym: Seq<char>) -> int;

    /// The ground-or-polymorphic type scheme of the primitive named
    /// `sym`, or `None` for an unknown symbol.
    fn type_of_prim(&self, sym: &str) -> (r: Option<Type>)
        ensures
            match r {
                Some(t) => self.spec_type_of_prim(sym@) == Some(t@),
                None => self.spec_type_of_prim(sym@) is None,
            },
    ;

    /// The cost of the primitive named `sym`.
    fn cost_of_prim(&self, sym: &str) -> (r: i32)
        ensures
            r as int == self.spec_cost_of_prim(sym@),
    ;
}

/// The ways inference can fail. Conditions that indicate caller
/// misuse (an unbound variable, an invention variable, a fresh
/// variable id past the machine's range) are explicit errors rather
/// than aborts.
#[derive(Debug, Clone, Copy, PartialEq, Eq)]
pub enum InferErr {
    /// Unification rejected a constraint.
    Unify(UnifyErr),
    /// A de Bruijn index reached past the environment.
    UnboundVar,
    /// Invention variables are not typed by this driver.
    IVarUnsupported,
    /// The DSL knows no scheme for a primitive.
    UnknownPrim,
    /// A fresh type variable id would pass the machine's range.
    VarLimit,
}

/// The context after allocating one fresh type variable.
pub open spec fn ctx_fresh(c: CtxView) -> CtxView {
    CtxView {
        next_var: c.next_var + 1,
        uf: if c.append_only {
            c.uf
        } else {
            c.uf.push(None)
        },
        ..c
    }
}

/// The arrow view `left -> right`.
pub open spec fn arrow_view(left: TypeView, right: TypeView) -> TypeView {
    TypeView::Term(arrow_chars(), seq![left, right])
}

/// One inference step, mirrored mathematically. For an application,
/// the argument is inferred before the function, then the function
/// type is unified against `argument -> fresh`; for an abstraction a
/// fresh parameter type is pushed onto the front of the environment
/// around the body; a variable reads the environment; a primitive's
/// scheme is instantiated by shifting its variables into the fresh
/// range.
pub open spec fn spec_infer<D: Dsl>(
    nodes: Seq<Node>,
    i: int,
    c: CtxView,
    env: Seq<TypeView>,
    dsl: D,
) -> (CtxView, Result<TypeView, InferErr>)
    decreases i,
        when 0 <= i < nodes.len() && nodes_ok(nodes, Order::ChildFirst) && nodes_hole_free(nodes)
{
    match nodes[i] {
        Node::App(f, x) => {
            if c.next_var >= usize::MAX {
                (c, Err(InferErr::VarLimit))
            } else {
                let nv = c.next_var;
                let c1 = ctx_fresh(c);
                let (c2, xr) = spec_infer(nodes, x as int, c1, env, dsl);
                match xr {
                    Err(e) => (c2, Err(e)),
                    Ok(x_tp) => {
                        let (c3, fr) = spec_infer(nodes, f as int, c2, env, dsl);
                        match fr {
                            Err(e) => (c3, Err(e)),
                            Ok(f_tp) => {
                                let (c4, ur) = spec_unify(
                                    c3,
                                    f_tp,
                                    arrow_view(x_tp, TypeView::Var(nv)),
                                    resolve_fuel(),
                                );
                                match ur {
                                    Err(e) => (c4, Err(InferErr::Unify(e))),
                                    Ok(_) => (
                                        c4,
                                        Ok(spec_apply(c4, TypeView::Var(nv), resolve_fuel())),
                                    ),
                                }
                            },
                        }
                    },
                }
            }
        },
        Node::Lam(b) => {
            if c.next_var >= usize::MAX {
                (c, Err(InferErr::VarLimit))
            } else {
                let nv = c.next_var;
                let c1 = ctx_fresh(c);
                let (c2, br) = spec_infer(nodes, b as int, c1, seq![TypeView::Var(nv)] + env, dsl);
                match br {
                    Err(e) => (c2, Err(e)),
                    Ok(body_tp) => (
                        c2,
                        Ok(
                            spec_apply(
                                c2,
                                arrow_view(TypeView::Var(nv), body_tp),
                                resolve_fuel(),
                            ),
                        ),
                    ),
                }
            }
        },
        Node::Var(i0) => {
            if i0 < 0 || i0 >= env.len() {
                (c, Err(InferErr::UnboundVar))
            } else {
                (c, Ok(spec_apply(c, env[i0 as int], resolve_fuel())))
            }
        },
        Node::IVar(_) => (c, Err(InferErr::IVarUnsupported)),
        Node::Prim(p) => {
            match dsl.spec_type_of_prim(p@) {
                None => (c, Err(InferErr::UnknownPrim)),
                Some(scheme) => {
                    if vmax_view(scheme) + c.next_var >= usize::MAX {
                        (c, Err(InferErr::VarLimit))
                    } else {
                        let shifted = if view_concrete(scheme) {
                            scheme
                        } else {
                            shift_view(scheme, c.next_var)
                        };
                        (ctx_after_instantiate(c, scheme), Ok(shifted))
                    }
                },
            }
        },
    }
}

/// The context instantiation leaves: bindings unchanged, the
/// fresh-variable counter advanced past every variable of the
/// shifted scheme (a ground scheme allocates nothing).
pub open spec fn ctx_after_instantiate(c: CtxView, scheme: TypeView) -> CtxView {
    if view_concrete(scheme) {
        c
    } else {
        CtxView {
            next_var: c.next_var + vmax_view(scheme) + 1,
            uf: if c.append_only {
                c.uf
            } else {
                c.uf + Seq::new((vmax_view(scheme) + 1) as nat, |k: int| None::<TypeView>)
            },
            ..c
        }
    }
}

impl<'a> Expr<'a> {
    /// Infer the type of this subexpression against `dsl`, allocating
    /// fresh type variables in `ctx` and using `env` as the de Bruijn
    /// environment (front = innermost binder). The environment is
    /// left as it was found.
    pub fn infer<D: Dsl>(&self, ctx: &mut Context, env: &mut VecDeque<Type>, dsl: &D) -> (r:
        Result<Type, InferErr>)
        requires
            self.set.wf(),
            self.set.order == Order::ChildFirst,
            nodes_hole_free(self.set.nodes@),
            self.idx < self.set.nodes@.len(),
        ensures
            ({
                let (cf, res) = spec_infer(
                    self.set.nodes@,
                    self.idx as int,
                    old(ctx)@,
                    crate::types::type_views(old(env)@),
                    *dsl,
                );
                &&& final(ctx)@ == cf
                &&& final(env)@ == old(env)@
                &&& match (r, res) {
                    (Ok(t), Ok(tv)) => t@ == tv,
                    (Err(e), Err(e2)) => e == e2,
                    _ => false,
                }
            }),
        decreases self.idx,
    {
        let ghost genv = crate::types::type_views(env@);
        match self.node() {
            Node::App(f, x) => {
                if ctx.next_var_id() == usize::MAX {
                    return Err(InferErr::VarLimit);
                }
                let return_tp = ctx.fresh_type_var();
                let x_tp = match self.get(*x).infer(ctx, env, dsl) {
                    Ok(t) => t,
                    Err(e) => {
                        return Err(e);
                    },
                };
                let f_tp = match self.get(*f).infer(ctx, env, dsl) {
                    Ok(t) => t,
                    Err(e) => {
                        return Err(e);
                    },
                };
                let arrow_tp = Type::arrow(x_tp, return_tp.clone());
                proof {
                    assert(arrow_tp@ == arrow_view(x_tp@, return_tp@));
                }
                match ctx.unify(&f_tp, &arrow_tp) {
                    Err(e) => {
                        proof {
                            assert(spec_infer(
                                self.set.nodes@,
                                self.idx as int,
                                old(ctx)@,
                                genv,
                                *dsl,
                            ).1 == Err::<TypeView, InferErr>(InferErr::Unify(e)));
                        }
                        Err(InferErr::Unify(e))
                    },
                    Ok(_) => {
                        let out = return_tp.apply(ctx);
                        proof {
                            assert(spec_infer(
                                self.set.nodes@,
                                self.idx as int,
                                old(ctx)@,
                                genv,
                                *dsl,
                            ).1 == Ok::<TypeView, InferErr>(out@));
                        }
                        Ok(out)
                    },
                }
            },
            Node::Lam(b) => {
                if ctx.next_var_id() == usize::MAX {
                    return Err(InferErr::VarLimit);
                }
                let var_tp = ctx.fresh_type_var();
                let vc = var_tp.clone();
                let ghost prev_env = env@;
                env.push_front(vc);
                proof {
                    crate::types::lemma_type_views(env@);
                    crate::types::lemma_type_views(prev_env);
                    assert(prev_env == old(env)@);
                    assert(env@.len() == prev_env.len() + 1);
                    assert forall|j: int| 0 <= j < env@.len() implies crate::types::type_views(
                        env@,
                    )[j] == (seq![var_tp@] + genv)[j] by {
                        if j == 0 {
                            assert(env@[0]@ == var_tp@);
                        } else {
                            assert(env@[j] == prev_env[j - 1]);
                        }
                    }
                    assert(crate::types::type_views(env@) =~= seq![var_tp@] + genv);
                }
                let body_r = self.get(*b).infer(ctx, env, dsl);
                let _ = env.pop_front();
                proof {
                    assert(env@ =~= old(env)@);
                }
                match body_r {
                    Err(e) => {
                        proof {
                            assert(spec_infer(
                                self.set.nodes@,
                                self.idx as int,
                                old(ctx)@,
                                genv,
                                *dsl,
                            ).1 == Err::<TypeView, InferErr>(e));
                        }
                        Err(e)
                    },
                    Ok(body_tp) => {
                        let at = Type::arrow(var_tp, body_tp);
                        let out = at.apply(ctx);
                        proof {
                            assert(spec_infer(
                                self.set.nodes@,
                                self.idx as int,
                                old(ctx)@,
                                genv,
                                *dsl,
                            ).1 == Ok::<TypeView, InferErr>(out@));
                        }
                        Ok(out)
                    },
                }
            },
            Node::Var(i0) => {
                proof {
                    crate::types::lemma_type_views(env@);
                }
                if *i0 < 0 {
                    return Err(InferErr::UnboundVar);
                }
                let iu = *i0 as usize;
                if iu >= env.len() {
                    return Err(InferErr::UnboundVar);
                }
                let out = env[iu].apply(ctx);
                proof {
                    assert(spec_infer(self.set.nodes@, self.idx as int, old(ctx)@, genv, *dsl).1
                        == Ok::<TypeView, InferErr>(out@));
                }
                Ok(out)
            },
            Node::IVar(_) => {
                proof {
                    assert(spec_infer(self.set.nodes@, self.idx as int, old(ctx)@, genv, *dsl).1
                        == Err::<TypeView, InferErr>(InferErr::IVarUnsupported));
                }
                Err(InferErr::IVarUnsupported)
            },
            Node::Prim(p) => {
                let nv_now = ctx.next_var_id();
                match dsl.type_of_prim(p.as_str()) {
                    None => {
                        proof {
                            assert(spec_infer(
                                self.set.nodes@,
                                self.idx as int,
                                old(ctx)@,
                                genv,
                                *dsl,
                            ).1 == Err::<TypeView, InferErr>(InferErr::UnknownPrim));
                        }
                        Err(InferErr::UnknownPrim)
                    },
                    Some(scheme) => {
                        proof {
                            crate::types::lemma_type_view_nonneg(scheme);
                            crate::types::lemma_vmax(scheme@);
                        }
                        match scheme.max_var_of() {
                            Some(m) => {
                                if m >= usize::MAX - ctx.next_var_id() {
                                    return Err(InferErr::VarLimit);
                                }
                            },
                            None => {},
                        }
                        proof {
                            crate::types::lemma_type_view_nonneg(scheme);
                            crate::types::lemma_vmax(scheme@);
                            if vmax_view(scheme@) == -1 {
                                crate::context::lemma_concrete_no_vars(scheme@);
                            }
                            assert forall|j: int| view_occurs(scheme@, j) implies j
                                + ctx@.next_var < usize::MAX by {
                                assert(j <= vmax_view(scheme@));
                            }
                        }
                        let out = scheme.instantiate(ctx);
                        proof {
                            assert(spec_infer(
                                self.set.nodes@,
                                self.idx as int,
                                old(ctx)@,
                                genv,
                                *dsl,
                            ).1 == Ok::<TypeView, InferErr>(out@));
                        }
                        Ok(out)
                    },
                }
            },
        }
    }
}

} // verus!
