use std::collections::VecDeque;
use lambda_core::context::Context;
use lambda_core::expr::{ExprSet, Order};
use lambda_core::infer::InferErr;
use lambda_core::simple::SimpleDsl;
use lambda_core::types::{Type, UnifyErr};
use lambda_core::typeset::{TNode, TypeSet};

fn tint() -> Type {
    Type::base("int".to_string())
}

fn boolean() -> Type {
    Type::base("bool".to_string())
}

fn list(t: Type) -> Type {
    Type::Term("list".to_string(), vec![t])
}

fn var(i: usize) -> Type {
    Type::Var(i)
}

fn assert_unify_both(t1: Type, t2: Type, tree: Result<(), UnifyErr>, arena: Result<(), UnifyErr>) {
    let mut ctx = Context::empty();
    let res = ctx.unify(&t1, &t2);
    assert_eq!(res, tree);

    let mut typeset = TypeSet::empty();
    let r1 = typeset.add_tp(&t1).instantiate(&mut typeset);
    let r2 = typeset.add_tp(&t2).instantiate(&mut typeset);
    let res = typeset.unify(&r1, &r2);
    assert_eq!(res, arena);
}

fn assert_unify(t1: Type, t2: Type, expected: Result<(), UnifyErr>) {
    let e2 = expected;
    assert_unify_both(t1, t2, expected, e2);
}

fn assert_infer(p: &str, expected: Result<Type, InferErr>) {
    let set = &mut ExprSet::empty(Order::ChildFirst, false);
    let e = set.parse_extend(p).unwrap();
    let mut ctx = Context::empty();
    let mut env: VecDeque<Type> = VecDeque::new();
    let res = set.get(e).infer(&mut ctx, &mut env, &SimpleDsl);
    assert_eq!(res, expected);
}

#[test]
fn test_types_simple() {
    assert_unify(tint(), tint(), Ok(()));
    assert_unify(tint(), var(0), Ok(()));
    assert_unify(tint(), var(1), Ok(()));
    assert_unify(list(tint()), list(var(1)), Ok(()));
    assert_unify(
        Type::arrow(tint(), boolean()),
        Type::arrow(tint(), var(0)),
        Ok(()),
    );
    assert_unify(var(0), var(1), Ok(()));

    assert_infer("3", Ok(tint()));
    assert_infer("[1,2,3]", Ok(list(tint())));
    assert_infer("(+ 2 3)", Ok(tint()));
    assert_infer("(lam $0)", Ok(Type::arrow(var(0), var(0))));
    assert_infer("(lam (+ $0 1))", Ok(Type::arrow(tint(), tint())));
    assert_infer(
        "map",
        Ok(Type::arrow(
            Type::arrow(var(0), var(1)),
            Type::arrow(list(var(0)), list(var(1))),
        )),
    );
    assert_infer(
        "(map (lam (+ $0 1)))",
        Ok(Type::arrow(list(tint()), list(tint()))),
    );
}

#[test]
fn test_unify_failures() {
    // two unequal ground terms: the tree engine's ground fast path
    // reports them specially; the arena engine sees a head mismatch
    assert_unify_both(
        tint(),
        boolean(),
        Err(UnifyErr::ConcreteSubtree),
        Err(UnifyErr::Production),
    );
    assert_unify(
        list(var(0)),
        Type::arrow(tint(), tint()),
        Err(UnifyErr::Production),
    );
    // the occurs check rejects the infinite type (the arena helper
    // instantiates the two sides into distinct scopes, so there the
    // variables no longer collide and unification goes through)
    assert_unify_both(
        var(0),
        Type::arrow(var(0), tint()),
        Err(UnifyErr::Occurs),
        Ok(()),
    );
}

#[test]
fn test_occurs_in_arena_shared_scope() {
    let mut ts = TypeSet::empty();
    let v0 = ts.add_node(TNode::Var(0));
    let i = ts.add_tp(&tint());
    let arrow_node = ts.add_node(TNode::Term("->".to_string(), vec![v0, i]));
    let t2 = arrow_node.instantiate(&mut ts);
    let t1 = v0.shift(t2.shift);
    assert_eq!(ts.unify(&t1, &t2), Err(UnifyErr::Occurs));
}

#[test]
fn test_unify_var_self_noop() {
    let mut ctx = Context::empty();
    let before = ctx.save_state();
    assert_eq!(ctx.unify(&var(7), &var(7)), Ok(()));
    assert_eq!(ctx.save_state(), before);

    let mut ts = TypeSet::empty();
    let r = ts.add_tp(&var(0)).instantiate(&mut ts);
    let before = ts.save_state();
    assert_eq!(ts.unify(&r, &r), Ok(()));
    assert_eq!(ts.save_state(), before);
}

#[test]
fn test_might_unify_conservative() {
    // a definite mismatch: might_unify is false, and unify fails
    let a = list(tint());
    let b = Type::arrow(tint(), tint());
    assert!(!Context::might_unify(&a, &b));
    let mut ctx = Context::empty();
    assert!(ctx.unify(&a, &b).is_err());

    let mut ts = TypeSet::empty();
    let ra = ts.add_tp(&a);
    let rb = ts.add_tp(&b).instantiate(&mut ts);
    assert!(!ts.might_unify(&ra, &rb));
    let ra_inst = ra.instantiate(&mut ts);
    assert!(ts.unify(&ra_inst, &rb).is_err());

    // variables are always considered compatible
    assert!(Context::might_unify(&var(0), &b));
}

#[test]
fn test_instantiate_fresh_scopes() {
    let mut ts = TypeSet::empty();
    let scheme = ts.add_tp(&Type::arrow(var(0), var(1)));
    let i1 = scheme.instantiate(&mut ts);
    let i2 = scheme.instantiate(&mut ts);
    // same stored term, renamed by disjoint shifts
    assert_eq!(i1.raw, i2.raw);
    assert_eq!(i1.shift, 0);
    assert_eq!(i2.shift, 2);
    assert!(i1.shift + scheme.max_var(&ts).unwrap() < i2.shift);

    let mut ctx = Context::empty();
    let scheme_t = Type::arrow(var(0), var(1));
    let a = scheme_t.instantiate(&mut ctx);
    let b = scheme_t.instantiate(&mut ctx);
    assert_eq!(a, Type::arrow(var(0), var(1)));
    assert_eq!(b, Type::arrow(var(2), var(3)));
}

#[test]
fn test_save_load_rollback() {
    let mut ctx = Context::empty();
    let st = ctx.save_state();
    assert_eq!(ctx.unify(&var(0), &tint()), Ok(()));
    ctx.load_state(st);
    // after rollback the variable is free again
    assert_eq!(ctx.unify(&var(0), &boolean()), Ok(()));
    assert_eq!(ctx.unify(&var(0), &boolean()), Ok(()));
}

#[test]
fn test_unify_cached_matches_unify() {
    let cases = [
        (tint(), tint()),
        (tint(), var(0)),
        (list(var(0)), list(tint())),
        (var(0), Type::arrow(var(0), tint())),
        (tint(), boolean()),
    ];
    for (a, b) in cases {
        let mut c1 = Context::empty();
        let mut c2 = Context::empty();
        assert_eq!(c1.unify(&a, &b), c2.unify_cached(&a, &b));
    }
}

#[test]
fn test_apply_resolves_bindings() {
    let mut ctx = Context::empty();
    assert_eq!(ctx.unify(&var(0), &tint()), Ok(()));
    let t = Type::arrow(var(0), var(1));
    assert_eq!(t.apply(&ctx), Type::arrow(tint(), var(1)));
    assert_eq!(t.apply_cached(&mut ctx), Type::arrow(tint(), var(1)));
}

#[test]
fn test_type_show() {
    assert_eq!(tint().show(), "int".to_string());
    assert_eq!(var(3).show(), "t3".to_string());
    assert_eq!(list(var(0)).show(), "(list t0)".to_string());
    assert_eq!(Type::arrow(tint(), tint()).show(), "(int -> int)".to_string());

    let mut ts = TypeSet::empty();
    let r = ts.add_tp(&list(var(1)));
    assert_eq!(r.show(&ts), "(list t1)".to_string());
    assert_eq!(r.shift(4).show(&ts), "[shift 4] (list t1)".to_string());
}

#[test]
fn test_arrow_utilities() {
    let t = Type::arrow(tint(), Type::arrow(boolean(), tint()));
    assert!(t.is_arrow());
    assert_eq!(t.arity(), 2);
    assert_eq!(t.return_type(), &tint());
    assert_eq!(t.iter_args(), vec![tint(), boolean()]);
    let mut it = t.iter_arrows();
    let (l, _) = it.next().unwrap();
    assert_eq!(l, &tint());

    let mut ts = TypeSet::empty();
    let r = ts.add_tp(&t);
    assert!(r.is_arrow(&ts));
    assert_eq!(r.arity(&ts), 2);
    let ret = r.return_type(&ts);
    assert_eq!(ret.tp(&ts), tint());
    let inst = r.instantiate(&mut ts);
    assert_eq!(inst.arity(&ts), 2);
    assert!(inst.is_concrete(&ts));
}

#[test]
fn test_infer_errors() {
    assert_infer("$0", Err(InferErr::UnboundVar));
    assert_infer("#1", Err(InferErr::IVarUnsupported));
    assert_infer("mystery", Err(InferErr::UnknownPrim));
    assert_infer("(+ 1 [])", Err(InferErr::Unify(UnifyErr::Production)));
    assert_infer("(sum 3)", Err(InferErr::Unify(UnifyErr::ConcreteSubtree)));
}
