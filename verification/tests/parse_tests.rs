use lambda_core::expr::{ExprSet, Node, Order};

fn assert_parse(set: &mut ExprSet, in_s: &str, out_s: &str) {
    let e = set.parse_extend(in_s).unwrap();
    assert_eq!(set.get(e).show(), out_s.to_string());
}

#[test]
fn test_parse() {
    let set = &mut ExprSet::empty(Order::ChildFirst, false);
    assert_parse(set, "(+ 2 3)", "(+ 2 3)");
    assert_parse(set, "(+ 2 3)", "(+ 2 3)");

    assert_parse(set, "3", "3");
    assert_parse(set, "foo", "foo");

    assert_parse(set, "(foo (bar baz))", "(foo (bar baz))");
    assert_parse(set, "((foo bar) baz)", "(foo bar baz)");

    assert_parse(set, "foo bar baz", "(foo bar baz)");

    assert_parse(set, "(lam b)", "(lam b)");

    assert_parse(set, "lam b", "(lam b)");
    assert_parse(set, "(foo (lam b) (lam c))", "(foo (lam b) (lam c))");
    assert_parse(set, "(lam (+ a b))", "(lam (+ a b))");
    assert_parse(set, "(lam (+ $0 b))", "(lam (+ $0 b))");
    assert_parse(set, "(lam (+ #0 b))", "(lam (+ #0 b))");

    let e = set.parse_extend("$3").unwrap();
    assert_eq!(set.get(e).node(), &Node::Var(3));
    let e = set.parse_extend("#3").unwrap();
    assert_eq!(set.get(e).node(), &Node::IVar(3));

    assert_parse(set, "(fix_flip $0 (lam (lam (if (is_empty $0) $0 (cons (+ 1 (head $0)) ($1 (tail $0)))))))", "(fix_flip $0 (lam (lam (if (is_empty $0) $0 (cons (+ 1 (head $0)) ($1 (tail $0)))))))")
}

#[test]
fn test_expr_basics() {
    let set = &mut ExprSet::empty(Order::ChildFirst, true);

    let e1 = set.parse_extend("(lam $0)").unwrap();
    let e2 = set.parse_extend("(+ 4 4)").unwrap();

    // bottom-up style addition of a node
    let e3 = set.add(Node::App(e1, e2));
    assert_eq!(set.get(e3).show(), "((lam $0) (+ 4 4))".to_string());

    // shift the variables of the first subtree in place
    let sp = set.get(e1).get_span().unwrap();
    for i in sp.start..sp.end {
        let bonus = set.len() as i32;
        if let Node::Var(v) = set.get(i).node() {
            let nv = *v + bonus;
            set.get_mut(i).write(Node::Var(nv));
        }
    }

    assert_eq!(set.get(e3).show(), "((lam $8) (+ 4 4))".to_string());
}

#[test]
fn test_parse_errors() {
    let set = &mut ExprSet::empty(Order::ChildFirst, false);
    assert!(set.parse_extend("").is_err());
    assert!(set.parse_extend("   ").is_err());
    assert!(set.parse_extend("(a b").is_err());
    assert!(set.parse_extend("a b)").is_err());
    assert!(set.parse_extend("(lam a b)").is_err());
    assert!(set.parse_extend("x lam y").is_err());
    assert!(set.parse_extend("$x").is_err());
    assert!(set.parse_extend("#").is_err());
    assert!(set.parse_extend("$2147483648").is_err());
    let e = set.parse_extend("$2147483647").unwrap();
    assert_eq!(set.get(e).node(), &Node::Var(2147483647));
}

#[test]
fn test_roundtrip_idempotent() {
    // display(parse(s)) is a canonical form: parsing it again renders
    // back the same text.
    for s in [
        "(+ 2 3)",
        "((foo bar) baz)",
        "foo bar baz",
        "lam b",
        "(lam (+ $0 #1))",
        "(f (g x) y)",
        "(fix_flip $0 (lam (lam (if (is_empty $0) $0 (cons (+ 1 (head $0)) ($1 (tail $0)))))))",
    ] {
        let set = &mut ExprSet::empty(Order::ChildFirst, false);
        let e = set.parse_extend(s).unwrap();
        let once = set.get(e).show();
        let set2 = &mut ExprSet::empty(Order::ChildFirst, false);
        let e2 = set2.parse_extend(&once).unwrap();
        let twice = set2.get(e2).show();
        assert_eq!(once, twice);
    }
}

#[test]
fn test_copy_span_between_arenas() {
    let src = &mut ExprSet::empty(Order::ChildFirst, true);
    let e = src.parse_extend("(+ 1 (f 2))").unwrap();
    let dst = &mut ExprSet::empty(Order::ChildFirst, true);
    dst.parse_extend("pad").unwrap();
    src.get(e).copy_span(dst).unwrap();
    let root = dst.len() - 1;
    assert_eq!(dst.get(root).show(), "(+ 1 (f 2))".to_string());
}

#[test]
fn test_slice_of_span() {
    let set = &mut ExprSet::empty(Order::ChildFirst, true);
    let e = set.parse_extend("(+ 2 3)").unwrap();
    let sp = set.get(e).get_span().unwrap();
    let nodes = set.slice(sp.start, sp.end);
    assert_eq!(nodes.len(), 5);
    assert!(matches!(nodes[nodes.len() - 1], Node::App(_, _)));
}
