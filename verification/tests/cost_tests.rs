use lambda_core::cost::ProgramCost;
use lambda_core::expr::{ExprSet, Order};

fn model() -> ProgramCost {
    ProgramCost::new(
        1,
        1,
        100,
        100,
        vec![("+".to_string(), 7), ("head".to_string(), 3)],
        100,
    )
}

#[test]
fn test_cost_rec_matches_cost_span() {
    let pc = model();
    let set = &mut ExprSet::empty(Order::ChildFirst, true);
    let roots = [
        set.parse_extend("(+ 2 3)").unwrap(),
        set.parse_extend("(lam (+ $0 (head xs)))").unwrap(),
        set.parse_extend("#0").unwrap(),
    ];
    for e in roots {
        assert_eq!(set.get(e).cost_rec(&pc), set.get(e).cost_span(&pc));
    }
}

#[test]
fn test_cost_values() {
    let pc = model();
    let set = &mut ExprSet::empty(Order::ChildFirst, true);
    let e = set.parse_extend("(+ 2 3)").unwrap();
    // two applications, the known primitive and two numerals
    assert_eq!(set.get(e).cost_rec(&pc), 1 + 1 + 7 + 100 + 100);
    let v = set.parse_extend("$0").unwrap();
    assert_eq!(set.get(v).cost_rec(&pc), 100);
    let h = set.parse_extend("head").unwrap();
    assert_eq!(set.get(h).cost_rec(&pc), 3);
}

#[test]
fn test_cost_prim_shadowing() {
    let pc = ProgramCost::new(
        1,
        1,
        100,
        100,
        vec![("+".to_string(), 7), ("+".to_string(), 9)],
        100,
    );
    // the later table entry shadows the earlier one
    assert_eq!(pc.cost_prim(&"+".to_string()), 9);
    assert_eq!(pc.cost_prim(&"?".to_string()), 100);
}
