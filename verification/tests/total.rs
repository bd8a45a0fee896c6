use puzzles::total::Expression;
use puzzles::total::KnownValues;
use puzzles::total::Operation;
use puzzles::total::Operator;
use puzzles::total::solve;
use puzzles::text::int_to_string;

#[test]
fn operators_apply_exactly() {
    assert_eq!(Operator::Add.apply(7, 5), Some(12));
    assert_eq!(Operator::Sub.apply(7, 5), Some(2));
    assert_eq!(Operator::Mul.apply(7, 5), Some(35));
    assert_eq!(Operator::Div.apply(35, 5), Some(7));
    assert_eq!(Operator::Div.apply(7, 5), None);
    assert_eq!(Operator::Div.apply(7, 0), None);
    assert_eq!(Operator::Div.apply(-35, 5), Some(-7));
    assert_eq!(Operator::Div.apply(-35, -5), Some(7));
}

#[test]
fn commutativity_of_operators() {
    assert!(Operator::Add.is_commutative());
    assert!(Operator::Mul.is_commutative());
    assert!(!Operator::Sub.is_commutative());
    assert!(!Operator::Div.is_commutative());
}

#[test]
fn rendering_expressions() {
    assert_eq!(int_to_string(0), "0");
    assert_eq!(int_to_string(345), "345");
    assert_eq!(int_to_string(-45), "-45");
    let mut known = KnownValues::new();
    known.insert(12, Expression { value: 12, size: 1, op: None });
    let quotient = Expression {
        value: 1,
        size: 2,
        op: Some(Operation::new(Operator::Div, 12, 12)),
    };
    assert_eq!(quotient.to_string(&known), "(12 / 12)");
    let leaf = Expression { value: -3, size: 1, op: None };
    assert_eq!(leaf.to_string(&known), "-3");
}

#[test]
fn expression_apply_uses_the_final_operation() {
    let leaf = Expression { value: 9, size: 1, op: None };
    assert_eq!(leaf.apply(), Some(9));
    let sum = Expression { value: 24, size: 2, op: Some(Operation::new(Operator::Add, 12, 12)) };
    assert_eq!(sum.apply(), Some(24));
}

#[test]
fn solve_finds_smallest_expression_sizes() {
    assert_eq!(solve(24, 12), 2);
    assert_eq!(solve(144, 12), 2);
    assert_eq!(solve(1, 12), 2);
    assert_eq!(solve(36, 12), 3);
}
