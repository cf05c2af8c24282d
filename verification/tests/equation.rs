use puzzle_solvers::equation::{canonical_terms, toggle};
use puzzle_solvers::expr::{Equation, Expression, Value};
use std::collections::HashMap;

use Expression::{Val, Xor};
use Value::{False, True, Var};

fn eq(left: Expression, right: Expression) -> Equation {
    Equation { left, right }
}

#[test]
fn count_members_counts_both_sides() {
    assert_eq!(eq(Val(Var(1)), Val(True)).count_members(), 2);
    assert_eq!(eq(Xor(vec![Var(1), Var(2), Var(3)]), Val(True)).count_members(), 4);
    assert_eq!(eq(Xor(vec![]), Xor(vec![True, Var(2)])).count_members(), 2);
}

#[test]
fn has_var_tells_the_side() {
    let e = eq(Xor(vec![Var(1), Var(2)]), Xor(vec![True, Var(3)]));
    assert_eq!(e.has_var(&1), Ok(true));
    assert_eq!(e.has_var(&2), Ok(true));
    assert_eq!(e.has_var(&3), Ok(false));
    assert_eq!(e.has_var(&4), Err(()));
    let both = eq(Val(Var(5)), Val(Var(5)));
    assert_eq!(both.has_var(&5), Ok(true));
}

#[test]
fn analyse_lists_the_left_variables_in_order() {
    let e = eq(Xor(vec![Var(3), True, Var(1), Var(3)]), Val(Var(9)));
    assert_eq!(e.analyse(), vec![3, 1, 3]);
    assert_eq!(eq(Val(True), Val(Var(2))).analyse(), Vec::<i32>::new());
    assert_eq!(eq(Val(Var(7)), Val(False)).analyse(), vec![7]);
}

#[test]
fn solve_for_left_fails_on_the_left_variable_at_any_place() {
    for right in [
        Xor(vec![Var(1), True, Var(2)]),
        Xor(vec![True, Var(1), Var(2)]),
        Xor(vec![True, Var(2), Var(1)]),
        Xor(vec![Var(1), Var(1)]),
        Val(Var(1)),
    ] {
        let mut e = eq(Val(Var(1)), right.clone());
        assert_eq!(e.solve_for_left(), Err(()));
        assert_eq!(e, eq(Val(Var(1)), right));
    }
}

#[test]
fn solve_for_left_cancels_pairs_at_any_place() {
    for right in [
        Xor(vec![Var(2), Var(2), Var(3), True]),
        Xor(vec![Var(2), Var(3), Var(2), True]),
        Xor(vec![True, Var(2), Var(3), Var(2)]),
        Xor(vec![Var(3), Var(2), True, Var(2)]),
    ] {
        let mut e = eq(Val(Var(1)), right);
        assert_eq!(e.solve_for_left(), Ok(()));
        assert_eq!(e, eq(Val(Var(1)), Xor(vec![True, Var(3)])));
    }
}

#[test]
fn solve_for_left_gives_the_normal_form() {
    let mut e = eq(Val(Var(1)), Xor(vec![Var(5), True, Var(3), True, Var(4), True, Var(3), Var(3)]));
    assert_eq!(e.solve_for_left(), Ok(()));
    assert_eq!(e, eq(Val(Var(1)), Xor(vec![True, Var(3), Var(4), Var(5)])));

    let mut e = eq(Val(Var(1)), Xor(vec![True, True, Var(2), Var(2)]));
    assert_eq!(e.solve_for_left(), Ok(()));
    assert_eq!(e, eq(Val(Var(1)), Val(False)));

    let mut e = eq(Val(Var(1)), Xor(vec![Var(2)]));
    assert_eq!(e.solve_for_left(), Ok(()));
    assert_eq!(e, eq(Val(Var(1)), Xor(vec![False, Var(2)])));

    let mut e = eq(Val(Var(1)), Xor(vec![]));
    assert_eq!(e.solve_for_left(), Ok(()));
    assert_eq!(e, eq(Val(Var(1)), Val(False)));

    let mut e = eq(Val(Var(1)), Val(Var(2)));
    assert_eq!(e.solve_for_left(), Ok(()));
    assert_eq!(e, eq(Val(Var(1)), Val(Var(2))));
}

#[test]
fn solve_for_left_is_idempotent() {
    let mut e = eq(Val(Var(4)), Xor(vec![Var(9), Var(2), False, True, Var(9), Var(7)]));
    assert_eq!(e.solve_for_left(), Ok(()));
    let once = e.clone();
    assert_eq!(e.solve_for_left(), Ok(()));
    assert_eq!(e, once);
    assert_eq!(once, eq(Val(Var(4)), Xor(vec![True, Var(2), Var(7)])));
}

#[test]
fn toggle_keeps_the_list_rising() {
    let mut found = vec![];
    toggle(&mut found, 5);
    toggle(&mut found, 2);
    toggle(&mut found, 9);
    assert_eq!(found, vec![2, 5, 9]);
    toggle(&mut found, 5);
    assert_eq!(found, vec![2, 9]);
    toggle(&mut found, -3);
    assert_eq!(found, vec![-3, 2, 9]);
}

#[test]
fn canonical_terms_of_constants_only() {
    assert_eq!(canonical_terms(&vec![True, False, True, True]), vec![True]);
    assert_eq!(canonical_terms(&vec![False, False]), vec![False]);
    assert_eq!(canonical_terms(&vec![]), vec![False]);
}

#[test]
fn evaluate_without_substitution() {
    let source = eq(Xor(vec![Var(1), Var(2), Var(3)]), Val(True));
    assert_eq!(
        source.evaluate(&2, -1, vec![]),
        Ok(eq(Val(Var(2)), Xor(vec![True, Var(1), Var(3)])))
    );
    assert_eq!(source.evaluate(&4, -1, vec![]), Err(()));
    let single = eq(Xor(vec![Var(1)]), Val(True));
    assert_eq!(single.evaluate(&1, -1, vec![]), Ok(eq(Val(Var(1)), Val(True))));
}

#[test]
fn evaluate_with_a_variable_on_the_right() {
    let source = eq(Val(True), Xor(vec![Var(1), Var(2)]));
    assert_eq!(source.evaluate(&2, -1, vec![]), Ok(eq(Val(Var(2)), Xor(vec![True, Var(1)]))));
}

#[test]
fn evaluate_puts_in_a_constant() {
    let source = eq(Xor(vec![Var(1), Var(2)]), Val(True));
    assert_eq!(source.evaluate(&1, 2, vec![True]), Ok(eq(Val(Var(1)), Val(False))));
    assert_eq!(source.evaluate(&1, 2, vec![False]), Ok(eq(Val(Var(1)), Val(True))));
}

#[test]
fn evaluate_puts_in_an_expression() {
    let source = eq(Xor(vec![Var(1), Var(2), Var(3)]), Val(True));
    assert_eq!(
        source.evaluate(&1, 2, vec![True, Var(4), Var(3)]),
        Ok(eq(Val(Var(1)), Xor(vec![False, Var(4)])))
    );
    // a negative variable to replace means no substitution
    assert_eq!(
        source.evaluate(&1, -2, vec![True]),
        Ok(eq(Val(Var(1)), Xor(vec![True, Var(2), Var(3)])))
    );
}

#[test]
fn evaluate_replaces_every_occurrence() {
    let source = eq(Xor(vec![Var(1), Var(2), Var(2), Var(2)]), Val(False));
    assert_eq!(
        source.evaluate(&1, 2, vec![Var(5), True]),
        Ok(eq(Val(Var(1)), Xor(vec![True, Var(5)])))
    );
}

#[test]
fn evaluate_fails_where_the_variable_comes_back() {
    let source = eq(Xor(vec![Var(1), Var(2)]), Val(True));
    assert_eq!(source.evaluate(&1, 2, vec![True, Var(1)]), Err(()));
    let both = eq(Xor(vec![Var(1)]), Val(Var(1)));
    assert_eq!(both.evaluate(&1, -1, vec![]), Err(()));
}

#[test]
fn validity_is_optimistic_while_a_variable_is_unknown() {
    let e = eq(Val(Var(1)), Xor(vec![True, Var(2), Var(3)]));
    let mut known = HashMap::new();
    assert!(e.check_equation_validity(&known));
    known.insert(1, false);
    assert!(e.check_equation_validity(&known));
    known.insert(2, false);
    assert!(e.check_equation_validity(&known));
    known.insert(3, false);
    assert!(!e.check_equation_validity(&known));
    known.insert(3, true);
    assert!(e.check_equation_validity(&known));
}

#[test]
fn validity_of_a_constant_equation() {
    let e = eq(Val(Var(1)), Val(False));
    let mut known = HashMap::new();
    assert!(e.check_equation_validity(&known));
    known.insert(1, true);
    assert!(!e.check_equation_validity(&known));
    known.insert(1, false);
    assert!(e.check_equation_validity(&known));
}

#[test]
fn validity_compares_both_sides() {
    let e = eq(Xor(vec![Var(1), Var(2)]), Xor(vec![Var(3)]));
    let known = HashMap::from([(1, true), (2, true), (3, false)]);
    assert!(e.check_equation_validity(&known));
    let known = HashMap::from([(1, true), (2, false), (3, false)]);
    assert!(!e.check_equation_validity(&known));
    let no_variables = eq(Val(True), Val(False));
    assert!(!no_variables.check_equation_validity(&HashMap::new()));
}

#[test]
fn order_of_terms_and_equations() {
    assert!(True.precedes(&False));
    assert!(False.precedes(&Var(-5)));
    assert!(Var(1).precedes(&Var(2)));
    assert!(!Var(2).precedes(&Var(2)));
    assert!(Val(Var(9)).precedes(&Xor(vec![])));
    assert!(Xor(vec![True]).precedes(&Xor(vec![True, True])));
    assert!(Xor(vec![True, Var(1)]).precedes(&Xor(vec![False])));
    let a = eq(Val(Var(1)), Xor(vec![True, Var(2)]));
    let b = eq(Val(Var(1)), Xor(vec![True, Var(3)]));
    assert!(a.precedes(&b));
    assert!(!b.precedes(&a));
    assert!(a.same(&a.clone()));
    assert!(!a.same(&b));
    // the same order as the derived one
    assert_eq!(a.precedes(&b), a < b);
    assert_eq!(Val(Var(9)).precedes(&Xor(vec![])), Val(Var(9)) < Xor(vec![]));
}

#[test]
fn text_of_expressions_and_equations() {
    assert_eq!(Val(True).to_text(), "1");
    assert_eq!(Val(False).to_text(), "0");
    assert_eq!(Val(Var(12)).to_text(), "i_12");
    assert_eq!(Xor(vec![True, Var(3), False, Var(10)]).to_text(), "1 XOR i_3 XOR 0 XOR i_10");
    assert_eq!(Xor(vec![Var(7)]).to_text(), "i_7");
    assert_eq!(Xor(vec![]).to_text(), "");
    assert_eq!(eq(Val(Var(1)), Xor(vec![True, Var(2)])).to_text(), "i_1 = 1 XOR i_2");
    assert_eq!(eq(Xor(vec![Var(1), Var(2)]), Val(True)).to_text(), "i_1 XOR i_2 = 1");
}

#[test]
fn text_of_numbers() {
    for i in [0, 1, 9, 10, 11, 99, 100, 12345, i32::MAX, -1, -10, -987, i32::MIN] {
        assert_eq!(Val(Var(i)).to_text(), format!("i_{}", i));
        let mut text = String::from("x");
        puzzle_solvers::text::append_decimal(&mut text, i);
        assert_eq!(text, format!("x{}", i));
    }
}
