use puzzle_solvers::expr::{Equation, Expression, Value};
use puzzle_solvers::solver::{bool_vec_to_string, solve, solve_recursion};
use std::collections::HashMap;

fn var_equals(v: i32, right: Expression) -> Equation {
    Equation { left: Expression::Val(Value::Var(v)), right }
}

#[test]
fn bit_string_of_a_vector() {
    assert_eq!(bool_vec_to_string(&vec![true, false, false, true]), "1001");
    assert_eq!(bool_vec_to_string(&vec![]), "");
}

#[test]
fn contradicting_constants_have_no_solution() {
    let constants = vec![
        var_equals(1, Expression::Val(Value::True)),
        var_equals(1, Expression::Val(Value::False)),
    ];
    assert_eq!(solve(vec![1], constants, vec![]), Err(()));
}

#[test]
fn no_equations_leave_every_assignment() {
    assert_eq!(solve(vec![1, 2], vec![], vec![]), Ok((4, "00".to_string())));
}

#[test]
fn one_parity_constraint_over_three_variables() {
    let equations = vec![
        var_equals(1, Expression::Xor(vec![Value::True, Value::Var(2), Value::Var(3)])),
        var_equals(2, Expression::Xor(vec![Value::True, Value::Var(1), Value::Var(3)])),
        var_equals(3, Expression::Xor(vec![Value::True, Value::Var(1), Value::Var(2)])),
    ];
    assert_eq!(solve(vec![1, 2, 3], vec![], equations), Ok((4, "001".to_string())));
}

#[test]
fn search_appends_in_lexicographic_order() {
    let equations = vec![var_equals(1, Expression::Xor(vec![Value::True, Value::Var(2)]))];
    let mut solutions = vec![vec![true]];
    solve_recursion(HashMap::new(), &vec![1, 2], &mut solutions, &equations);
    assert_eq!(solutions, vec![vec![true], vec![false, true], vec![true, false]]);
}
