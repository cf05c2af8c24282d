use puzzle_solvers::expr::{Equation, Expression, Value};
use puzzle_solvers::scripts::{
    parse_header, script_equations, solve_scripts, solve_text, variable_list,
};

use Expression::{Val, Xor};
use Value::{True, Var};

fn script(vars: &[i32]) -> Equation {
    Equation { left: Xor(vars.iter().map(|v| Var(*v)).collect()), right: Val(True) }
}

#[test]
fn variables_are_numbered_from_one() {
    assert_eq!(variable_list(4), vec![1, 2, 3, 4]);
    assert_eq!(variable_list(0), Vec::<i32>::new());
    assert_eq!(variable_list(-3), Vec::<i32>::new());
}

#[test]
fn scripts_become_equations_smaller_first() {
    // line i lists the scripts that name variable i + 1
    let lines = vec![vec![1, 2, 3], vec![1, 3], vec![1], vec![]];
    assert_eq!(
        script_equations(3, &lines),
        vec![script(&[1]), script(&[1, 2]), script(&[1, 2, 3])]
    );
    assert_eq!(script_equations(0, &lines), vec![]);
    assert_eq!(script_equations(-1, &lines), vec![]);
}

#[test]
fn scripts_of_one_size_keep_their_order() {
    let lines = vec![vec![1, 3], vec![2, 3], vec![1, 2, 4]];
    assert_eq!(
        script_equations(4, &lines),
        vec![script(&[3]), script(&[1, 3]), script(&[2, 3]), script(&[1, 2])]
    );
}

#[test]
fn a_script_that_no_line_names_has_no_variable() {
    assert_eq!(script_equations(2, &vec![vec![2], vec![2]]), vec![script(&[]), script(&[1, 2])]);
}

#[test]
fn one_script_over_three_variables() {
    let lines = vec![vec![1], vec![1], vec![1]];
    let (count, example) = solve_scripts(3, 1, &lines).unwrap();
    assert_eq!(count, 4);
    assert_eq!(example.len(), 3);
    assert_eq!(example.chars().filter(|c| *c == '1').count() % 2, 1);
    assert_eq!(example, "001");
}

#[test]
fn no_script_gives_no_answer() {
    assert_eq!(solve_scripts(2, 0, &vec![vec![], vec![]]), Err(()));
    assert_eq!(solve_scripts(2, 0, &vec![]), Err(()));
    assert_eq!(solve_scripts(2, -4, &vec![vec![1], vec![1]]), Err(()));
}

#[test]
fn scripts_that_contradict_each_other() {
    // v1 = 1, v2 = 1, v1 xor v2 = 1
    let lines = vec![vec![1, 3], vec![2, 3]];
    assert_eq!(solve_scripts(2, 3, &lines), Err(()));
}

#[test]
fn scripts_that_fix_every_variable() {
    // v1 = 1, v1 xor v2 = 1, v2 xor v3 = 1
    let lines = vec![vec![1, 2], vec![2, 3], vec![3]];
    assert_eq!(solve_scripts(3, 3, &lines), Ok((1, "101".to_string())));
}

#[test]
fn variables_without_a_line_are_free() {
    let lines = vec![vec![1]];
    assert_eq!(solve_scripts(3, 1, &lines), Ok((4, "100".to_string())));
}

#[test]
fn the_order_of_the_scripts_does_not_change_the_answer() {
    // scripts {1,2}, {2,3}, {1,2,3,4} in every order
    let sets: [&[i32]; 3] = [&[1, 2], &[2, 3], &[1, 2, 3, 4]];
    let orders = [[0, 1, 2], [0, 2, 1], [1, 0, 2], [1, 2, 0], [2, 0, 1], [2, 1, 0]];
    for order in orders {
        let mut lines = vec![vec![], vec![], vec![], vec![]];
        for (script, set) in order.iter().enumerate() {
            for v in sets[*set] {
                lines[(*v - 1) as usize].push(script as i32 + 1);
            }
        }
        assert_eq!(solve_scripts(4, 3, &lines), Ok((2, "0100".to_string())));
    }
}

fn lines(text: &[&str]) -> Vec<String> {
    text.iter().map(|l| l.to_string()).collect()
}

#[test]
fn header_of_the_input() {
    assert_eq!(parse_header("3 1"), Some((3, 1)));
    assert_eq!(parse_header("  12\t-4 rest"), Some((12, -4)));
    assert_eq!(parse_header("3"), None);
    assert_eq!(parse_header(""), None);
    assert_eq!(parse_header("a 1"), None);
    assert_eq!(parse_header("1 b"), None);
}

#[test]
fn input_of_one_script_over_three_variables() {
    let input = lines(&["3 1", "1 1", "1 1", "1 1", ""]);
    assert_eq!(solve_text(&input), Some(Ok((4, "001".to_string()))));
}

#[test]
fn the_first_field_of_a_variable_line_is_passed_over() {
    // variable 1 is in script 2 only, variable 2 in the scripts 1 and 2
    let input = lines(&["2 2", "1 2", "2 1 2"]);
    assert_eq!(solve_text(&input), Some(Ok((1, "01".to_string()))));
}

#[test]
fn input_without_scripts() {
    assert_eq!(solve_text(&lines(&["2 0", "0", "0"])), Some(Err(())));
    assert_eq!(solve_text(&lines(&["2 0"])), Some(Err(())));
}

#[test]
fn input_that_cannot_be_read() {
    assert_eq!(solve_text(&vec![]), None);
    assert_eq!(solve_text(&lines(&["x y", "1 1"])), None);
    assert_eq!(solve_text(&lines(&["1"])), None);
    // a line after those of the variables names a script
    assert_eq!(solve_text(&lines(&["1 1", "1 1", "1 1"])), None);
    assert_eq!(solve_text(&lines(&["-2 1", "1 1"])), None);
}

#[test]
fn lines_after_those_of_the_variables_may_name_nothing() {
    let input = lines(&["1 1", "1 1", "", "7 9 12", "x"]);
    assert_eq!(solve_text(&input), Some(Ok((1, "1".to_string()))));
}
