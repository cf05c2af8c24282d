use puzzle_solvers::dividers::{answer_line, count_dividers, find_biggest_divider, get_dividers};
use std::collections::HashMap;

#[test]
fn dividers_of_a_number() {
    assert_eq!(get_dividers(12), vec![1, 2, 3, 4, 6, 12]);
    assert_eq!(get_dividers(1), vec![1]);
    assert_eq!(get_dividers(109), vec![1, 109]);
    assert_eq!(get_dividers(220), vec![1, 2, 4, 5, 10, 11, 20, 22, 44, 55]);
    assert_eq!(get_dividers(-6), vec![1, 2, 3, 6]);
}

#[test]
fn every_small_number_divides_zero() {
    assert_eq!(get_dividers(0), (1..110).collect::<Vec<i32>>());
}

#[test]
fn dividers_of_the_largest_and_the_smallest_number() {
    assert_eq!(get_dividers(i32::MAX), vec![1]);
    assert_eq!(get_dividers(i32::MIN), vec![1, 2, 4, 8, 16, 32, 64]);
}

#[test]
fn biggest_divider_of_a_map() {
    assert_eq!(find_biggest_divider(HashMap::from([(2, 2), (3, 1)])), 2);
    assert_eq!(find_biggest_divider(HashMap::from([(6, 4)])), 3);
    assert_eq!(find_biggest_divider(HashMap::from([(6, 6)])), 6);
    assert_eq!(find_biggest_divider(HashMap::from([(200, 200)])), 200);
    assert_eq!(find_biggest_divider(HashMap::from([(220, 300)])), 55);
    assert_eq!(find_biggest_divider(HashMap::from([(7, 0)])), 0);
    assert_eq!(find_biggest_divider(HashMap::new()), 0);
}

#[test]
fn dividers_that_are_not_positive_allow_nothing() {
    assert_eq!(find_biggest_divider(HashMap::from([(-5, -5), (0, 0), (-6, 3)])), 0);
}

#[test]
fn biggest_divider_does_not_depend_on_the_order_of_the_map() {
    let entries = [(12, 5), (8, 8), (9, 2), (30, 7), (109, 1)];
    for start in 0..entries.len() {
        let mut map = HashMap::new();
        for k in 0..entries.len() {
            let (d, c) = entries[(start + k) % entries.len()];
            map.insert(d, c);
        }
        assert_eq!(find_biggest_divider(map), 8);
    }
}

#[test]
fn counts_of_the_dividers() {
    let counts = count_dividers(&vec![4, 6]);
    assert_eq!(counts, HashMap::from([(1, 2), (2, 2), (3, 1), (4, 1), (6, 1)]));
    assert_eq!(count_dividers(&vec![]), HashMap::new());
    assert_eq!(count_dividers(&vec![7, 7, 7]), HashMap::from([(1, 3), (7, 3)]));
}

#[test]
fn answer_for_a_line() {
    assert_eq!(answer_line("4 6"), Some(2));
    assert_eq!(answer_line("4 x 6"), Some(2));
    assert_eq!(answer_line(""), Some(0));
    assert_eq!(answer_line("7 7 7"), Some(1));
    assert_eq!(answer_line("3 3 3"), Some(3));
    assert_eq!(answer_line("6 6 6 6 6 6"), Some(6));
    assert_eq!(answer_line("5"), Some(1));
}

#[test]
fn answers_for_every_second_line() {
    let lines: Vec<String> =
        ["2", "2", "4 6", "3", "3 3 3", "1"].iter().map(|l| l.to_string()).collect();
    assert_eq!(puzzle_solvers::dividers::answer_lines(&lines), Some(vec![2, 3]));
    assert_eq!(puzzle_solvers::dividers::answer_lines(&lines[..2].to_vec()), Some(vec![]));
    assert_eq!(puzzle_solvers::dividers::answer_lines(&lines[..3].to_vec()), Some(vec![2]));
    assert_eq!(puzzle_solvers::dividers::answer_lines(&vec![]), Some(vec![]));
}
