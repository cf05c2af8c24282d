use puzzle_solvers::expr::{Equation, Expression, Value};
use puzzle_solvers::extract::{
    extract, insert_sorted, is_in_extracted, merge_equations, merge_maps, Bucket, EquationMap,
};

use Expression::{Val, Xor};
use Value::{False, True, Var};

fn eq(left: Expression, right: Expression) -> Equation {
    Equation { left, right }
}

fn script(vars: &[i32]) -> Equation {
    eq(Xor(vars.iter().map(|v| Var(*v)).collect()), Val(True))
}

fn keys(map: &EquationMap) -> Vec<usize> {
    map.buckets.iter().map(|b| b.key).collect()
}

#[test]
fn lookup_takes_the_first_usable_equation() {
    let map = EquationMap {
        buckets: vec![
            Bucket { key: 0, equations: vec![eq(Val(Var(1)), Val(True))] },
            Bucket {
                key: 1,
                equations: vec![
                    eq(Val(Var(2)), Xor(vec![True, Var(1)])),
                    eq(Val(Var(3)), Val(False)),
                ],
            },
        ],
    };
    assert_eq!(is_in_extracted(&map, &[1, 2, 3], &1), Ok((2, Xor(vec![True, Var(1)]))));
    assert_eq!(is_in_extracted(&map, &[1, 2, 3], &2), Ok((1, Val(True))));
    assert_eq!(is_in_extracted(&map, &[3, 4], &4), Ok((3, Val(False))));
    assert_eq!(is_in_extracted(&map, &[3, 4], &3), Err(()));
    assert_eq!(is_in_extracted(&map, &[], &9), Err(()));
    assert_eq!(is_in_extracted(&EquationMap::new(), &[1], &2), Err(()));
}

#[test]
fn append_extends_or_adds_a_bucket() {
    let mut map = EquationMap::new();
    map.append(4, vec![eq(Val(Var(1)), Val(True))]);
    map.append(2, vec![eq(Val(Var(2)), Val(True))]);
    map.append(4, vec![eq(Val(Var(3)), Val(True)), eq(Val(Var(4)), Val(True))]);
    assert_eq!(keys(&map), vec![4, 2]);
    assert_eq!(
        map.buckets[0].equations,
        vec![eq(Val(Var(1)), Val(True)), eq(Val(Var(3)), Val(True)), eq(Val(Var(4)), Val(True))]
    );
    assert_eq!(map.buckets[1].equations, vec![eq(Val(Var(2)), Val(True))]);
}

#[test]
fn merging_maps_joins_buckets_by_key() {
    let mut map1 = EquationMap {
        buckets: vec![
            Bucket { key: 0, equations: vec![eq(Val(Var(1)), Val(True))] },
            Bucket { key: 1, equations: vec![eq(Val(Var(2)), Val(True))] },
        ],
    };
    let map2 = EquationMap {
        buckets: vec![
            Bucket { key: 7, equations: vec![eq(Val(Var(7)), Val(False))] },
            Bucket { key: 1, equations: vec![eq(Val(Var(3)), Val(False))] },
        ],
    };
    merge_maps(&mut map1, map2);
    assert_eq!(keys(&map1), vec![0, 1, 7]);
    assert_eq!(map1.buckets[0].equations, vec![eq(Val(Var(1)), Val(True))]);
    assert_eq!(
        map1.buckets[1].equations,
        vec![eq(Val(Var(2)), Val(True)), eq(Val(Var(3)), Val(False))]
    );
    assert_eq!(map1.buckets[2].equations, vec![eq(Val(Var(7)), Val(False))]);
}

#[test]
fn merging_an_empty_map_changes_nothing() {
    let mut map1 = EquationMap {
        buckets: vec![Bucket { key: 3, equations: vec![eq(Val(Var(1)), Val(True))] }],
    };
    merge_maps(&mut map1, EquationMap::new());
    assert_eq!(keys(&map1), vec![3]);
    assert_eq!(map1.buckets[0].equations, vec![eq(Val(Var(1)), Val(True))]);
}

#[test]
fn merged_equations_are_sorted_and_unique() {
    let map = EquationMap {
        buckets: vec![
            Bucket {
                key: 0,
                equations: vec![
                    eq(Val(Var(2)), Xor(vec![True, Var(1)])),
                    eq(Val(Var(1)), Xor(vec![True, Var(2)])),
                ],
            },
            Bucket {
                key: 1,
                equations: vec![
                    eq(Val(Var(1)), Xor(vec![True, Var(2)])),
                    eq(Val(Var(1)), Val(False)),
                    eq(Val(Var(2)), Xor(vec![True, Var(1)])),
                ],
            },
        ],
    };
    let merged = merge_equations(&map);
    assert_eq!(
        merged,
        vec![
            eq(Val(Var(1)), Val(False)),
            eq(Val(Var(1)), Xor(vec![True, Var(2)])),
            eq(Val(Var(2)), Xor(vec![True, Var(1)])),
        ]
    );
    // the same list as sorting and deduplicating by the derived order
    let mut all: Vec<Equation> =
        map.buckets.iter().flat_map(|b| b.equations.iter().cloned()).collect();
    all.sort();
    all.dedup();
    assert_eq!(merged, all);
}

#[test]
fn insert_sorted_skips_what_is_there() {
    let mut list = vec![];
    insert_sorted(&mut list, eq(Val(Var(2)), Val(True)));
    insert_sorted(&mut list, eq(Val(Var(1)), Val(True)));
    insert_sorted(&mut list, eq(Val(Var(2)), Val(True)));
    insert_sorted(&mut list, eq(Val(Var(1)), Val(False)));
    assert_eq!(
        list,
        vec![eq(Val(Var(1)), Val(True)), eq(Val(Var(1)), Val(False)), eq(Val(Var(2)), Val(True))]
    );
}

#[test]
fn extraction_of_one_script() {
    let r = extract(&vec![script(&[1, 2, 3])]);
    assert_eq!(r.constants, vec![]);
    assert_eq!(
        r.equations,
        vec![
            eq(Val(Var(1)), Xor(vec![True, Var(2), Var(3)])),
            eq(Val(Var(2)), Xor(vec![True, Var(1), Var(3)])),
            eq(Val(Var(3)), Xor(vec![True, Var(1), Var(2)])),
        ]
    );
}

#[test]
fn extraction_uses_what_is_known() {
    let r = extract(&vec![script(&[1, 2]), script(&[1, 2, 3])]);
    assert_eq!(r.constants, vec![eq(Val(Var(3)), Val(False))]);
    assert_eq!(
        r.equations,
        vec![
            eq(Val(Var(1)), Xor(vec![True, Var(2)])),
            eq(Val(Var(2)), Xor(vec![True, Var(1)])),
        ]
    );
}

#[test]
fn extraction_prefers_constants() {
    let r = extract(&vec![script(&[1]), script(&[2]), script(&[1, 2])]);
    assert_eq!(
        r.constants,
        vec![
            eq(Val(Var(1)), Val(True)),
            eq(Val(Var(1)), Val(False)),
            eq(Val(Var(2)), Val(True)),
            eq(Val(Var(2)), Val(False)),
        ]
    );
    assert_eq!(r.equations, vec![]);
}

#[test]
fn extraction_drops_a_repeated_script() {
    let r = extract(&vec![script(&[1, 2]), script(&[1, 2])]);
    assert_eq!(r.constants, vec![]);
    assert_eq!(
        r.equations,
        vec![
            eq(Val(Var(1)), Xor(vec![True, Var(2)])),
            eq(Val(Var(2)), Xor(vec![True, Var(1)])),
        ]
    );
}

#[test]
fn extraction_of_nothing() {
    let r = extract(&vec![]);
    assert_eq!(r.constants, vec![]);
    assert_eq!(r.equations, vec![]);
    let r = extract(&vec![script(&[])]);
    assert_eq!(r.constants, vec![]);
    assert_eq!(r.equations, vec![]);
}

#[test]
fn extraction_of_a_reduced_set_is_a_fixed_point() {
    let first = extract(&vec![script(&[1]), script(&[1, 2]), script(&[2, 3, 4]), script(&[3, 4, 5])]);
    let mut all = first.constants.clone();
    all.extend(first.equations.iter().cloned());
    let second = extract(&all);
    assert_eq!(second.constants, first.constants);
    assert_eq!(second.equations, first.equations);
}

#[test]
fn a_larger_script_before_a_smaller_one_can_lose_the_smaller_one() {
    // solved for either of its variables, the second script gets the variable back
    // through what the first one gave, so nothing is derived from it
    let r = extract(&vec![script(&[1, 2, 3]), script(&[1, 2])]);
    assert_eq!(r.constants, vec![]);
    assert_eq!(
        r.equations,
        vec![
            eq(Val(Var(1)), Xor(vec![True, Var(2), Var(3)])),
            eq(Val(Var(2)), Xor(vec![True, Var(1), Var(3)])),
            eq(Val(Var(3)), Xor(vec![True, Var(1), Var(2)])),
        ]
    );
}
