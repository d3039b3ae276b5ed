use hitting_set::elem_set::ElemSet;
use hitting_set::solver::{backtrack, SolveError};

fn elem_set_of(elems: &[char]) -> ElemSet {
    let mut s = ElemSet::new();
    for &e in elems {
        s.insert(e);
    }
    s
}

fn solve(instance: Vec<ElemSet>) -> ElemSet {
    backtrack(&instance).unwrap()
}

#[test]
fn one_set() {
    let set1 = elem_set_of(&['a', 'b']);
    let solution = solve(vec![set1]);
    assert_eq!(1, solution.len());
}

#[test]
fn two_sets() {
    let set1 = elem_set_of(&['a', 'b']);
    let set2 = elem_set_of(&['b', 'c']);
    let solution = solve(vec![set1, set2]);
    let answer = elem_set_of(&['b']);
    assert!(answer.same_set(&solution));
}

#[test]
fn one_set_picks_one_of_its_elements() {
    let solution = solve(vec![elem_set_of(&['a', 'b'])]);
    assert_eq!(1, solution.len());
    assert!(solution.contains('a') || solution.contains('b'));
}

#[test]
fn disjoint_sets() {
    let solution = solve(vec![elem_set_of(&['a']), elem_set_of(&['b'])]);
    let answer = elem_set_of(&['a', 'b']);
    assert!(answer.same_set(&solution));
}

#[test]
fn full_overlap() {
    let abc = elem_set_of(&['a', 'b', 'c']);
    let solution = solve(vec![abc.duplicate(), abc.duplicate()]);
    assert_eq!(1, solution.len());
    assert!(solution.is_subset_of(&abc));
}

#[test]
fn chain_forcing_three_picks() {
    let solution = solve(vec![
        elem_set_of(&['a', 'b']),
        elem_set_of(&['c', 'd']),
        elem_set_of(&['e', 'f']),
    ]);
    assert_eq!(3, solution.len());
    assert!(solution.contains('a') || solution.contains('b'));
    assert!(solution.contains('c') || solution.contains('d'));
    assert!(solution.contains('e') || solution.contains('f'));
}

#[test]
fn empty_instance() {
    let solution = solve(Vec::new());
    assert_eq!(0, solution.len());
    assert!(solution.is_empty());
}

#[test]
fn uncoverable_input() {
    let result = backtrack(&vec![elem_set_of(&['a']), ElemSet::new()]);
    assert!(matches!(result, Err(SolveError::UncoverableInput)));
}

#[test]
fn overlapping_chain_needs_two() {
    let solution = solve(vec![
        elem_set_of(&['a', 'b']),
        elem_set_of(&['b', 'c']),
        elem_set_of(&['c', 'd']),
    ]);
    assert_eq!(2, solution.len());
}

#[test]
fn cover_lies_within_domain() {
    let solution = solve(vec![elem_set_of(&['a', 'b']), elem_set_of(&['b', 'c'])]);
    let domain = elem_set_of(&['a', 'b', 'c']);
    assert!(solution.is_subset_of(&domain));
}

#[test]
fn permuted_instance_same_cardinality() {
    let first = solve(vec![elem_set_of(&['a']), elem_set_of(&['b', 'c'])]);
    let second = solve(vec![elem_set_of(&['c', 'b']), elem_set_of(&['a'])]);
    assert_eq!(first.len(), second.len());
}

#[test]
fn duplicated_set_same_cardinality() {
    let first = solve(vec![elem_set_of(&['a']), elem_set_of(&['b', 'c'])]);
    let second = solve(vec![
        elem_set_of(&['a']),
        elem_set_of(&['b', 'c']),
        elem_set_of(&['a']),
    ]);
    assert_eq!(first.len(), second.len());
}

#[test]
fn enlarged_set_cannot_need_more() {
    let first = solve(vec![elem_set_of(&['a']), elem_set_of(&['b'])]);
    let second = solve(vec![elem_set_of(&['a', 'b']), elem_set_of(&['b'])]);
    assert!(second.len() <= first.len());
    assert_eq!(1, second.len());
}

#[test]
fn repeated_insert_is_absorbed() {
    let mut s = ElemSet::new();
    s.insert('a');
    s.insert('a');
    assert_eq!(1, s.len());
    assert!(s.contains('a'));
}
