use algorithm::search::dijkstra::get_path;
use std::collections::HashMap;

const START: u64 = 0;
const A: u64 = 1;
const B: u64 = 2;
const FIN: u64 = 3;

#[test]
fn test_get_path_follows_the_parents_back() {
    // start -> b -> a -> fin
    let mut parents = HashMap::new();
    parents.insert(A, Some(B));
    parents.insert(B, Some(START));
    parents.insert(FIN, Some(A));
    assert_eq!(get_path(&parents, START, FIN), vec![START, B, A, FIN]);
    assert_eq!(get_path(&parents, START, A), vec![START, B, A]);
    assert_eq!(get_path(&parents, B, FIN), vec![B, A, FIN]);
}

#[test]
fn test_get_path_of_one_step() {
    let mut parents = HashMap::new();
    parents.insert(FIN, Some(START));
    parents.insert(A, None);
    assert_eq!(get_path(&parents, START, FIN), vec![START, FIN]);
}

#[test]
fn test_get_path_round_to_the_start() {
    // the end is the start, and its parents lead round to it
    let mut parents = HashMap::new();
    parents.insert(START, Some(A));
    parents.insert(A, Some(START));
    assert_eq!(get_path(&parents, START, START), vec![START, A, START]);
}
