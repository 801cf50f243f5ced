use std::collections::HashMap;

use algorithm::search::breadth::{breadth_search, breadth_search_generic, breadth_search_new};

// the people of the graph, each under the number of its place in `NAMES`
const NAMES: [&str; 8] = ["you", "alice", "bob", "claire", "anuj", "peggy", "thom", "jony"];
const YOU: u64 = 0;
const ALICE: u64 = 1;
const BOB: u64 = 2;
const CLAIRE: u64 = 3;
const ANUJ: u64 = 4;
const PEGGY: u64 = 5;
const THOM: u64 = 6;
const JONY: u64 = 7;

/// Whether the name of `person` ends in 'm'.
fn is_seller(person: u64) -> bool {
    let chars: Vec<char> = NAMES[person as usize].chars().collect();
    *chars.last().unwrap() == 'm'
}

fn graph_with_seller() -> HashMap<u64, Vec<u64>> {
    let mut graph = HashMap::new();
    graph.insert(YOU, vec![ALICE, BOB, CLAIRE]);
    graph.insert(BOB, vec![ANUJ, PEGGY]);
    graph.insert(ALICE, vec![PEGGY]);
    graph.insert(ANUJ, vec![]);
    graph.insert(PEGGY, vec![THOM]);
    graph.insert(THOM, vec![]);
    graph.insert(JONY, vec![]);
    graph
}

fn graph_without_seller() -> HashMap<u64, Vec<u64>> {
    let mut graph = HashMap::new();
    graph.insert(YOU, vec![ALICE, BOB, CLAIRE]);
    graph.insert(BOB, vec![ANUJ, PEGGY]);
    graph.insert(ALICE, vec![PEGGY]);
    graph.insert(ANUJ, vec![]);
    graph.insert(PEGGY, vec![]);
    graph.insert(THOM, vec![]);
    graph.insert(JONY, vec![]);
    graph
}

#[test]
fn breadth_search_generic_array_found() {
    let graph = graph_with_seller();

    let starter = YOU;

    let found = breadth_search_generic(&graph, &starter, |name| is_seller(*name));
    assert_eq!(found, true);
}

#[test]
fn test_breadth_search_new_array_not_found() {
    let graph = graph_without_seller();

    let starter = YOU;

    let found = breadth_search(&graph, starter, |name| is_seller(name));
    assert_eq!(found, false);
}

#[test]
fn test_breadth_search_array_not_found() {
    let graph = graph_without_seller();

    let starter = YOU;

    let found = breadth_search(&graph, starter, |name| is_seller(name));
    assert_eq!(found, false);
}

#[test]
fn test_breadth_search_array_found() {
    let graph = graph_with_seller();

    let starter = YOU;

    let found = breadth_search(&graph, starter, |name| is_seller(name));
    assert_eq!(found, true);
}

#[test]
fn test_breadth_search_generic_array_not_found() {
    let graph = graph_without_seller();
    assert_eq!(breadth_search_generic(&graph, &YOU, |name| is_seller(*name)), false);
}

#[test]
fn test_breadth_search_new_finds_what_the_others_find() {
    let graph = graph_with_seller();
    assert_eq!(breadth_search_new(&graph, &YOU, |name| is_seller(*name)), true);
    assert_eq!(breadth_search_new(&graph, &JONY, |name| is_seller(*name)), false);
    let graph = graph_without_seller();
    assert_eq!(breadth_search_new(&graph, &YOU, |name| is_seller(*name)), false);
}

#[test]
fn test_breadth_search_does_not_look_at_the_starter_itself() {
    let mut graph = HashMap::new();
    graph.insert(YOU, vec![ALICE]);
    graph.insert(ALICE, vec![]);
    assert_eq!(breadth_search(&graph, YOU, |p| p == YOU), false);
    // unless a way leads round to it
    graph.insert(ALICE, vec![YOU]);
    assert_eq!(breadth_search(&graph, YOU, |p| p == YOU), true);
}

#[test]
fn test_breadth_search_round_and_round() {
    // the ways go round in a ring; a node without a list of its own is looked at too
    let mut graph = HashMap::new();
    graph.insert(YOU, vec![ALICE, BOB]);
    graph.insert(ALICE, vec![BOB, YOU]);
    graph.insert(BOB, vec![ALICE, CLAIRE]);
    assert_eq!(breadth_search(&graph, YOU, |p| p == CLAIRE), true);
    assert_eq!(breadth_search(&graph, YOU, |p| p == JONY), false);
    assert_eq!(breadth_search(&graph, YOU, |_| false), false);
    assert_eq!(breadth_search_generic(&graph, &YOU, |p| *p == CLAIRE), true);
    assert_eq!(breadth_search_generic(&graph, &ALICE, |p| *p == ALICE), true);
}

#[test]
fn test_breadth_search_asks_of_no_node_twice() {
    let mut graph = HashMap::new();
    graph.insert(YOU, vec![ALICE, BOB, ALICE]);
    graph.insert(ALICE, vec![BOB, YOU, ALICE]);
    graph.insert(BOB, vec![ALICE, BOB]);
    let asked = std::cell::RefCell::new(Vec::new());
    let found = breadth_search(&graph, YOU, |p| {
        asked.borrow_mut().push(p);
        false
    });
    assert_eq!(found, false);
    let mut seen = asked.borrow().clone();
    seen.sort();
    assert_eq!(seen, vec![YOU, ALICE, BOB]);
}
