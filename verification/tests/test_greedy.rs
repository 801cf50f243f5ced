use std::collections::{HashMap, HashSet};

use algorithm::search::greedy::find_best_covered_state;

// the stations and the states, each under a number
const KONE: u64 = 1;
const KTWO: u64 = 2;
const KTHREE: u64 = 3;
const KFOUR: u64 = 4;
const KFIVE: u64 = 5;

const ID: u64 = 10;
const NV: u64 = 11;
const UT: u64 = 12;
const WA: u64 = 13;
const MT: u64 = 14;
const OR: u64 = 15;
const CA: u64 = 16;
const AZ: u64 = 17;

#[test]
fn test_array_success() {
    // stations
    let mut stations = HashMap::new();

    let kone: HashSet<u64> = vec![ID, NV, UT].into_iter().collect();
    stations.insert(KONE, kone);

    let ktwo: HashSet<u64> = vec![WA, ID, MT].into_iter().collect();
    stations.insert(KTWO, ktwo);

    let kthree: HashSet<u64> = vec![OR, NV, CA].into_iter().collect();
    stations.insert(KTHREE, kthree);

    let kfour: HashSet<u64> = vec![NV, UT].into_iter().collect();
    stations.insert(KFOUR, kfour);

    let kfive: HashSet<u64> = vec![CA, AZ].into_iter().collect();
    stations.insert(KFIVE, kfive);

    // states needed
    let states_needed: HashSet<u64> = vec![MT, WA, OR, ID, NV, UT, CA, AZ]
        .into_iter()
        .collect();

    let covered = find_best_covered_state(&stations, &states_needed);
    let stations_of_covered = get_covered_states(&stations, &covered);
    println!("stations_of_covered: {:?}", stations_of_covered);
    assert_eq!(stations_of_covered, states_needed);
}

fn get_covered_states(
    stations: &HashMap<u64, HashSet<u64>>,
    target_stations: &HashSet<u64>,
) -> HashSet<u64> {
    let mut states = HashSet::new();

    for station in target_stations.iter() {
        let states_of_station = stations.get(&station).unwrap();
        states = states
            .union(states_of_station)
            .map(|item| item.clone())
            .collect();
    }

    states
}

#[test]
fn test_greedy_needs_nothing() {
    let mut stations = HashMap::new();
    let kone: HashSet<u64> = vec![ID, NV].into_iter().collect();
    stations.insert(KONE, kone);
    let chosen = find_best_covered_state(&stations, &HashSet::new());
    assert!(chosen.is_empty());
}

#[test]
fn test_greedy_takes_the_station_that_covers_most() {
    let mut stations = HashMap::new();
    let kone: HashSet<u64> = vec![ID].into_iter().collect();
    stations.insert(KONE, kone);
    let ktwo: HashSet<u64> = vec![ID, NV, UT, WA].into_iter().collect();
    stations.insert(KTWO, ktwo);
    let kthree: HashSet<u64> = vec![NV, MT].into_iter().collect();
    stations.insert(KTHREE, kthree);
    let needed: HashSet<u64> = vec![ID, NV, UT, WA].into_iter().collect();
    let chosen = find_best_covered_state(&stations, &needed);
    let expected: HashSet<u64> = vec![KTWO].into_iter().collect();
    assert_eq!(chosen, expected);

    // a state that only one station has brings that station in
    let needed: HashSet<u64> = vec![ID, NV, UT, WA, MT].into_iter().collect();
    let chosen = find_best_covered_state(&stations, &needed);
    let expected: HashSet<u64> = vec![KTWO, KTHREE].into_iter().collect();
    assert_eq!(chosen, expected);
    assert!(chosen.iter().all(|k| stations.contains_key(k)));
}
