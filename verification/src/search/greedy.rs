use std::collections::{HashMap, HashSet};
use vstd::prelude::*;
use vstd::std_specs::iter::IteratorSpec;

verus! {

broadcast use vstd::std_specs::hash::group_hash_axioms;

/// Every state of `states` lies in the set of one of the stations of
/// `chosen`.
pub open spec fn covers(
    stations: Map<u64, HashSet<u64>>,
    chosen: Set<u64>,
    states: Set<u64>,
) -> bool {
    forall|s: u64| #[trigger]
        states.contains(s) ==> exists|k: u64|
            chosen.contains(k) && stations.contains_key(k) && #[trigger] stations[k]@.contains(s)
}

/// What a set holds is what the walk through it passes, each state once.
proof fn lemma_walk(set: &HashSet<u64>)
    ensures
        set@.finite(),
        forall|x: u64|
            set@.contains(x) <==> exists|i: int|
                0 <= i < set.iter().remaining().len() && *#[trigger] set.iter().remaining()[i]
                    == x,
{
    let s = set.iter().remaining();
    assert(s.unref().to_set() == set@);
    vstd::seq_lib::seq_to_set_is_finite(s.unref());
    assert forall|x: u64|
        set@.contains(x) <==> exists|i: int| 0 <= i < s.len() && *#[trigger] s[i] == x by {
        if set@.contains(x) {
            assert(s.unref().to_set().contains(x));
            let i = choose|i: int| 0 <= i < s.unref().len() && s.unref()[i] == x;
            assert(*s[i] == x);
        }
        if exists|i: int| 0 <= i < s.len() && *#[trigger] s[i] == x {
            let i = choose|i: int| 0 <= i < s.len() && *#[trigger] s[i] == x;
            assert(s.unref()[i] == x);
            assert(s.unref().to_set().contains(x));
        }
    }
}

/// The states that both `a` and `b` hold.
fn common(a: &HashSet<u64>, b: &HashSet<u64>) -> (res: HashSet<u64>)
    ensures
        res@ == a@.intersect(b@),
        res@.finite(),
{
    let mut res: HashSet<u64> = HashSet::new();
    for k in it: a.iter()
        invariant
            it.seq() == a.iter().remaining(),
            res@.finite(),
            forall|x: u64|
                res@.contains(x) <==> b@.contains(x) && exists|i: int|
                    0 <= i < it.index() && *#[trigger] it.seq()[i] == x,
    {
        if b.contains(k) {
            res.insert(*k);
        }
    }
    proof {
        lemma_walk(a);
        assert(res@ =~= a@.intersect(b@));
    }
    res
}

/// The states that `a` holds and `b` does not.
fn without(a: &HashSet<u64>, b: &HashSet<u64>) -> (res: HashSet<u64>)
    ensures
        res@ == a@.difference(b@),
        res@.finite(),
{
    let mut res: HashSet<u64> = HashSet::new();
    for k in it: a.iter()
        invariant
            it.seq() == a.iter().remaining(),
            res@.finite(),
            forall|x: u64|
                res@.contains(x) <==> !b@.contains(x) && exists|i: int|
                    0 <= i < it.index() && *#[trigger] it.seq()[i] == x,
    {
        if !b.contains(k) {
            res.insert(*k);
        }
    }
    proof {
        lemma_walk(a);
        assert(res@ =~= a@.difference(b@));
    }
    res
}

/// A set of stations that between them cover the states that are needed.
/// Round by round the station that covers most of what is still needed is
/// chosen; which one it is among equals depends on the order in which the
/// stations are walked through. Every state that is needed must lie in the
/// set of some station.
pub fn find_best_covered_state(
    stations: &HashMap<u64, HashSet<u64>>,
    states_needed: &HashSet<u64>,
) -> (chosen: HashSet<u64>)
    requires
        covers(stations@, stations@.dom(), states_needed@),
    ensures
        chosen@.subset_of(stations@.dom()),
        covers(stations@, chosen@, states_needed@),
{
    let mut final_stations: HashSet<u64> = HashSet::new();
    let mut best_station: Option<u64>;
    let mut states_covered: HashSet<u64>;
    let none: HashSet<u64> = HashSet::new();
    let mut states_needed_tmp = without(states_needed, &none);

    while !states_needed_tmp.is_empty()
        invariant
            covers(stations@, stations@.dom(), states_needed@),
            states_needed_tmp@.finite(),
            states_needed_tmp@.subset_of(states_needed@),
            final_stations@.subset_of(stations@.dom()),
            covers(stations@, final_stations@, states_needed@.difference(states_needed_tmp@)),
        decreases states_needed_tmp@.len(),
    {
        best_station = None;
        states_covered = HashSet::new();
        let ghost needed = states_needed_tmp@;

        for pair in it: stations.iter()
            invariant
                it.seq() == stations.iter().remaining(),
                needed == states_needed_tmp@,
                needed.finite(),
                states_covered@.finite(),
                best_station is None ==> states_covered@ == Set::<u64>::empty(),
                best_station matches Some(b) ==> stations@.contains_key(b) && states_covered@
                    == needed.intersect(stations@[b]@),
                forall|i: int|
                    0 <= i < it.index() ==> needed.intersect(
                        (#[trigger] it.seq()[i]).1@,
                    ).len() <= states_covered@.len(),
        {
            let (station, states_for_station) = pair;
            let covered = common(&states_needed_tmp, states_for_station);
            proof {
                assert(stations@.contains_key(*station) && stations@[*station]
                    == *states_for_station) by {
                    let v = stations.iter().remaining();
                    assert(v[it.index()] == pair);
                    assert(stations@.contains_key(*v[it.index()].0));
                }
                vstd::set_lib::lemma_set_empty_equivalency_len(states_covered@);
            }
            if states_covered.is_empty() || covered.len() > states_covered.len() {
                best_station = Some(*station);
                states_covered = covered;
            }
        }
        proof {
            // something that is still needed lies in the set of a station,
            // so the best station covers something
            vstd::set_lib::lemma_set_empty_equivalency_len(needed);
            let s = choose|s: u64| needed.contains(s);
            assert(states_needed@.contains(s));
            let k = choose|k: u64|
                stations@.dom().contains(k) && stations@.contains_key(k)
                    && #[trigger] stations@[k]@.contains(s);
            let v = stations.iter().remaining();
            assert(v.contains((&k, &stations@[k])));
            let i = choose|i: int| 0 <= i < v.len() && v[i] == (&k, &stations@[k]);
            let met = needed.intersect(v[i].1@);
            assert(met.contains(s));
            vstd::set_lib::lemma_len_intersect(needed, v[i].1@);
            vstd::set_lib::lemma_set_empty_equivalency_len(met);
            assert(states_covered@.len() >= 1);
            vstd::set_lib::lemma_set_empty_equivalency_len(states_covered@);
            let c = choose|c: u64| states_covered@.contains(c);
            assert(needed.contains(c));
            let rest = needed.difference(states_covered@);
            vstd::set_lib::lemma_set_subset_finite(needed, rest);
            rest.lemma_subset_not_in_lt(needed, c);
        }
        states_needed_tmp = without(&states_needed_tmp, &states_covered);
        if best_station.is_some() {
            final_stations.insert(best_station.unwrap());
        }
        proof {
            let b = best_station.unwrap();
            assert forall|s: u64| #[trigger]
                states_needed@.difference(states_needed_tmp@).contains(s) implies exists|k: u64|
                final_stations@.contains(k) && stations@.contains_key(k) && #[trigger] stations@[k]@.contains(
                    s,
                ) by {
                if needed.contains(s) {
                    assert(states_covered@.contains(s));
                    assert(final_stations@.contains(b) && stations@[b]@.contains(s));
                } else {
                    assert(states_needed@.difference(needed).contains(s));
                    let k = choose|k: u64|
                        final_stations@.contains(k) && stations@.contains_key(k)
                            && #[trigger] stations@[k]@.contains(s);
                    assert(final_stations@.contains(k));
                }
            }
        }
    }
    proof {
        assert(states_needed@.difference(states_needed_tmp@) =~= states_needed@);
    }

    final_stations
}

} // verus!
