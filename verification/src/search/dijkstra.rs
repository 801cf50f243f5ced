use std::collections::HashMap;
use vstd::prelude::*;

verus! {

broadcast use vstd::std_specs::hash::group_hash_axioms;

/// From `node` the parents lead to `start` in `n` steps, and not before.
pub open spec fn leads(parents: Map<u64, Option<u64>>, node: u64, start: u64, n: nat) -> bool
    decreases n,
{
    if n == 0 {
        node == start
    } else {
        &&& node != start
        &&& parents.contains_key(node)
        &&& parents[node] is Some
        &&& leads(parents, parents[node].unwrap(), start, (n - 1) as nat)
    }
}

/// `path` is the way from `start` to `end` that the parents give: it begins
/// at `start` and ends at `end`, the parent of each node is the node before
/// it, and `start` does not stand between the two ends.
pub open spec fn is_way(parents: Map<u64, Option<u64>>, start: u64, end: u64, path: Seq<u64>) -> bool {
    &&& path.len() >= 2
    &&& path.first() == start
    &&& path.last() == end
    &&& forall|i: int|
        0 <= i < path.len() - 1 ==> parents.contains_key(#[trigger] path[i + 1]) && parents[path[i
            + 1]] == Some(path[i])
    &&& forall|i: int| 0 < i < path.len() - 1 ==> #[trigger] path[i] != start
}

/// The way from `start` to `end`, read off the parents from `end` back.
/// `end` must have a parent, and the parents from there on must lead to
/// `start`.
pub fn get_path(parents: &HashMap<u64, Option<u64>>, start: u64, end: u64) -> (path: Vec<u64>)
    requires
        parents@.contains_key(end),
        parents@[end] is Some,
        exists|n: nat| leads(parents@, parents@[end].unwrap(), start, n),
    ensures
        is_way(parents@, start, end, path@),
{
    let mut back: Vec<u64> = Vec::new();
    back.push(end);
    back.push(parents.get(&end).unwrap().unwrap());
    let ghost mut n: nat = choose|n: nat| leads(parents@, parents@[end].unwrap(), start, n);
    loop
        invariant
            back.len() >= 2,
            back@[0] == end,
            leads(parents@, back@.last(), start, n),
            forall|i: int|
                0 <= i < back.len() - 1 ==> parents@.contains_key(#[trigger] back@[i])
                    && parents@[back@[i]] == Some(back@[i + 1]),
            forall|i: int| 0 < i < back.len() - 1 ==> #[trigger] back@[i] != start,
        ensures
            back@.last() == start,
        decreases n,
    {
        let parent = back[back.len() - 1];
        if parent == start {
            break;
        }
        back.push(parents.get(&parent).unwrap().unwrap());
        proof {
            n = (n - 1) as nat;
        }
    }

    // the way was read from its end: turn it round
    let mut path: Vec<u64> = Vec::new();
    let mut i: usize = back.len();
    while i > 0
        invariant
            i <= back.len(),
            path.len() == back.len() - i,
            forall|j: int| 0 <= j < path.len() ==> path@[j] == back@[back.len() - 1 - j],
        decreases i,
    {
        i -= 1;
        path.push(back[i]);
    }
    proof {
        assert forall|i: int| 0 <= i < path.len() - 1 implies parents@.contains_key(
            #[trigger] path@[i + 1],
        ) && parents@[path@[i + 1]] == Some(path@[i]) by {
            let j = back.len() - 2 - i;
            assert(path@[i + 1] == back@[j]);
            assert(path@[i] == back@[j + 1]);
        }
        assert forall|i: int| 0 < i < path.len() - 1 implies #[trigger] path@[i] != start by {
            assert(path@[i] == back@[back.len() - 1 - i]);
        }
    }
    path
}

} // verus!
