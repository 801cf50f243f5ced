use std::collections::HashMap;
use vstd::prelude::*;

verus! {

broadcast use vstd::std_specs::hash::group_hash_axioms;

/// `b` is among the neighbours that `graph` lists for `a`.
pub open spec fn edge(graph: Map<u64, Vec<u64>>, a: u64, b: u64) -> bool {
    graph.contains_key(a) && graph[a]@.contains(b)
}

/// `way` leads from `a` to `b` over at least one step, each step from a
/// node to one of its neighbours.
pub open spec fn is_way(graph: Map<u64, Vec<u64>>, a: u64, b: u64, way: Seq<u64>) -> bool {
    &&& way.len() >= 2
    &&& way.first() == a
    &&& way.last() == b
    &&& forall|i: int| 0 <= i < way.len() - 1 ==> edge(graph, #[trigger] way[i], way[i + 1])
}

/// `x` is a neighbour of `starter`, or a neighbour of one, and so on: a way
/// leads from `starter` to `x`.
pub open spec fn reachable(graph: Map<u64, Vec<u64>>, starter: u64, x: u64) -> bool {
    exists|way: Seq<u64>| is_way(graph, starter, x, way)
}

/// A neighbour can be reached, and so can a neighbour of what can be
/// reached.
proof fn lemma_reach_on(graph: Map<u64, Vec<u64>>, starter: u64, p: u64, x: u64)
    requires
        edge(graph, p, x),
        p == starter || reachable(graph, starter, p),
    ensures
        reachable(graph, starter, x),
{
    if p == starter {
        let way = seq![starter, x];
        assert(is_way(graph, starter, x, way));
    } else {
        let way = choose|way: Seq<u64>| is_way(graph, starter, p, way);
        let longer = way.push(x);
        assert forall|i: int| 0 <= i < longer.len() - 1 implies edge(
            graph,
            #[trigger] longer[i],
            longer[i + 1],
        ) by {
            if i < way.len() - 1 {
                assert(edge(graph, way[i], way[i + 1]));
            }
        }
        assert(is_way(graph, starter, x, longer));
    }
}

/// A set of nodes that holds the neighbours of `starter` and every
/// neighbour of each of its nodes holds every node of a way from `starter`
/// but the first.
proof fn lemma_closed(graph: Map<u64, Vec<u64>>, inside: Seq<u64>, starter: u64, way: Seq<u64>, i: int)
    requires
        forall|t: u64| #[trigger] edge(graph, starter, t) ==> inside.contains(t),
        forall|s: u64, t: u64| inside.contains(s) && #[trigger] edge(graph, s, t) ==> inside.contains(t),
        way.len() >= 2,
        way.first() == starter,
        forall|j: int| 0 <= j < way.len() - 1 ==> edge(graph, #[trigger] way[j], way[j + 1]),
        1 <= i < way.len(),
    ensures
        inside.contains(way[i]),
    decreases i,
{
    assert(edge(graph, way[i - 1], way[i]));
    if i > 1 {
        lemma_closed(graph, inside, starter, way, i - 1);
    }
}

/// There are no more nodes without repetition than there are numbers in
/// `u64`.
proof fn lemma_no_more_than_all(s: Seq<u64>)
    requires
        s.no_duplicates(),
    ensures
        s.len() <= 0x1_0000_0000_0000_0000,
{
    let m = s.map_values(|x: u64| x as int);
    assert(m.no_duplicates()) by {
        assert forall|i: int, j: int| 0 <= i < m.len() && 0 <= j < m.len() && i != j implies m[i]
            != m[j] by {
            assert(s[i] != s[j]);
        }
    }
    m.unique_seq_to_set();
    let all = vstd::set_lib::set_int_range(0, 0x1_0000_0000_0000_0000);
    vstd::set_lib::lemma_int_range(0, 0x1_0000_0000_0000_0000);
    assert(m.to_set().subset_of(all)) by {
        assert forall|x: int| m.to_set().contains(x) implies all.contains(x) by {
            let i = choose|i: int| 0 <= i < m.len() && m[i] == x;
            assert(m[i] == s[i] as int);
        }
    }
    vstd::set_lib::lemma_len_subset(m.to_set(), all);
}

/// Whether `list` holds `x`.
fn holds(list: &Vec<u64>, x: u64) -> (found: bool)
    ensures
        found == list@.contains(x),
{
    let mut i: usize = 0;
    while i < list.len()
        invariant
            i <= list.len(),
            forall|j: int| 0 <= j < i ==> list@[j] != x,
        decreases list.len() - i,
    {
        if list[i] == x {
            return true;
        }
        i += 1;
    }
    false
}

/// Puts the nodes of `more` on `queue`, in their order.
fn put_all(queue: &mut Vec<u64>, more: &Vec<u64>)
    ensures
        final(queue)@ == old(queue)@ + more@,
{
    let ghost before = queue@;
    let mut i: usize = 0;
    while i < more.len()
        invariant
            i <= more.len(),
            queue@ == before + more@.subrange(0, i as int),
        decreases more.len() - i,
    {
        queue.push(more[i]);
        proof {
            assert(more@.subrange(0, i + 1) =~= more@.subrange(0, i as int).push(more@[i as int]));
            assert(before + more@.subrange(0, i + 1) =~= (before + more@.subrange(
                0,
                i as int,
            )).push(more@[i as int]));
        }
        i += 1;
    }
    proof {
        assert(more@.subrange(0, more.len() as int) =~= more@);
    }
}

/// Whether `condition` holds of a node that can be reached from `starter`:
/// of a neighbour of `starter`, or of a neighbour of one, and so on. The
/// search takes the node that was found last first, and asks `condition` of
/// no node twice. `starter` must have its list of neighbours in `source`,
/// and `condition` must take every node that can be reached.
pub fn breadth_search_generic<F: Fn(&u64) -> bool>(
    source: &HashMap<u64, Vec<u64>>,
    starter: &u64,
    condition: F,
) -> (found: bool)
    requires
        source@.contains_key(*starter),
        forall|x: u64| #[trigger] reachable(source@, *starter, x) ==> condition.requires((&x,)),
    ensures
        found ==> exists|x: u64| #[trigger]
            reachable(source@, *starter, x) && condition.ensures((&x,), true),
        !found ==> forall|x: u64| #[trigger]
            reachable(source@, *starter, x) ==> condition.ensures((&x,), false),
{
    let ghost graph = source@;
    let ghost first = *starter;
    let mut search_queue: Vec<u64> = Vec::new();
    put_all(&mut search_queue, source.get(starter).unwrap());
    let mut searched: Vec<u64> = Vec::new();
    proof {
        assert(search_queue@ =~= graph[first]@);
        assert forall|x: u64| search_queue@.contains(x) implies reachable(graph, first, x) by {
            lemma_reach_on(graph, first, first, x);
        }
    }

    loop
        invariant
            graph == source@,
            first == *starter,
            forall|x: u64| #[trigger] reachable(graph, first, x) ==> condition.requires((&x,)),
            forall|x: u64| #[trigger] search_queue@.contains(x) ==> reachable(graph, first, x),
            forall|x: u64| #[trigger] searched@.contains(x) ==> reachable(graph, first, x),
            forall|x: u64|
                #[trigger] edge(graph, first, x) ==> searched@.contains(x)
                    || search_queue@.contains(x),
            forall|s: u64, t: u64|
                searched@.contains(s) && #[trigger] edge(graph, s, t) ==> searched@.contains(t)
                    || search_queue@.contains(t),
            forall|x: u64| #[trigger] searched@.contains(x) ==> condition.ensures((&x,), false),
            searched@.no_duplicates(),
        decreases 0x1_0000_0000_0000_0000 - searched.len(), search_queue.len(),
    {
        proof {
            lemma_no_more_than_all(searched@);
        }
        if search_queue.len() <= 0 {
            proof {
                lemma_nothing_left(graph, first, searched@, search_queue@);
            }
            return false;
        }
        let ghost queue0 = search_queue@;
        let ghost searched0 = searched@;

        let person = search_queue.pop().unwrap();
        proof {
            assert(queue0 =~= search_queue@.push(person));
            lemma_holds_after_push(search_queue@, person);
        }

        if holds(&searched, person) {
            continue;
        }
        if condition(&person) {
            return true;
        }
        let ghost queue1 = search_queue@;
        if let Some(friends) = source.get(&person) {
            put_all(&mut search_queue, friends);
            proof {
                lemma_holds_after_join(queue1, friends@);
                assert forall|x: u64| friends@.contains(x) implies reachable(graph, first, x) by {
                    lemma_reach_on(graph, first, person, x);
                }
            }
        }
        searched.push(person);
        proof {
            lemma_holds_after_push(searched0, person);
        }
    }
}

/// As `breadth_search_generic`, with a starter and a condition that take a
/// node itself.
pub fn breadth_search<F: Fn(u64) -> bool>(
    source: &HashMap<u64, Vec<u64>>,
    starter: u64,
    condition: F,
) -> (found: bool)
    requires
        source@.contains_key(starter),
        forall|x: u64| #[trigger] reachable(source@, starter, x) ==> condition.requires((x,)),
    ensures
        found ==> exists|x: u64| #[trigger]
            reachable(source@, starter, x) && condition.ensures((x,), true),
        !found ==> forall|x: u64| #[trigger]
            reachable(source@, starter, x) ==> condition.ensures((x,), false),
{
    let asked = &condition;
    let by_reference = |x: &u64| -> (b: bool)
        requires
            asked.requires((*x,)),
        ensures
            asked.ensures((*x,), b),
        { asked(*x) };
    breadth_search_generic(source, &starter, by_reference)
}

/// As `breadth_search_generic`: the search over a graph that owns its
/// nodes.
pub fn breadth_search_new<F: Fn(&u64) -> bool>(
    source: &HashMap<u64, Vec<u64>>,
    starter: &u64,
    condition: F,
) -> (found: bool)
    requires
        source@.contains_key(*starter),
        forall|x: u64| #[trigger] reachable(source@, *starter, x) ==> condition.requires((&x,)),
    ensures
        found ==> exists|x: u64| #[trigger]
            reachable(source@, *starter, x) && condition.ensures((&x,), true),
        !found ==> forall|x: u64| #[trigger]
            reachable(source@, *starter, x) ==> condition.ensures((&x,), false),
{
    breadth_search_generic(source, starter, condition)
}

/// Where the queue is empty and the nodes that were looked at hold the
/// neighbours of `starter` and of one another, they are all that can be
/// reached.
proof fn lemma_nothing_left(graph: Map<u64, Vec<u64>>, starter: u64, searched: Seq<u64>, queue: Seq<u64>)
    requires
        queue.len() == 0,
        forall|x: u64| #[trigger] edge(graph, starter, x) ==> searched.contains(x) || queue.contains(x),
        forall|s: u64, t: u64|
            searched.contains(s) && #[trigger] edge(graph, s, t) ==> searched.contains(t)
                || queue.contains(t),
    ensures
        forall|x: u64| #[trigger] reachable(graph, starter, x) ==> searched.contains(x),
{
    assert forall|x: u64| #[trigger] reachable(graph, starter, x) implies searched.contains(x) by {
        let way = choose|way: Seq<u64>| is_way(graph, starter, x, way);
        assert forall|s: u64, t: u64|
            searched.contains(s) && #[trigger] edge(graph, s, t) implies searched.contains(t) by {
            assert(!queue.contains(t));
        }
        assert forall|t: u64| #[trigger] edge(graph, starter, t) implies searched.contains(t) by {
            assert(!queue.contains(t));
        }
        lemma_closed(graph, searched, starter, way, way.len() - 1);
    }
}

/// What a list holds once a node was put at its end: that node and what it
/// held before; and no node twice, if it held none twice and not that one.
proof fn lemma_holds_after_push(list: Seq<u64>, node: u64)
    ensures
        forall|x: u64| #[trigger] list.push(node).contains(x) <==> x == node || list.contains(x),
        forall|x: u64| #[trigger] list.contains(x) ==> list.push(node).contains(x),
        list.push(node).contains(node),
        list.no_duplicates() && !list.contains(node) ==> list.push(node).no_duplicates(),
{
    let longer = list.push(node);
    assert(longer[list.len() as int] == node);
    assert forall|x: u64| #[trigger] longer.contains(x) <==> x == node || list.contains(x) by {
        if longer.contains(x) {
            let i = choose|i: int| 0 <= i < longer.len() && longer[i] == x;
            if i < list.len() {
                assert(list[i] == x);
            }
        }
        if list.contains(x) {
            let i = choose|i: int| 0 <= i < list.len() && list[i] == x;
            assert(longer[i] == x);
        }
    }
    if list.no_duplicates() && !list.contains(node) {
        assert forall|i: int, j: int|
            0 <= i < longer.len() && 0 <= j < longer.len() && i != j implies longer[i]
            != longer[j] by {
            if i < list.len() && j < list.len() {
                assert(list[i] != list[j]);
            } else if i < list.len() {
                assert(list.contains(list[i]));
            } else {
                assert(list.contains(list[j]));
            }
        }
    }
}

/// What two lists hold when the one is put behind the other: what either
/// holds.
proof fn lemma_holds_after_join(a: Seq<u64>, b: Seq<u64>)
    ensures
        forall|x: u64| #[trigger] (a + b).contains(x) <==> a.contains(x) || b.contains(x),
        forall|x: u64| #[trigger] a.contains(x) ==> (a + b).contains(x),
        forall|x: u64| #[trigger] b.contains(x) ==> (a + b).contains(x),
{
    let s = a + b;
    assert forall|x: u64| #[trigger] s.contains(x) <==> a.contains(x) || b.contains(x) by {
        if s.contains(x) {
            let i = choose|i: int| 0 <= i < s.len() && s[i] == x;
            if i < a.len() {
                assert(a[i] == x);
            } else {
                assert(b[i - a.len()] == x);
            }
        }
        if a.contains(x) {
            let i = choose|i: int| 0 <= i < a.len() && a[i] == x;
            assert(s[i] == x);
        }
        if b.contains(x) {
            let i = choose|i: int| 0 <= i < b.len() && b[i] == x;
            assert(s[a.len() + i] == x);
        }
    }
}

} // verus!
