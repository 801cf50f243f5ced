use crate::utils::order::{le, lemma_order_laws, less, lt, total_order};
use crate::utils::sorted::sorted;
use vstd::prelude::*;
use vstd::seq_lib::lemma_multiset_commutative;

verus! {

type Index = usize;

/// Sorts `source` by taking its smallest key out again and again: afterwards
/// it holds the keys it held before, each as often as before, and none of
/// them comes before an earlier one.
pub fn selection_sort<T: PartialEq + PartialOrd>(source: &mut Vec<T>)
    requires
        total_order::<T>(),
    ensures
        sorted(final(source)@),
        final(source)@.to_multiset() == old(source)@.to_multiset(),
{
    let ghost s0 = source@;
    let mut sorted_array: Vec<T> = Vec::new();
    proof {
        assert(sorted_array@ + source@ =~= s0);
    }
    loop
        invariant
            total_order::<T>(),
            sorted(sorted_array@),
            (sorted_array@ + source@).to_multiset() == s0.to_multiset(),
            forall|i: int, j: int|
                0 <= i < sorted_array.len() && 0 <= j < source.len() ==> le(
                    #[trigger] sorted_array@[i],
                    #[trigger] source@[j],
                ),
        ensures
            source.len() == 0,
        decreases source.len(),
    {
        if source.len() <= 0 {
            break;
        }
        let ghost done = sorted_array@;
        let ghost rest = source@;

        let smallest = find_smallest(source);
        let key = source.remove(smallest);
        sorted_array.push(key);
        proof {
            lemma_order_laws::<T>();
            let i = smallest as int;
            rest.to_multiset_ensures();
            rest.remove(i).to_multiset_ensures();
            done.to_multiset_ensures();
            lemma_multiset_commutative(done, rest);
            lemma_multiset_commutative(done.push(key), rest.remove(i));
            assert((done.push(key) + rest.remove(i)).to_multiset() =~= (done
                + rest).to_multiset());
            assert forall|a: int, b: int|
                0 <= a < sorted_array.len() && 0 <= b < source.len() implies le(
                #[trigger] sorted_array@[a],
                #[trigger] source@[b],
            ) by {
                let b0 = if b < i {
                    b
                } else {
                    b + 1
                };
                assert(source@[b] == rest[b0]);
                if a < done.len() {
                    assert(sorted_array@[a] == done[a]);
                }
            }
            assert forall|a: int, b: int| 0 <= a < b < sorted_array.len() implies le(
                #[trigger] sorted_array@[a],
                #[trigger] sorted_array@[b],
            ) by {
                if b < done.len() {
                    assert(sorted_array@[a] == done[a] && sorted_array@[b] == done[b]);
                } else {
                    assert(sorted_array@[a] == done[a]);
                    assert(le(done[a], rest[i]));
                }
            }
        }
    }
    let ghost res = sorted_array@;
    proof {
        assert(res + source@ =~= res);
    }
    source.append(&mut sorted_array);
    proof {
        assert(source@ =~= res);
    }
}

/// The place of the first of the smallest keys of `source`.
fn find_smallest<T: PartialEq + PartialOrd>(source: &Vec<T>) -> (index: Index)
    requires
        total_order::<T>(),
        source.len() > 0,
    ensures
        index < source.len(),
        forall|j: int| 0 <= j < source.len() ==> le(source@[index as int], #[trigger] source@[j]),
        forall|j: int| 0 <= j < index ==> lt(source@[index as int], #[trigger] source@[j]),
{
    let mut smallest = &source[0];
    let mut index: Index = 0;

    let mut i: usize = 0;
    while i < source.len()
        invariant
            total_order::<T>(),
            i <= source.len(),
            index < source.len(),
            index <= i,
            *smallest == source@[index as int],
            forall|j: int| 0 <= j < i ==> le(source@[index as int], #[trigger] source@[j]),
            forall|j: int| 0 <= j < index ==> lt(source@[index as int], #[trigger] source@[j]),
        decreases source.len() - i,
    {
        let v = &source[i];
        proof {
            lemma_order_laws::<T>();
        }
        if less(v, smallest) {
            smallest = v;
            index = i;
        }
        i += 1;
    }

    index
}

} // verus!
