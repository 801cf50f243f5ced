use crate::utils::order::{greater, lemma_order_laws, less, lt, total_order};
use crate::utils::sorted::sorted;
use vstd::prelude::*;

verus! {

/// Whether the sorted `source` holds `target`. The search halves the range
/// in which the key may stand; it cannot leave the vector at its front, so
/// the key must not come before the first one.
pub fn binary_search<T: PartialOrd + PartialEq>(source: &Vec<T>, target: &T) -> (found: bool)
    requires
        total_order::<T>(),
        sorted(source@),
        source.len() > 0,
        !lt(*target, source@[0]),
    ensures
        found == source@.contains(*target),
{
    let mut lo: usize = 0;
    let mut hi: usize = source.len() - 1;

    while lo <= hi
        invariant
            total_order::<T>(),
            sorted(source@),
            source.len() > 0,
            !lt(*target, source@[0]),
            lo <= source.len(),
            hi < source.len(),
            forall|j: int| 0 <= j < lo ==> lt(#[trigger] source@[j], *target),
            forall|j: int| hi < j < source.len() ==> lt(*target, #[trigger] source@[j]),
        decreases hi + 1 - lo,
    {
        let mid = lo + (hi - lo) / 2;
        proof {
            lemma_order_laws::<T>();
        }
        if less(target, &source[mid]) {
            assert(mid > 0);
            hi = mid - 1;
        } else if greater(target, &source[mid]) {
            lo = mid + 1;
        } else {
            assert(source@[mid as int] == *target);
            return true
        }
    }
    proof {
        lemma_order_laws::<T>();
        if source@.contains(*target) {
            let j = choose|j: int| 0 <= j < source.len() && source@[j] == *target;
            assert(lt(source@[j], *target) || lt(*target, source@[j]));
        }
    }

    false
}

} // verus!
