use vstd::prelude::*;

verus! {

/// The keys that a vector of key references points to.
pub open spec fn keys_of<T>(refs: Seq<&T>) -> Seq<T> {
    refs.map_values(|k: &T| *k)
}

/// The reverse of two sequences joined is the two reverses, joined the other
/// way round.
pub proof fn lemma_reverse_join<T>(a: Seq<T>, b: Seq<T>)
    ensures
        (a + b).reverse() =~= b.reverse() + a.reverse(),
{
}

/// A new vector with the items of `v` from the last to the first.
pub(crate) fn reversed<'a, T>(v: &Vec<&'a T>) -> (res: Vec<&'a T>)
    ensures
        res@ =~= v@.reverse(),
        keys_of(res@) =~= keys_of(v@).reverse(),
{
    let mut res: Vec<&'a T> = Vec::new();
    let mut i: usize = v.len();
    while i > 0
        invariant
            i <= v.len(),
            res.len() == v.len() - i,
            forall|j: int| 0 <= j < res.len() ==> res@[j] == v@[v.len() - 1 - j],
        decreases i,
    {
        i -= 1;
        res.push(v[i]);
    }
    res
}

} // verus!
