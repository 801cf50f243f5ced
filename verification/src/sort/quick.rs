use crate::utils::order::{le, lemma_order_laws, less, lt, total_order};
use crate::utils::sorted::{lemma_sorted_join, sorted};
use vstd::prelude::*;
use vstd::seq_lib::lemma_multiset_commutative;

verus! {

/// Every key that `b` holds is one that `a` holds.
proof fn lemma_same_keys<T>(a: Seq<T>, b: Seq<T>)
    requires
        a.to_multiset() == b.to_multiset(),
    ensures
        forall|i: int| 0 <= i < b.len() ==> a.contains(#[trigger] b[i]),
{
    a.to_multiset_ensures();
    b.to_multiset_ensures();
    assert forall|i: int| 0 <= i < b.len() implies a.contains(#[trigger] b[i]) by {
        assert(b.contains(b[i]));
        assert(b.to_multiset().count(b[i]) > 0);
    }
}

/// Sorts `source`: afterwards it holds the keys it held before, each as often
/// as before, and none of them comes before an earlier one.
pub fn quick_sort<T: PartialEq + PartialOrd>(source: &mut Vec<T>)
    requires
        total_order::<T>(),
    ensures
        sorted(final(source)@),
        final(source)@.to_multiset() == old(source)@.to_multiset(),
    decreases old(source).len(),
{
    if source.len() <= 1 {
        return;
    }
    let ghost s0 = source@;

    let base = source.pop().unwrap();
    let ghost s1 = source@;
    proof {
        assert(s0 =~= s1.push(base));
        s1.to_multiset_ensures();
    }

    let mut less_items: Vec<T> = Vec::new();
    let mut greater: Vec<T> = Vec::new();
    proof {
        assert(s1 + less_items@ + greater@ =~= s1);
    }
    loop
        invariant
            total_order::<T>(),
            (source@ + less_items@ + greater@).to_multiset() == s1.to_multiset(),
            source.len() + less_items.len() + greater.len() == s1.len(),
            forall|i: int| 0 <= i < less_items.len() ==> lt(#[trigger] less_items@[i], base),
            forall|i: int| 0 <= i < greater.len() ==> le(base, #[trigger] greater@[i]),
        ensures
            source.len() == 0,
        decreases source.len(),
    {
        if source.len() <= 0 {
            break;
        }
        let ghost src = source@;
        let ghost ls = less_items@;
        let ghost gs = greater@;

        let v = source.pop().unwrap();
        proof {
            lemma_order_laws::<T>();
            let rest = source@;
            assert(src =~= rest.push(v));
            lemma_multiset_commutative(src, ls);
            lemma_multiset_commutative(src + ls, gs);
            lemma_multiset_commutative(rest, ls.push(v));
            lemma_multiset_commutative(rest + ls.push(v), gs);
            lemma_multiset_commutative(rest, ls);
            lemma_multiset_commutative(rest + ls, gs.push(v));
            rest.to_multiset_ensures();
            ls.to_multiset_ensures();
            gs.to_multiset_ensures();
            assert((rest + ls.push(v) + gs).to_multiset() =~= (src + ls + gs).to_multiset());
            assert((rest + ls + gs.push(v)).to_multiset() =~= (src + ls + gs).to_multiset());
        }
        if less(&v, &base) {
            less_items.push(v);
        } else {
            greater.push(v);
        }
    }
    let ghost ls = less_items@;
    let ghost gs = greater@;

    let mut sort_array: Vec<T> = Vec::new();
    quick_sort(&mut less_items);
    quick_sort(&mut greater);
    proof {
        lemma_order_laws::<T>();
        lemma_same_keys(ls, less_items@);
        lemma_same_keys(gs, greater@);
        assert forall|i: int| 0 <= i < less_items.len() implies le(
            #[trigger] less_items@[i],
            base,
        ) by {
            let x = less_items@[i];
            let j = choose|j: int| 0 <= j < ls.len() && ls[j] == x;
            assert(lt(ls[j], base));
        }
        assert forall|i: int| 0 <= i < greater.len() implies le(base, #[trigger] greater@[i]) by {
            let x = greater@[i];
            let j = choose|j: int| 0 <= j < gs.len() && gs[j] == x;
            assert(le(base, gs[j]));
        }
        lemma_sorted_join(less_items@, base, greater@);
        let res = less_items@ + seq![base] + greater@;
        assert(source@ + ls + gs =~= ls + gs);
        lemma_multiset_commutative(ls, gs);
        lemma_multiset_commutative(less_items@, seq![base]);
        lemma_multiset_commutative(less_items@ + seq![base], greater@);
        seq![base].to_multiset_ensures();
        assert(Seq::<T>::empty().push(base) =~= seq![base]);
        Seq::<T>::empty().to_multiset_ensures();
        assert(res.to_multiset() =~= s0.to_multiset());
        assert(Seq::<T>::empty() + less_items@ =~= less_items@);
        assert((less_items@).push(base) =~= less_items@ + seq![base]);
    }
    sort_array.append(&mut less_items);
    sort_array.push(base);
    sort_array.append(&mut greater);

    let ghost res = sort_array@;

    source.clear();
    source.append(&mut sort_array);
    proof {
        assert(source@ =~= res);
    }
}

} // verus!
