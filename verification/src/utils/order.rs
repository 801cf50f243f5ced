use core::cmp::Ordering;
use vstd::prelude::*;
use vstd::std_specs::cmp::{PartialEqSpec, PartialOrdSpec};

verus! {

/// `a` comes strictly before `b` in the order that `PartialOrd` gives `T`.
pub open spec fn lt<T: PartialOrd>(a: T, b: T) -> bool {
    a.partial_cmp_spec(&b) == Some(Ordering::Less)
}

/// `a` comes before `b` or is `b`.
pub open spec fn le<T: PartialOrd>(a: T, b: T) -> bool {
    lt(a, b) || a == b
}

/// The comparison operators of `T` compute a strict total order, and `==`
/// on `T` is equality of values.
#[verifier::opaque]
pub open spec fn total_order<T: PartialOrd>() -> bool {
    &&& T::obeys_eq_spec()
    &&& T::obeys_partial_cmp_spec()
    &&& forall|a: T, b: T| #[trigger] a.eq_spec(&b) <==> a == b
    &&& forall|a: T, b: T| (#[trigger] a.partial_cmp_spec(&b)) is Some
    &&& forall|a: T, b: T| (#[trigger] a.partial_cmp_spec(&b)) == Some(Ordering::Equal) <==> a == b
    &&& forall|a: T, b: T|
        (#[trigger] a.partial_cmp_spec(&b)) == Some(Ordering::Greater) <==> lt(b, a)
    &&& forall|a: T, b: T, c: T| #[trigger] lt(a, b) && #[trigger] lt(b, c) ==> lt(a, c)
}

/// `clone` on `T` returns a value equal to the one it was called on.
#[verifier::opaque]
pub open spec fn faithful_clone<T: Clone>() -> bool {
    forall|a: T, b: T| #[trigger] cloned::<T>(a, b) ==> a == b
}

/// What the trees and sorts of this crate ask of a key type.
pub open spec fn key_type<T: PartialOrd + Clone>() -> bool {
    total_order::<T>() && faithful_clone::<T>()
}

/// No value comes before itself.
pub proof fn lemma_lt_irreflexive<T: PartialOrd>(a: T)
    requires
        total_order::<T>(),
    ensures
        !lt(a, a),
{
    reveal(total_order);
}

/// Of two values only one comes before the other, and they differ.
pub proof fn lemma_lt_asymmetric<T: PartialOrd>(a: T, b: T)
    requires
        total_order::<T>(),
        lt(a, b),
    ensures
        !lt(b, a),
        a != b,
{
    reveal(total_order);
}

/// What comes before a value comes before all that it comes before.
pub proof fn lemma_lt_transitive<T: PartialOrd>(a: T, b: T, c: T)
    requires
        total_order::<T>(),
        lt(a, b),
        lt(b, c),
    ensures
        lt(a, c),
{
    reveal(total_order);
}

/// Of two values that differ one comes before the other.
pub proof fn lemma_trichotomy<T: PartialOrd>(a: T, b: T)
    requires
        total_order::<T>(),
    ensures
        lt(a, b) || a == b || lt(b, a),
{
    reveal(total_order);
    match a.partial_cmp_spec(&b) {
        Some(Ordering::Less) => {},
        Some(Ordering::Equal) => {},
        Some(Ordering::Greater) => {},
        None => {},
    }
}

/// All the consequences of `total_order` that the proofs of this crate use,
/// quantified over the values of `T`.
pub proof fn lemma_order_laws<T: PartialOrd>()
    requires
        total_order::<T>(),
    ensures
        forall|a: T, b: T| #[trigger] lt(a, b) ==> !lt(b, a) && a != b,
        forall|a: T, b: T| !(#[trigger] lt(a, b)) ==> le(b, a),
        forall|a: T, b: T| #[trigger] le(a, b) <==> !lt(b, a),
        forall|a: T, b: T, c: T| #[trigger] lt(a, b) && #[trigger] lt(b, c) ==> lt(a, c),
        forall|a: T, b: T, c: T| #[trigger] le(a, b) && #[trigger] lt(b, c) ==> lt(a, c),
        forall|a: T, b: T, c: T| #[trigger] lt(a, b) && #[trigger] le(b, c) ==> lt(a, c),
        forall|a: T, b: T, c: T| #[trigger] le(a, b) && #[trigger] le(b, c) ==> le(a, c),
{
    assert forall|a: T, b: T| #[trigger] lt(a, b) implies !lt(b, a) && a != b by {
        lemma_lt_asymmetric(a, b);
    }
    assert forall|a: T, b: T| !(#[trigger] lt(a, b)) implies le(b, a) by {
        lemma_trichotomy(a, b);
    }
    assert forall|a: T, b: T| #[trigger] le(a, b) <==> !lt(b, a) by {
        lemma_trichotomy(a, b);
        lemma_lt_irreflexive(a);
        if lt(a, b) {
            lemma_lt_asymmetric(a, b);
        }
    }
    assert forall|a: T, b: T, c: T| #[trigger] lt(a, b) && #[trigger] lt(b, c) implies lt(
        a,
        c,
    ) by {
        lemma_lt_transitive(a, b, c);
    }
    assert forall|a: T, b: T, c: T| #[trigger] le(a, b) && #[trigger] lt(b, c) implies lt(
        a,
        c,
    ) by {
        if a != b {
            lemma_lt_transitive(a, b, c);
        }
    }
    assert forall|a: T, b: T, c: T| #[trigger] lt(a, b) && #[trigger] le(b, c) implies lt(
        a,
        c,
    ) by {
        if b != c {
            lemma_lt_transitive(a, b, c);
        }
    }
    assert forall|a: T, b: T, c: T| #[trigger] le(a, b) && #[trigger] le(b, c) implies le(
        a,
        c,
    ) by {
        if a != b && b != c {
            lemma_lt_transitive(a, b, c);
        }
    }
}

/// `*a < *b`, as a function with a contract over `lt`.
pub(crate) fn less<T: PartialOrd>(a: &T, b: &T) -> (r: bool)
    requires
        total_order::<T>(),
    ensures
        r == lt(*a, *b),
{
    proof {
        reveal(total_order);
    }
    *a < *b
}

/// `*a > *b`, as a function with a contract over `lt`.
pub(crate) fn greater<T: PartialOrd>(a: &T, b: &T) -> (r: bool)
    requires
        total_order::<T>(),
    ensures
        r == lt(*b, *a),
{
    proof {
        reveal(total_order);
    }
    *a > *b
}

/// `*a == *b`, as a function with a contract.
pub(crate) fn same<T: PartialOrd>(a: &T, b: &T) -> (r: bool)
    requires
        total_order::<T>(),
    ensures
        r == (*a == *b),
{
    proof {
        reveal(total_order);
    }
    *a == *b
}

/// `a.clone()`, as a function with a contract.
pub(crate) fn duplicate<T: Clone>(a: &T) -> (r: T)
    requires
        faithful_clone::<T>(),
    ensures
        r == *a,
{
    let r = a.clone();
    proof {
        reveal(faithful_clone);
        assert(cloned::<T>(*a, r));
    }
    r
}

/// `u8` is a key type.
pub proof fn lemma_key_type_u8()
    ensures
        key_type::<u8>(),
{
    reveal(total_order);
    reveal(faithful_clone);
}

/// `u16` is a key type.
pub proof fn lemma_key_type_u16()
    ensures
        key_type::<u16>(),
{
    reveal(total_order);
    reveal(faithful_clone);
}

/// `u32` is a key type.
pub proof fn lemma_key_type_u32()
    ensures
        key_type::<u32>(),
{
    reveal(total_order);
    reveal(faithful_clone);
}

/// `u64` is a key type.
pub proof fn lemma_key_type_u64()
    ensures
        key_type::<u64>(),
{
    reveal(total_order);
    reveal(faithful_clone);
}

/// `u128` is a key type.
pub proof fn lemma_key_type_u128()
    ensures
        key_type::<u128>(),
{
    reveal(total_order);
    reveal(faithful_clone);
}

/// `usize` is a key type.
pub proof fn lemma_key_type_usize()
    ensures
        key_type::<usize>(),
{
    reveal(total_order);
    reveal(faithful_clone);
}

/// `i8` is a key type.
pub proof fn lemma_key_type_i8()
    ensures
        key_type::<i8>(),
{
    reveal(total_order);
    reveal(faithful_clone);
}

/// `i16` is a key type.
pub proof fn lemma_key_type_i16()
    ensures
        key_type::<i16>(),
{
    reveal(total_order);
    reveal(faithful_clone);
}

/// `i32` is a key type.
pub proof fn lemma_key_type_i32()
    ensures
        key_type::<i32>(),
{
    reveal(total_order);
    reveal(faithful_clone);
}

/// `i64` is a key type.
pub proof fn lemma_key_type_i64()
    ensures
        key_type::<i64>(),
{
    reveal(total_order);
    reveal(faithful_clone);
}

/// `i128` is a key type.
pub proof fn lemma_key_type_i128()
    ensures
        key_type::<i128>(),
{
    reveal(total_order);
    reveal(faithful_clone);
}

/// `isize` is a key type.
pub proof fn lemma_key_type_isize()
    ensures
        key_type::<isize>(),
{
    reveal(total_order);
    reveal(faithful_clone);
}

} // verus!
