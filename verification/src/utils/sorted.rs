use crate::utils::order::{le, lemma_order_laws, lt, total_order};
use vstd::prelude::*;

verus! {

/// No element of `s` comes strictly before an earlier one.
pub open spec fn sorted<T: PartialOrd>(s: Seq<T>) -> bool {
    forall|i: int, j: int| 0 <= i < j < s.len() ==> le(#[trigger] s[i], #[trigger] s[j])
}

/// Every element of `s` comes strictly before the later ones.
pub open spec fn strictly_sorted<T: PartialOrd>(s: Seq<T>) -> bool {
    forall|i: int, j: int| 0 <= i < j < s.len() ==> lt(#[trigger] s[i], #[trigger] s[j])
}

/// The length of the longest prefix of `s` that holds no element above `v`.
/// In a sorted `s` this is where `v` goes so that it follows its equals.
pub open spec fn upper_bound<T: PartialOrd>(s: Seq<T>, v: T) -> int
    decreases s.len(),
{
    if s.len() == 0 || lt(v, s[0]) {
        0
    } else {
        1 + upper_bound(s.drop_first(), v)
    }
}

/// `s` with `v` put in behind the elements that are not above it.
pub open spec fn insert_sorted<T: PartialOrd>(s: Seq<T>, v: T) -> Seq<T> {
    s.insert(upper_bound(s, v), v)
}

/// `s` with `v` put in unless `s` holds it.
pub open spec fn insert_new<T: PartialOrd>(s: Seq<T>, v: T) -> Seq<T> {
    if s.contains(v) {
        s
    } else {
        insert_sorted(s, v)
    }
}

/// The keys of `xs`, put one after another into an empty sorted sequence,
/// each but those that the sequence holds by then.
pub open spec fn insert_all_new<T: PartialOrd>(xs: Seq<T>) -> Seq<T>
    decreases xs.len(),
{
    if xs.len() == 0 {
        Seq::empty()
    } else {
        insert_new(insert_all_new(xs.drop_last()), xs.last())
    }
}

/// The keys of `xs`, put one after another into an empty sorted sequence.
pub open spec fn insert_all<T: PartialOrd>(xs: Seq<T>) -> Seq<T>
    decreases xs.len(),
{
    if xs.len() == 0 {
        Seq::empty()
    } else {
        insert_sorted(insert_all(xs.drop_last()), xs.last())
    }
}

/// Where `upper_bound` points: nothing before that place is above `v`, and
/// the key at that place, if there is one, is.
pub proof fn lemma_upper_bound_bounds<T: PartialOrd>(s: Seq<T>, v: T)
    ensures
        0 <= upper_bound(s, v) <= s.len(),
        forall|i: int| 0 <= i < upper_bound(s, v) ==> !lt(v, #[trigger] s[i]),
        upper_bound(s, v) < s.len() ==> lt(v, s[upper_bound(s, v)]),
    decreases s.len(),
{
    if s.len() == 0 || lt(v, s[0]) {
    } else {
        let t = s.drop_first();
        lemma_upper_bound_bounds(t, v);
        assert forall|i: int| 0 <= i < upper_bound(s, v) implies !lt(v, #[trigger] s[i]) by {
            if i > 0 {
                assert(s[i] == t[i - 1]);
            }
        }
        if upper_bound(s, v) < s.len() {
            assert(s[upper_bound(s, v)] == t[upper_bound(t, v)]);
        }
    }
}

/// The place that `upper_bound` finds is the only one with nothing above `v`
/// before it and an element above `v` at it.
pub proof fn lemma_upper_bound_is<T: PartialOrd>(s: Seq<T>, v: T, p: int)
    requires
        0 <= p <= s.len(),
        forall|i: int| 0 <= i < p ==> !lt(v, #[trigger] s[i]),
        p < s.len() ==> lt(v, s[p]),
    ensures
        upper_bound(s, v) == p,
    decreases s.len(),
{
    if s.len() == 0 {
    } else if p == 0 {
    } else {
        let t = s.drop_first();
        assert(!lt(v, s[0]));
        assert forall|i: int| 0 <= i < p - 1 implies !lt(v, #[trigger] t[i]) by {
            assert(t[i] == s[i + 1]);
        }
        lemma_upper_bound_is(t, v, p - 1);
    }
}

/// The parts of a sorted sequence around one of its keys: both are sorted,
/// the one holds nothing above `k`, the other nothing before it.
pub proof fn lemma_sorted_parts<T: PartialOrd>(a: Seq<T>, k: T, b: Seq<T>)
    requires
        sorted(a + seq![k] + b),
    ensures
        sorted(a),
        sorted(b),
        forall|i: int| 0 <= i < a.len() ==> le(#[trigger] a[i], k),
        forall|i: int| 0 <= i < b.len() ==> le(k, #[trigger] b[i]),
{
    let s = a + seq![k] + b;
    assert(s[a.len() as int] == k);
    assert forall|i: int, j: int| 0 <= i < j < a.len() implies le(
        #[trigger] a[i],
        #[trigger] a[j],
    ) by {
        assert(s[i] == a[i] && s[j] == a[j]);
    }
    assert forall|i: int, j: int| 0 <= i < j < b.len() implies le(
        #[trigger] b[i],
        #[trigger] b[j],
    ) by {
        assert(s[a.len() + 1 + i] == b[i] && s[a.len() + 1 + j] == b[j]);
    }
    assert forall|i: int| 0 <= i < a.len() implies le(#[trigger] a[i], k) by {
        assert(s[i] == a[i]);
    }
    assert forall|i: int| 0 <= i < b.len() implies le(k, #[trigger] b[i]) by {
        assert(s[a.len() + 1 + i] == b[i]);
    }
}

/// Two sorted sequences around a key that lies between them make one
/// sorted sequence.
pub proof fn lemma_sorted_join<T: PartialOrd>(a: Seq<T>, k: T, b: Seq<T>)
    requires
        total_order::<T>(),
        sorted(a),
        sorted(b),
        forall|i: int| 0 <= i < a.len() ==> le(#[trigger] a[i], k),
        forall|i: int| 0 <= i < b.len() ==> le(k, #[trigger] b[i]),
    ensures
        sorted(a + seq![k] + b),
{
    lemma_order_laws::<T>();
    let s = a + seq![k] + b;
    assert forall|i: int, j: int| 0 <= i < j < s.len() implies le(
        #[trigger] s[i],
        #[trigger] s[j],
    ) by {
        if j < a.len() {
            assert(s[i] == a[i] && s[j] == a[j]);
        } else if j == a.len() {
            assert(s[i] == a[i] && s[j] == k);
        } else if i < a.len() {
            assert(s[i] == a[i] && s[j] == b[j - a.len() - 1]);
            assert(le(a[i], k) && le(k, b[j - a.len() - 1]));
        } else if i == a.len() {
            assert(s[i] == k && s[j] == b[j - a.len() - 1]);
        } else {
            assert(s[i] == b[i - a.len() - 1] && s[j] == b[j - a.len() - 1]);
        }
    }
}

/// Where `v` comes before `k`, it goes into the part before `k`.
pub proof fn lemma_insert_sorted_left<T: PartialOrd>(a: Seq<T>, k: T, b: Seq<T>, v: T)
    requires
        lt(v, k),
    ensures
        insert_sorted(a + seq![k] + b, v) =~= insert_sorted(a, v) + seq![k] + b,
{
    let s = a + seq![k] + b;
    let p = upper_bound(a, v);
    lemma_upper_bound_bounds(a, v);
    assert forall|i: int| 0 <= i < p implies !lt(v, #[trigger] s[i]) by {
        assert(s[i] == a[i]);
    }
    if p < a.len() {
        assert(s[p] == a[p]);
    } else {
        assert(s[p] == k);
    }
    lemma_upper_bound_is(s, v, p);
}

/// Where `v` does not come before `k`, and nothing before `k` is above it,
/// `v` goes into the part behind `k`.
pub proof fn lemma_insert_sorted_right<T: PartialOrd>(a: Seq<T>, k: T, b: Seq<T>, v: T)
    requires
        total_order::<T>(),
        !lt(v, k),
        forall|i: int| 0 <= i < a.len() ==> le(#[trigger] a[i], k),
    ensures
        insert_sorted(a + seq![k] + b, v) =~= a + seq![k] + insert_sorted(b, v),
{
    lemma_order_laws::<T>();
    let s = a + seq![k] + b;
    let q = upper_bound(b, v);
    let p = a.len() + 1 + q;
    lemma_upper_bound_bounds(b, v);
    assert forall|i: int| 0 <= i < p implies !lt(v, #[trigger] s[i]) by {
        if i < a.len() {
            assert(s[i] == a[i]);
            assert(le(a[i], k) && le(k, v));
        } else if i == a.len() {
            assert(s[i] == k);
        } else {
            assert(s[i] == b[i - a.len() - 1]);
        }
    }
    if p < s.len() {
        assert(s[p] == b[q]);
    }
    lemma_upper_bound_is(s, v, p);
}

/// To put a key into a sorted sequence leaves it sorted.
pub proof fn lemma_insert_sorted_keeps_sorted<T: PartialOrd>(s: Seq<T>, v: T)
    requires
        total_order::<T>(),
        sorted(s),
    ensures
        sorted(insert_sorted(s, v)),
{
    lemma_order_laws::<T>();
    let p = upper_bound(s, v);
    let t = insert_sorted(s, v);
    lemma_upper_bound_bounds(s, v);
    assert forall|i: int, j: int| 0 <= i < j < t.len() implies le(
        #[trigger] t[i],
        #[trigger] t[j],
    ) by {
        if j < p {
            assert(t[i] == s[i] && t[j] == s[j]);
        } else if j == p {
            assert(t[i] == s[i] && t[j] == v);
        } else if i < p {
            assert(t[i] == s[i] && t[j] == s[j - 1]);
        } else if i == p {
            assert(t[i] == v && t[j] == s[j - 1]);
            assert(le(s[p], s[j - 1]) || p == j - 1);
            assert(lt(v, s[p]));
        } else {
            assert(t[i] == s[i - 1] && t[j] == s[j - 1]);
        }
    }
}

/// A key that is not yet there leaves a strictly sorted sequence strictly
/// sorted.
pub proof fn lemma_insert_sorted_keeps_strict<T: PartialOrd>(s: Seq<T>, v: T)
    requires
        total_order::<T>(),
        strictly_sorted(s),
        !s.contains(v),
    ensures
        strictly_sorted(insert_sorted(s, v)),
{
    lemma_order_laws::<T>();
    let p = upper_bound(s, v);
    let t = insert_sorted(s, v);
    lemma_upper_bound_bounds(s, v);
    assert forall|i: int, j: int| 0 <= i < j < t.len() implies lt(
        #[trigger] t[i],
        #[trigger] t[j],
    ) by {
        if j < p {
            assert(t[i] == s[i] && t[j] == s[j]);
        } else if j == p {
            assert(t[i] == s[i] && t[j] == v);
            assert(s.contains(s[i]));
            assert(s[i] != v);
            assert(le(s[i], v));
        } else if i < p {
            assert(t[i] == s[i] && t[j] == s[j - 1]);
        } else if i == p {
            assert(t[i] == v && t[j] == s[j - 1]);
            assert(lt(s[p], s[j - 1]) || p == j - 1);
            assert(lt(v, s[p]));
        } else {
            assert(t[i] == s[i - 1] && t[j] == s[j - 1]);
        }
    }
}

/// After `v` was put in, the sequence holds `v` and what it held before.
pub proof fn lemma_insert_sorted_contains<T: PartialOrd>(s: Seq<T>, v: T)
    ensures
        insert_sorted(s, v).len() == s.len() + 1,
        forall|x: T| #[trigger] insert_sorted(s, v).contains(x) <==> x == v || s.contains(x),
{
    let p = upper_bound(s, v);
    let t = insert_sorted(s, v);
    lemma_upper_bound_bounds(s, v);
    assert(t[p] == v);
    assert forall|x: T| #[trigger] t.contains(x) <==> x == v || s.contains(x) by {
        if t.contains(x) {
            let i = choose|i: int| 0 <= i < t.len() && t[i] == x;
            if i < p {
                assert(s[i] == x);
            } else if i > p {
                assert(s[i - 1] == x);
            }
        }
        if s.contains(x) {
            let i = choose|i: int| 0 <= i < s.len() && s[i] == x;
            if i < p {
                assert(t[i] == x);
            } else {
                assert(t[i + 1] == x);
            }
        }
    }
}

/// In a sorted sequence equal keys stand together, so to take out any one of
/// them is to take out the first.
pub proof fn lemma_sorted_remove_at<T: PartialOrd>(s: Seq<T>, j: int)
    requires
        total_order::<T>(),
        sorted(s),
        0 <= j < s.len(),
    ensures
        s.remove_value(s[j]) =~= s.remove(j),
        sorted(s.remove(j)),
{
    lemma_order_laws::<T>();
    let v = s[j];
    s.index_of_first_ensures(v);
    assert(s.contains(v));
    let i = s.index_of_first(v).unwrap();
    assert(i <= j);
    assert forall|m: int| i <= m <= j implies s[m] == v by {
        if i < m < j {
            assert(le(s[i], s[m]) && le(s[m], s[j]));
        }
    }
    let a = s.remove(i);
    let b = s.remove(j);
    assert forall|m: int| 0 <= m < a.len() implies a[m] == b[m] by {
        if i <= m < j {
            assert(a[m] == s[m + 1]);
            assert(b[m] == s[m]);
        }
    }
    assert forall|m: int, n: int| 0 <= m < n < b.len() implies le(
        #[trigger] b[m],
        #[trigger] b[n],
    ) by {
        let m2 = if m < j {
            m
        } else {
            m + 1
        };
        let n2 = if n < j {
            n
        } else {
            n + 1
        };
        assert(b[m] == s[m2] && b[n] == s[n2]);
    }
}

/// To take out a key that is not there changes nothing.
pub proof fn lemma_remove_value_absent<T>(s: Seq<T>, v: T)
    requires
        !s.contains(v),
    ensures
        s.remove_value(v) == s,
{
    s.index_of_first_ensures(v);
}

/// A strictly sorted sequence stays one when a key leaves it, and no longer
/// holds that key.
pub proof fn lemma_strict_remove_at<T: PartialOrd>(s: Seq<T>, j: int)
    requires
        total_order::<T>(),
        strictly_sorted(s),
        0 <= j < s.len(),
    ensures
        strictly_sorted(s.remove(j)),
        !s.remove(j).contains(s[j]),
        forall|x: T| x != s[j] ==> (#[trigger] s.remove(j).contains(x) <==> s.contains(x)),
{
    lemma_order_laws::<T>();
    let b = s.remove(j);
    assert forall|m: int, n: int| 0 <= m < n < b.len() implies lt(
        #[trigger] b[m],
        #[trigger] b[n],
    ) by {
        let m2 = if m < j {
            m
        } else {
            m + 1
        };
        let n2 = if n < j {
            n
        } else {
            n + 1
        };
        assert(b[m] == s[m2] && b[n] == s[n2]);
    }
    if b.contains(s[j]) {
        let m = choose|m: int| 0 <= m < b.len() && b[m] == s[j];
        let m2 = if m < j {
            m
        } else {
            m + 1
        };
        assert(b[m] == s[m2]);
        assert(lt(s[m2], s[j]) || lt(s[j], s[m2]));
    }
    assert forall|x: T| x != s[j] implies (#[trigger] b.contains(x) <==> s.contains(x)) by {
        if b.contains(x) {
            let m = choose|m: int| 0 <= m < b.len() && b[m] == x;
            let m2 = if m < j {
                m
            } else {
                m + 1
            };
            assert(s[m2] == x);
        }
        if s.contains(x) {
            let m = choose|m: int| 0 <= m < s.len() && s[m] == x;
            let m2 = if m < j {
                m
            } else {
                m - 1
            };
            assert(b[m2] == x);
        }
    }
}

/// A strictly sorted sequence is sorted.
pub proof fn lemma_strict_is_sorted<T: PartialOrd>(s: Seq<T>)
    requires
        strictly_sorted(s),
    ensures
        sorted(s),
{
}

/// A key of a sorted sequence is in the part before `k`, is `k`, or is in
/// the part behind `k`, as it compares with `k`.
pub proof fn lemma_sorted_sides<T: PartialOrd>(a: Seq<T>, k: T, b: Seq<T>, x: T)
    requires
        total_order::<T>(),
        sorted(a + seq![k] + b),
    ensures
        sorted(a),
        sorted(b),
        (a + seq![k] + b)[a.len() as int] == k,
        (a + seq![k] + b).contains(k),
        lt(x, k) ==> ((a + seq![k] + b).contains(x) <==> a.contains(x)) && !b.contains(x),
        lt(k, x) ==> ((a + seq![k] + b).contains(x) <==> b.contains(x)) && !a.contains(x),
{
    lemma_order_laws::<T>();
    let s = a + seq![k] + b;
    lemma_sorted_parts(a, k, b);
    assert(s[a.len() as int] == k);
    if a.contains(x) {
        let i = choose|i: int| 0 <= i < a.len() && a[i] == x;
        assert(s[i] == x);
        assert(le(a[i], k));
    }
    if b.contains(x) {
        let i = choose|i: int| 0 <= i < b.len() && b[i] == x;
        assert(s[a.len() + 1 + i] == x);
        assert(le(k, b[i]));
    }
    if s.contains(x) {
        let i = choose|i: int| 0 <= i < s.len() && s[i] == x;
        if i < a.len() {
            assert(a[i] == x);
        } else if i > a.len() {
            assert(b[i - a.len() - 1] == x);
        }
    }
}

/// A key before `k` leaves from the part before `k`.
pub proof fn lemma_remove_value_left<T: PartialOrd>(a: Seq<T>, k: T, b: Seq<T>, v: T)
    requires
        total_order::<T>(),
        sorted(a + seq![k] + b),
        lt(v, k),
    ensures
        (a + seq![k] + b).remove_value(v) =~= a.remove_value(v) + seq![k] + b,
        sorted(a.remove_value(v) + seq![k] + b),
{
    let s = a + seq![k] + b;
    lemma_sorted_sides(a, k, b, v);
    a.index_of_first_ensures(v);
    match a.index_of_first(v) {
        Some(i) => {
            assert(s[i] == v);
            lemma_sorted_remove_at(s, i);
            assert(a.remove(i) + seq![k] + b =~= s.remove(i));
        },
        None => {
            lemma_remove_value_absent(s, v);
        },
    }
}

/// A key behind `k` leaves from the part behind `k`.
pub proof fn lemma_remove_value_right<T: PartialOrd>(a: Seq<T>, k: T, b: Seq<T>, v: T)
    requires
        total_order::<T>(),
        sorted(a + seq![k] + b),
        lt(k, v),
    ensures
        (a + seq![k] + b).remove_value(v) =~= a + seq![k] + b.remove_value(v),
        sorted(a + seq![k] + b.remove_value(v)),
{
    let s = a + seq![k] + b;
    lemma_sorted_sides(a, k, b, v);
    b.index_of_first_ensures(v);
    match b.index_of_first(v) {
        Some(i) => {
            assert(s[a.len() + 1 + i] == v);
            lemma_sorted_remove_at(s, a.len() + 1 + i);
            assert(a + seq![k] + b.remove(i) =~= s.remove(a.len() + 1 + i));
        },
        None => {
            lemma_remove_value_absent(s, v);
        },
    }
}

/// When `k` itself leaves, the two parts remain; the first key of the part
/// behind it can take its place.
pub proof fn lemma_remove_value_middle<T: PartialOrd>(a: Seq<T>, k: T, b: Seq<T>)
    requires
        total_order::<T>(),
        sorted(a + seq![k] + b),
    ensures
        (a + seq![k] + b).remove_value(k) =~= a + b,
        sorted(a + b),
        b.len() > 0 ==> b.remove_value(b.first()) =~= b.drop_first() && a + b =~= a + seq![
            b.first(),
        ] + b.drop_first(),
{
    let s = a + seq![k] + b;
    lemma_sorted_parts(a, k, b);
    assert(s[a.len() as int] == k);
    lemma_sorted_remove_at(s, a.len() as int);
    assert(s.remove(a.len() as int) =~= a + b);
    if b.len() > 0 {
        lemma_sorted_remove_at(b, 0);
        assert(b.remove(0) =~= b.drop_first());
    }
}

/// The parts of a strictly sorted sequence around one of its keys: both are
/// strictly sorted, the one holds keys before `k`, the other keys behind it.
pub proof fn lemma_strict_parts<T: PartialOrd>(a: Seq<T>, k: T, b: Seq<T>)
    requires
        strictly_sorted(a + seq![k] + b),
    ensures
        strictly_sorted(a),
        strictly_sorted(b),
        sorted(a + seq![k] + b),
        forall|i: int| 0 <= i < a.len() ==> lt(#[trigger] a[i], k),
        forall|i: int| 0 <= i < b.len() ==> lt(k, #[trigger] b[i]),
        forall|x: T|
            (a + seq![k] + b).contains(x) <==> a.contains(x) || x == k || #[trigger] b.contains(x),
        forall|x: T|
            (a + seq![k] + b).contains(x) <==> #[trigger] a.contains(x) || x == k || b.contains(x),
{
    let s = a + seq![k] + b;
    assert(s[a.len() as int] == k);
    assert forall|i: int, j: int| 0 <= i < j < a.len() implies lt(
        #[trigger] a[i],
        #[trigger] a[j],
    ) by {
        assert(s[i] == a[i] && s[j] == a[j]);
    }
    assert forall|i: int, j: int| 0 <= i < j < b.len() implies lt(
        #[trigger] b[i],
        #[trigger] b[j],
    ) by {
        assert(s[a.len() + 1 + i] == b[i] && s[a.len() + 1 + j] == b[j]);
    }
    assert forall|i: int| 0 <= i < a.len() implies lt(#[trigger] a[i], k) by {
        assert(s[i] == a[i]);
    }
    assert forall|i: int| 0 <= i < b.len() implies lt(k, #[trigger] b[i]) by {
        assert(s[a.len() + 1 + i] == b[i]);
    }
    assert forall|x: T| s.contains(x) <==> a.contains(x) || x == k || b.contains(x) by {
        if a.contains(x) {
            let i = choose|i: int| 0 <= i < a.len() && a[i] == x;
            assert(s[i] == x);
        }
        if b.contains(x) {
            let i = choose|i: int| 0 <= i < b.len() && b[i] == x;
            assert(s[a.len() + 1 + i] == x);
        }
        if s.contains(x) {
            let i = choose|i: int| 0 <= i < s.len() && s[i] == x;
            if i < a.len() {
                assert(a[i] == x);
            } else if i > a.len() {
                assert(b[i - a.len() - 1] == x);
            }
        }
    }
}

/// What is left of a strictly sorted sequence that has lost keys from its
/// front: a strictly sorted sequence of keys that it held, without its
/// first one if it is shorter.
pub proof fn lemma_suffix_strict<T: PartialOrd>(s2: Seq<T>, s: Seq<T>)
    requires
        total_order::<T>(),
        strictly_sorted(s),
        s2.is_suffix_of(s),
    ensures
        strictly_sorted(s2),
        forall|x: T| #[trigger] s2.contains(x) ==> s.contains(x),
        s2.len() < s.len() ==> !s2.contains(s.first()),
{
    lemma_order_laws::<T>();
    let d = s.len() - s2.len();
    assert(s2 =~= s.subrange(d, s.len() as int));
    assert forall|i: int, j: int| 0 <= i < j < s2.len() implies lt(
        #[trigger] s2[i],
        #[trigger] s2[j],
    ) by {
        assert(s2[i] == s[d + i] && s2[j] == s[d + j]);
    }
    assert forall|x: T| #[trigger] s2.contains(x) implies s.contains(x) by {
        let j = choose|j: int| 0 <= j < s2.len() && s2[j] == x;
        assert(s[d + j] == x);
    }
    if s2.len() < s.len() && s2.contains(s.first()) {
        let j = choose|j: int| 0 <= j < s2.len() && s2[j] == s.first();
        assert(s[d + j] == s[0]);
        assert(lt(s[0], s[d + j]));
    }
}

/// What is left of a strictly sorted sequence that has lost keys from its
/// end: a strictly sorted sequence of keys that it held, without its last
/// one if it is shorter.
pub proof fn lemma_prefix_strict<T: PartialOrd>(s2: Seq<T>, s: Seq<T>)
    requires
        total_order::<T>(),
        strictly_sorted(s),
        s2.is_prefix_of(s),
    ensures
        strictly_sorted(s2),
        forall|x: T| #[trigger] s2.contains(x) ==> s.contains(x),
        s2.len() < s.len() ==> !s2.contains(s.last()),
{
    lemma_order_laws::<T>();
    assert(s2 =~= s.subrange(0, s2.len() as int));
    assert forall|i: int, j: int| 0 <= i < j < s2.len() implies lt(
        #[trigger] s2[i],
        #[trigger] s2[j],
    ) by {
        assert(s2[i] == s[i] && s2[j] == s[j]);
    }
    assert forall|x: T| #[trigger] s2.contains(x) implies s.contains(x) by {
        let j = choose|j: int| 0 <= j < s2.len() && s2[j] == x;
        assert(s[j] == x);
    }
    if s2.len() < s.len() && s2.contains(s.last()) {
        let j = choose|j: int| 0 <= j < s2.len() && s2[j] == s.last();
        assert(s[j] == s[s.len() - 1]);
        assert(lt(s[j], s[s.len() - 1]));
    }
}

/// Whatever keys are put in, in whatever order, the sequence is sorted and
/// holds each of them as often as it was put in.
pub proof fn lemma_insert_all_sorts<T: PartialOrd>(xs: Seq<T>)
    requires
        total_order::<T>(),
    ensures
        sorted(insert_all(xs)),
        insert_all(xs).to_multiset() =~= xs.to_multiset(),
        insert_all(xs).len() == xs.len(),
    decreases xs.len(),
{
    if xs.len() == 0 {
        assert(xs =~= Seq::<T>::empty());
    } else {
        let front = xs.drop_last();
        let s = insert_all(front);
        lemma_insert_all_sorts(front);
        lemma_insert_sorted_keeps_sorted(s, xs.last());
        lemma_upper_bound_bounds(s, xs.last());
        vstd::seq_lib::to_multiset_insert(s, upper_bound(s, xs.last()), xs.last());
        front.to_multiset_ensures();
        assert(xs =~= front.push(xs.last()));
    }
}

/// Whatever keys are put in, in whatever order, each but those that are
/// there by then, the sequence is strictly sorted, and it holds exactly the
/// keys that were put in.
pub proof fn lemma_insert_all_new_strict<T: PartialOrd>(xs: Seq<T>)
    requires
        total_order::<T>(),
    ensures
        strictly_sorted(insert_all_new(xs)),
        forall|x: T| #[trigger] insert_all_new(xs).contains(x) <==> xs.contains(x),
    decreases xs.len(),
{
    if xs.len() == 0 {
    } else {
        let front = xs.drop_last();
        let s = insert_all_new(front);
        let v = xs.last();
        lemma_insert_all_new_strict(front);
        if !s.contains(v) {
            lemma_insert_sorted_keeps_strict(s, v);
        }
        lemma_insert_sorted_contains(s, v);
        assert forall|x: T| #[trigger] insert_all_new(xs).contains(x) <==> xs.contains(x) by {
            if xs.contains(x) {
                let i = choose|i: int| 0 <= i < xs.len() && xs[i] == x;
                if i < front.len() {
                    assert(front[i] == x);
                }
            }
            if front.contains(x) {
                let i = choose|i: int| 0 <= i < front.len() && front[i] == x;
                assert(xs[i] == x);
            }
            assert(xs[xs.len() - 1] == v);
        }
    }
}

/// Keys without repetition, put in in whatever order, make a strictly sorted
/// sequence.
pub proof fn lemma_insert_all_strict<T: PartialOrd>(xs: Seq<T>)
    requires
        total_order::<T>(),
        xs.no_duplicates(),
    ensures
        strictly_sorted(insert_all(xs)),
        insert_all(xs) == insert_all_new(xs),
    decreases xs.len(),
{
    if xs.len() == 0 {
    } else {
        let front = xs.drop_last();
        let v = xs.last();
        lemma_insert_all_strict(front);
        lemma_insert_all_new_strict(front);
        if front.contains(v) {
            let i = choose|i: int| 0 <= i < front.len() && front[i] == v;
            assert(xs[i] == xs[xs.len() - 1]);
        }
        lemma_insert_sorted_keeps_strict(insert_all(front), v);
    }
}

/// Two sorted sequences that hold the same keys, each as often as the other,
/// are one and the same.
pub proof fn lemma_sorted_same_keys<T: PartialOrd>(a: Seq<T>, b: Seq<T>)
    requires
        total_order::<T>(),
        sorted(a),
        sorted(b),
        a.to_multiset() == b.to_multiset(),
    ensures
        a == b,
{
    lemma_order_laws::<T>();
    let leq = |x: T, y: T| le(x, y);
    assert(vstd::relations::sorted_by(a, leq));
    assert(vstd::relations::sorted_by(b, leq));
    assert(vstd::relations::total_ordering(leq)) by {
        assert forall|x: T| #[trigger] leq(x, x) by {}
        assert forall|x: T, y: T| #[trigger] leq(x, y) && #[trigger] leq(y, x) implies x == y by {
            assert(le(x, y) && le(y, x));
        }
        assert forall|x: T, y: T, z: T| #[trigger] leq(x, y) && #[trigger] leq(y, z) implies leq(
            x,
            z,
        ) by {
            assert(le(x, y) && le(y, z));
        }
        assert forall|x: T, y: T| #[trigger] leq(x, y) || #[trigger] leq(y, x) by {
            assert(le(x, y) || le(y, x));
        }
    }
    vstd::seq_lib::lemma_sorted_unique(a, b, leq);
}

/// To put the keys of a sorted sequence in anew, in whatever order, gives
/// the sequence back.
pub proof fn lemma_insert_all_restores<T: PartialOrd>(xs: Seq<T>, s: Seq<T>)
    requires
        total_order::<T>(),
        sorted(s),
        xs.to_multiset() == s.to_multiset(),
    ensures
        insert_all(xs) == s,
{
    lemma_insert_all_sorts(xs);
    lemma_sorted_same_keys(insert_all(xs), s);
}

/// A key that was taken out of a sorted sequence and is put in again is back
/// in its place; so it is in a strictly sorted sequence that takes a key only
/// if it does not hold it.
pub proof fn lemma_remove_then_insert<T: PartialOrd>(s: Seq<T>, v: T)
    requires
        total_order::<T>(),
        sorted(s),
        s.contains(v),
    ensures
        insert_sorted(s.remove_value(v), v) == s,
        strictly_sorted(s) ==> insert_new(s.remove_value(v), v) == s,
{
    let i = choose|i: int| 0 <= i < s.len() && s[i] == v;
    lemma_sorted_remove_at(s, i);
    let t = s.remove(i);
    lemma_insert_sorted_keeps_sorted(t, v);
    lemma_upper_bound_bounds(t, v);
    vstd::seq_lib::to_multiset_insert(t, upper_bound(t, v), v);
    s.to_multiset_ensures();
    t.to_multiset_ensures();
    assert(s.to_multiset().count(v) > 0);
    assert(t.to_multiset().insert(v) =~= s.to_multiset());
    lemma_sorted_same_keys(insert_sorted(t, v), s);
    if strictly_sorted(s) {
        lemma_strict_remove_at(s, i);
    }
}

/// What `contains` finds after a key was put in or taken out: a sequence
/// holds a key once it was put in, and a strictly sorted one no longer holds
/// it once it was taken out; the other keys are there as before.
pub proof fn lemma_contains_after<T: PartialOrd>(s: Seq<T>, v: T)
    requires
        total_order::<T>(),
        strictly_sorted(s),
    ensures
        forall|x: T| #[trigger] insert_new(s, v).contains(x) <==> x == v || s.contains(x),
        forall|x: T| #[trigger] s.remove_value(v).contains(x) <==> x != v && s.contains(x),
        strictly_sorted(insert_new(s, v)),
        strictly_sorted(s.remove_value(v)),
{
    lemma_insert_sorted_contains(s, v);
    if !s.contains(v) {
        lemma_insert_sorted_keeps_strict(s, v);
        lemma_remove_value_absent(s, v);
    } else {
        let i = choose|i: int| 0 <= i < s.len() && s[i] == v;
        lemma_strict_is_sorted(s);
        lemma_sorted_remove_at(s, i);
        lemma_strict_remove_at(s, i);
    }
}

/// How often a sorted sequence holds a key after one was put in or taken
/// out: once more for the key that was put in, once less for the key that
/// was taken out if it was there, and as often as before for every other
/// key.
pub proof fn lemma_count_after<T: PartialOrd>(s: Seq<T>, v: T)
    ensures
        insert_sorted(s, v).to_multiset() =~= s.to_multiset().insert(v),
        s.remove_value(v).to_multiset() =~= s.to_multiset().remove(v),
{
    lemma_upper_bound_bounds(s, v);
    vstd::seq_lib::to_multiset_insert(s, upper_bound(s, v), v);
    s.index_of_first_ensures(v);
    s.to_multiset_ensures();
    match s.index_of_first(v) {
        Some(i) => {},
        None => {
            assert(s.to_multiset().count(v) == 0);
            assert(s.to_multiset().remove(v) =~= s.to_multiset());
        },
    }
}

/// In a strictly sorted sequence no key stands twice, and none does in a
/// sequence that holds the same keys as often.
pub proof fn lemma_strict_no_duplicates<T: PartialOrd>(s: Seq<T>, xs: Seq<T>)
    requires
        total_order::<T>(),
        strictly_sorted(s),
        xs.to_multiset() == s.to_multiset(),
    ensures
        s.no_duplicates(),
        xs.no_duplicates(),
{
    lemma_order_laws::<T>();
    assert forall|i: int, j: int| 0 <= i < s.len() && 0 <= j < s.len() && i != j implies s[i]
        != s[j] by {
        if i < j {
            assert(lt(s[i], s[j]));
        } else {
            assert(lt(s[j], s[i]));
        }
    }
    s.lemma_multiset_has_no_duplicates();
    xs.lemma_multiset_has_no_duplicates_conv();
}

} // verus!
