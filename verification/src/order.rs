//! Sorted sequences of keys: the mathematical model of a search tree's
//! contents, and what inserting and removing a key mean on it.

use vstd::prelude::*;
use vstd::multiset::Multiset;
use vstd::arithmetic::power2::{pow2, lemma_pow2_strictly_increases};
use crate::key::OrderedKey;

verus! {

/// The keys of `s` never decrease from left to right.
pub open spec fn sorted<K: OrderedKey>(s: Seq<K>) -> bool {
    forall|i: int, j: int| 0 <= i < j < s.len() ==> #[trigger] s[i].rank() <= #[trigger] s[j].rank()
}

/// Every key of `s` is at most `k`.
pub open spec fn all_up_to<K: OrderedKey>(s: Seq<K>, k: K) -> bool {
    forall|i: int| 0 <= i < s.len() ==> #[trigger] s[i].rank() <= k.rank()
}

/// Every key of `s` is at least `k`.
pub open spec fn all_from<K: OrderedKey>(s: Seq<K>, k: K) -> bool {
    forall|i: int| 0 <= i < s.len() ==> k.rank() <= #[trigger] s[i].rank()
}

/// The number of keys of `s` that do not come after `k`.
pub open spec fn count_up_to<K: OrderedKey>(s: Seq<K>, k: K) -> nat
    decreases s.len(),
{
    if s.len() == 0 {
        0
    } else {
        count_up_to(s.drop_last(), k) + if s.last().rank() <= k.rank() {
            1nat
        } else {
            0nat
        }
    }
}

/// `s` with `k` put in behind every key that does not come after it. On a
/// sorted sequence this is the one place that keeps it sorted and puts `k`
/// behind the keys equal to it.
pub open spec fn ordered_insert<K: OrderedKey>(s: Seq<K>, k: K) -> Seq<K> {
    s.insert(count_up_to(s, k) as int, k)
}

/// `s` without one occurrence of `k`, or `s` itself where `k` does not occur.
pub open spec fn remove_one<K: OrderedKey>(s: Seq<K>, k: K) -> Seq<K> {
    if s.contains(k) {
        s.remove(s.index_of(k))
    } else {
        s
    }
}

/// The in-order sequence of a node: the left keys, the node's key, the right
/// keys.
pub open spec fn join<K: OrderedKey>(l: Seq<K>, x: K, r: Seq<K>) -> Seq<K> {
    l + seq![x] + r
}

/// No more keys come before a key than there are keys.
pub proof fn lemma_count_bound<K: OrderedKey>(s: Seq<K>, k: K)
    ensures
        count_up_to(s, k) <= s.len(),
    decreases s.len(),
{
    if s.len() > 0 {
        lemma_count_bound(s.drop_last(), k);
    }
}

/// The keys that do not come after `k` are counted part by part.
pub proof fn lemma_count_concat<K: OrderedKey>(a: Seq<K>, b: Seq<K>, k: K)
    ensures
        count_up_to(a + b, k) == count_up_to(a, k) + count_up_to(b, k),
    decreases b.len(),
{
    if b.len() == 0 {
        assert(a + b =~= a);
    } else {
        assert((a + b).drop_last() =~= a + b.drop_last());
        lemma_count_concat(a, b.drop_last(), k);
    }
}

/// Where no key comes after `k`, all are counted.
pub proof fn lemma_count_all<K: OrderedKey>(s: Seq<K>, k: K)
    requires
        all_up_to(s, k),
    ensures
        count_up_to(s, k) == s.len(),
    decreases s.len(),
{
    if s.len() > 0 {
        assert forall|i: int| 0 <= i < s.drop_last().len() implies #[trigger] s.drop_last()[i].rank()
            <= k.rank() by {
            assert(s.drop_last()[i] == s[i]);
        }
        lemma_count_all(s.drop_last(), k);
    }
}

/// Where every key comes after `k`, none is counted.
pub proof fn lemma_count_none<K: OrderedKey>(s: Seq<K>, k: K)
    requires
        forall|i: int| 0 <= i < s.len() ==> k.rank() < #[trigger] s[i].rank(),
    ensures
        count_up_to(s, k) == 0,
    decreases s.len(),
{
    if s.len() > 0 {
        assert forall|i: int| 0 <= i < s.drop_last().len() implies k.rank()
            < #[trigger] s.drop_last()[i].rank() by {
            assert(s.drop_last()[i] == s[i]);
        }
        lemma_count_none(s.drop_last(), k);
    }
}

/// In a sorted sequence the keys that do not come after `k` are exactly those
/// in front of the place where `k` is put in.
pub proof fn lemma_count_splits<K: OrderedKey>(s: Seq<K>, k: K)
    requires
        sorted(s),
    ensures
        count_up_to(s, k) <= s.len(),
        forall|i: int| 0 <= i < count_up_to(s, k) ==> #[trigger] s[i].rank() <= k.rank(),
        forall|i: int| count_up_to(s, k) <= i < s.len() ==> k.rank() < #[trigger] s[i].rank(),
    decreases s.len(),
{
    if s.len() > 0 {
        let t = s.drop_last();
        assert forall|i: int, j: int| 0 <= i < j < t.len() implies #[trigger] t[i].rank()
            <= #[trigger] t[j].rank() by {
            assert(t[i] == s[i] && t[j] == s[j]);
        }
        lemma_count_splits(t, k);
        lemma_count_bound(t, k);
        if s.last().rank() <= k.rank() {
            assert forall|i: int| 0 <= i < t.len() implies #[trigger] t[i].rank() <= k.rank() by {
                assert(t[i] == s[i]);
                assert(s[i].rank() <= s[s.len() - 1].rank());
            }
            lemma_count_all(t, k);
        }
        assert forall|i: int| 0 <= i < count_up_to(s, k) implies #[trigger] s[i].rank()
            <= k.rank() by {
            if i < t.len() {
                assert(t[i] == s[i]);
            }
        }
        assert forall|i: int| count_up_to(s, k) <= i < s.len() implies k.rank()
            < #[trigger] s[i].rank() by {
            if i < t.len() {
                assert(t[i] == s[i]);
            }
        }
    }
}

/// A sequence made of two parts is sorted exactly when both parts are and no
/// key of the first comes after a key of the second.
pub proof fn lemma_sorted_concat<K: OrderedKey>(a: Seq<K>, b: Seq<K>)
    ensures
        sorted(a + b) <==> (sorted(a) && sorted(b) && forall|i: int, j: int|
            0 <= i < a.len() && 0 <= j < b.len() ==> #[trigger] a[i].rank() <= #[trigger] b[j].rank()),
{
    let s = a + b;
    if sorted(s) {
        assert forall|i: int, j: int| 0 <= i < j < a.len() implies #[trigger] a[i].rank()
            <= #[trigger] a[j].rank() by {
            assert(s[i] == a[i] && s[j] == a[j]);
        }
        assert forall|i: int, j: int| 0 <= i < j < b.len() implies #[trigger] b[i].rank()
            <= #[trigger] b[j].rank() by {
            assert(s[a.len() + i] == b[i] && s[a.len() + j] == b[j]);
        }
        assert forall|i: int, j: int| 0 <= i < a.len() && 0 <= j < b.len() implies #[trigger] a[i].rank()
            <= #[trigger] b[j].rank() by {
            assert(s[i] == a[i] && s[a.len() + j] == b[j]);
        }
    }
    if sorted(a) && sorted(b) && (forall|i: int, j: int|
        0 <= i < a.len() && 0 <= j < b.len() ==> #[trigger] a[i].rank() <= #[trigger] b[j].rank()) {
        assert forall|i: int, j: int| 0 <= i < j < s.len() implies #[trigger] s[i].rank()
            <= #[trigger] s[j].rank() by {
            if j < a.len() {
                assert(s[i] == a[i] && s[j] == a[j]);
            } else if i < a.len() {
                assert(s[i] == a[i] && s[j] == b[j - a.len()]);
            } else {
                assert(s[i] == b[i - a.len()] && s[j] == b[j - a.len()]);
            }
        }
    }
}

/// The in-order sequence of a node is sorted exactly when both sides are and
/// the node's key lies between them.
pub proof fn lemma_sorted_join<K: OrderedKey>(l: Seq<K>, x: K, r: Seq<K>)
    ensures
        sorted(join(l, x, r)) <==> (sorted(l) && sorted(r) && all_up_to(l, x) && all_from(r, x)),
{
    let m = seq![x];
    assert(sorted(m));
    lemma_sorted_concat(l, m);
    lemma_sorted_concat(l + m, r);
    let lm = l + m;
    if sorted(join(l, x, r)) {
        assert forall|i: int| 0 <= i < l.len() implies #[trigger] l[i].rank() <= x.rank() by {
            assert(l[i].rank() <= m[0].rank());
        }
        assert forall|i: int| 0 <= i < r.len() implies x.rank() <= #[trigger] r[i].rank() by {
            assert(lm[l.len() as int] == x);
            assert(lm[l.len() as int].rank() <= r[i].rank());
        }
    }
    if sorted(l) && sorted(r) && all_up_to(l, x) && all_from(r, x) {
        assert forall|i: int, j: int| 0 <= i < l.len() && 0 <= j < m.len() implies #[trigger] l[i].rank()
            <= #[trigger] m[j].rank() by {}
        assert forall|i: int, j: int| 0 <= i < lm.len() && 0 <= j < r.len() implies #[trigger] lm[i].rank()
            <= #[trigger] r[j].rank() by {
            if i < l.len() {
                assert(lm[i] == l[i]);
            } else {
                assert(lm[i] == x);
            }
        }
    }
}

/// Putting a key into a sorted sequence keeps it sorted.
pub proof fn lemma_insert_sorted<K: OrderedKey>(s: Seq<K>, k: K)
    requires
        sorted(s),
    ensures
        sorted(ordered_insert(s, k)),
{
    lemma_count_splits(s, k);
    let p = count_up_to(s, k) as int;
    let t = ordered_insert(s, k);
    assert forall|i: int, j: int| 0 <= i < j < t.len() implies #[trigger] t[i].rank()
        <= #[trigger] t[j].rank() by {
        if j < p {
            assert(t[i] == s[i] && t[j] == s[j]);
        } else if j == p {
            assert(t[i] == s[i]);
        } else if i < p {
            assert(t[i] == s[i] && t[j] == s[j - 1]);
        } else if i == p {
            assert(t[j] == s[j - 1]);
        } else {
            assert(t[i] == s[i - 1] && t[j] == s[j - 1]);
        }
    }
}

/// A key smaller than the node's key goes into the left side.
pub proof fn lemma_insert_left<K: OrderedKey>(l: Seq<K>, x: K, r: Seq<K>, k: K)
    requires
        sorted(join(l, x, r)),
        k.rank() < x.rank(),
    ensures
        ordered_insert(join(l, x, r), k) == join(ordered_insert(l, k), x, r),
{
    lemma_sorted_join(l, x, r);
    let m = seq![x];
    lemma_count_concat(l + m, r, k);
    lemma_count_concat(l, m, k);
    assert(m.drop_last() =~= Seq::<K>::empty());
    assert(count_up_to(m, k) == 0) by {
        lemma_count_none(m, k);
    }
    lemma_count_none(r, k);
    lemma_count_bound(l, k);
    assert(ordered_insert(join(l, x, r), k) =~= join(ordered_insert(l, k), x, r));
}

/// A key not smaller than the node's key goes into the right side.
pub proof fn lemma_insert_right<K: OrderedKey>(l: Seq<K>, x: K, r: Seq<K>, k: K)
    requires
        sorted(join(l, x, r)),
        x.rank() <= k.rank(),
    ensures
        ordered_insert(join(l, x, r), k) == join(l, x, ordered_insert(r, k)),
{
    lemma_sorted_join(l, x, r);
    let m = seq![x];
    lemma_count_concat(l + m, r, k);
    lemma_count_concat(l, m, k);
    lemma_count_all(m, k);
    lemma_count_all(l, k);
    lemma_count_bound(r, k);
    assert(ordered_insert(join(l, x, r), k) =~= join(l, x, ordered_insert(r, k)));
}

/// In a sorted sequence it makes no difference which occurrence of a key is
/// taken out.
pub proof fn lemma_remove_at<K: OrderedKey>(s: Seq<K>, i: int, k: K)
    requires
        sorted(s),
        0 <= i < s.len(),
        s[i] == k,
    ensures
        s.contains(k),
        remove_one(s, k) == s.remove(i),
{
    let j = s.index_of(k);
    assert(0 <= j < s.len() && s[j] == k);
    let a = s.remove(i);
    let b = s.remove(j);
    assert forall|n: int| 0 <= n < a.len() implies a[n] == b[n] by {
        let lo = if i < j { i } else { j };
        let hi = if i < j { j } else { i };
        if lo <= n < hi {
            assert(s[lo].rank() <= s[n].rank());
            assert(s[n].rank() <= s[n + 1].rank());
            assert(s[n + 1].rank() <= s[hi].rank() || n + 1 == hi);
            K::rank_is_injective(s[n], k);
            K::rank_is_injective(s[n + 1], k);
        }
    }
    assert(a =~= b);
}

/// Taking a key out of a sorted sequence keeps it sorted.
pub proof fn lemma_remove_sorted<K: OrderedKey>(s: Seq<K>, k: K)
    requires
        sorted(s),
    ensures
        sorted(remove_one(s, k)),
{
    if s.contains(k) {
        let j = s.index_of(k);
        let t = s.remove(j);
        assert forall|a: int, b: int| 0 <= a < b < t.len() implies #[trigger] t[a].rank()
            <= #[trigger] t[b].rank() by {
            let a0 = if a < j { a } else { a + 1 };
            let b0 = if b < j { b } else { b + 1 };
            assert(t[a] == s[a0] && t[b] == s[b0]);
        }
    }
}

/// A key smaller than the node's key is taken out of the left side.
pub proof fn lemma_remove_left<K: OrderedKey>(l: Seq<K>, x: K, r: Seq<K>, k: K)
    requires
        sorted(join(l, x, r)),
        k.rank() < x.rank(),
    ensures
        remove_one(join(l, x, r), k) == join(remove_one(l, k), x, r),
        join(l, x, r).contains(k) == l.contains(k),
{
    lemma_sorted_join(l, x, r);
    let s = join(l, x, r);
    if l.contains(k) {
        let i = l.index_of(k);
        assert(s[i] == k);
        lemma_remove_at(s, i, k);
        assert(s.remove(i) =~= join(l.remove(i), x, r));
    } else {
        if s.contains(k) {
            let i = s.index_of(k);
            if i < l.len() {
                assert(l[i] == k);
            } else if i > l.len() {
                assert(r[i - l.len() - 1] == k);
            }
        }
    }
}

/// A key greater than the node's key is taken out of the right side.
pub proof fn lemma_remove_right<K: OrderedKey>(l: Seq<K>, x: K, r: Seq<K>, k: K)
    requires
        sorted(join(l, x, r)),
        x.rank() < k.rank(),
    ensures
        remove_one(join(l, x, r), k) == join(l, x, remove_one(r, k)),
        join(l, x, r).contains(k) == r.contains(k),
{
    lemma_sorted_join(l, x, r);
    let s = join(l, x, r);
    if r.contains(k) {
        let i = r.index_of(k);
        assert(s[l.len() + 1 + i] == k);
        lemma_remove_at(s, l.len() + 1 + i, k);
        assert(s.remove(l.len() + 1 + i) =~= join(l, x, r.remove(i)));
    } else {
        if s.contains(k) {
            let i = s.index_of(k);
            if i < l.len() {
                assert(l[i] == k);
            } else if i > l.len() {
                assert(r[i - l.len() - 1] == k);
            }
        }
    }
}

/// Taking out the node's own key leaves the two sides.
pub proof fn lemma_remove_here<K: OrderedKey>(l: Seq<K>, x: K, r: Seq<K>)
    requires
        sorted(join(l, x, r)),
    ensures
        remove_one(join(l, x, r), x) == l + r,
        join(l, x, r).contains(x),
{
    let s = join(l, x, r);
    assert(s[l.len() as int] == x);
    lemma_remove_at(s, l.len() as int, x);
    assert(s.remove(l.len() as int) =~= l + r);
}

/// Taking the first key of a sorted sequence out by its value drops the
/// first place.
pub proof fn lemma_remove_first<K: OrderedKey>(s: Seq<K>)
    requires
        sorted(s),
        s.len() > 0,
    ensures
        remove_one(s, s[0]) == s.drop_first(),
{
    lemma_remove_at(s, 0, s[0]);
    assert(s.remove(0) =~= s.drop_first());
}

/// `s` after the keys of `keys` have been put in one by one, first to last.
pub open spec fn insert_all<K: OrderedKey>(s: Seq<K>, keys: Seq<K>) -> Seq<K>
    decreases keys.len(),
{
    if keys.len() == 0 {
        s
    } else {
        ordered_insert(insert_all(s, keys.drop_last()), keys.last())
    }
}

/// `s` after one occurrence of each key of `keys` has been taken out, first
/// to last.
pub open spec fn remove_all<K: OrderedKey>(s: Seq<K>, keys: Seq<K>) -> Seq<K>
    decreases keys.len(),
{
    if keys.len() == 0 {
        s
    } else {
        remove_one(remove_all(s, keys.drop_last()), keys.last())
    }
}

/// Putting a key in adds one occurrence of it and changes nothing else.
pub proof fn lemma_insert_multiset<K: OrderedKey>(s: Seq<K>, k: K)
    ensures
        ordered_insert(s, k).to_multiset() == s.to_multiset().insert(k),
        ordered_insert(s, k).len() == s.len() + 1,
{
    lemma_count_bound(s, k);
    vstd::seq_lib::to_multiset_insert(s, count_up_to(s, k) as int, k);
}

/// Taking a key out removes one occurrence of it, if there is one, and
/// changes nothing else.
pub proof fn lemma_remove_multiset<K: OrderedKey>(s: Seq<K>, k: K)
    ensures
        remove_one(s, k).to_multiset() == s.to_multiset().remove(k),
{
    broadcast use vstd::multiset::group_multiset_axioms;

    vstd::seq_lib::to_multiset_contains(s, k);
    if s.contains(k) {
        vstd::seq_lib::to_multiset_remove(s, s.index_of(k));
    } else {
        assert(s.to_multiset().remove(k) =~= s.to_multiset());
    }
}

/// After a key has been put in, it is there: a search for it succeeds.
/// Every other key is there exactly if it was before.
pub proof fn lemma_insert_contains<K: OrderedKey>(s: Seq<K>, k: K, other: K)
    ensures
        ordered_insert(s, k).contains(k),
        ordered_insert(s, k).contains(other) <==> other == k || s.contains(other),
{
    broadcast use vstd::multiset::group_multiset_axioms;

    lemma_insert_multiset(s, k);
    vstd::seq_lib::to_multiset_contains(s, other);
    vstd::seq_lib::to_multiset_contains(ordered_insert(s, k), other);
    vstd::seq_lib::to_multiset_contains(ordered_insert(s, k), k);
}

/// After a key that occurred at most once has been taken out, it is not
/// there: a search for it fails.
pub proof fn lemma_remove_contains<K: OrderedKey>(s: Seq<K>, k: K)
    requires
        s.to_multiset().count(k) <= 1,
    ensures
        !remove_one(s, k).contains(k),
{
    broadcast use vstd::multiset::group_multiset_axioms;

    lemma_remove_multiset(s, k);
    vstd::seq_lib::to_multiset_contains(remove_one(s, k), k);
}

/// Taking a key out leaves every other key as it was, and the key itself
/// exactly where it occurred more than once.
pub proof fn lemma_remove_keeps<K: OrderedKey>(s: Seq<K>, k: K, other: K)
    ensures
        other != k ==> (remove_one(s, k).contains(other) <==> s.contains(other)),
        remove_one(s, k).contains(k) <==> s.to_multiset().count(k) >= 2,
{
    broadcast use vstd::multiset::group_multiset_axioms;

    lemma_remove_multiset(s, k);
    vstd::seq_lib::to_multiset_contains(s, other);
    vstd::seq_lib::to_multiset_contains(remove_one(s, k), other);
    vstd::seq_lib::to_multiset_contains(remove_one(s, k), k);
}

/// Whatever keys are put into a sorted sequence, in whatever order, it stays
/// sorted: the keys of a search tree never decrease from left to right.
pub proof fn lemma_insert_all_sorted<K: OrderedKey>(s: Seq<K>, keys: Seq<K>)
    requires
        sorted(s),
    ensures
        sorted(insert_all(s, keys)),
    decreases keys.len(),
{
    if keys.len() > 0 {
        lemma_insert_all_sorted(s, keys.drop_last());
        lemma_insert_sorted(insert_all(s, keys.drop_last()), keys.last());
    }
}

/// Putting keys in one by one adds up their occurrences.
pub proof fn lemma_insert_all_multiset<K: OrderedKey>(s: Seq<K>, keys: Seq<K>)
    ensures
        insert_all(s, keys).to_multiset() == s.to_multiset().add(keys.to_multiset()),
    decreases keys.len(),
{
    broadcast use vstd::multiset::group_multiset_axioms;

    if keys.len() == 0 {
        assert(keys.to_multiset() =~= Multiset::<K>::empty()) by {
            vstd::seq_lib::to_multiset_len(keys);
        }
        assert(s.to_multiset().add(keys.to_multiset()) =~= s.to_multiset());
    } else {
        let front = keys.drop_last();
        lemma_insert_all_multiset(s, front);
        lemma_insert_multiset(insert_all(s, front), keys.last());
        assert(front.push(keys.last()) =~= keys);
        vstd::seq_lib::to_multiset_build(front, keys.last());
        assert(insert_all(s, keys).to_multiset() =~= s.to_multiset().add(keys.to_multiset()));
    }
}

/// Taking keys out one by one takes off their occurrences, as far as there
/// are any.
pub proof fn lemma_remove_all_multiset<K: OrderedKey>(s: Seq<K>, keys: Seq<K>)
    ensures
        remove_all(s, keys).to_multiset() == s.to_multiset().sub(keys.to_multiset()),
    decreases keys.len(),
{
    broadcast use vstd::multiset::group_multiset_axioms;

    if keys.len() == 0 {
        assert(keys.to_multiset() =~= Multiset::<K>::empty()) by {
            vstd::seq_lib::to_multiset_len(keys);
        }
        assert(s.to_multiset().sub(keys.to_multiset()) =~= s.to_multiset());
    } else {
        let front = keys.drop_last();
        lemma_remove_all_multiset(s, front);
        lemma_remove_multiset(remove_all(s, front), keys.last());
        assert(front.push(keys.last()) =~= keys);
        vstd::seq_lib::to_multiset_build(front, keys.last());
        assert(remove_all(s, keys).to_multiset() =~= s.to_multiset().sub(keys.to_multiset()));
    }
}

/// Putting keys in and then taking each of them out again, in any order,
/// leaves nothing.
pub proof fn lemma_round_trip<K: OrderedKey>(keys: Seq<K>, order: Seq<K>)
    requires
        order.to_multiset() == keys.to_multiset(),
    ensures
        remove_all(insert_all(Seq::<K>::empty(), keys), order) == Seq::<K>::empty(),
{
    broadcast use vstd::multiset::group_multiset_axioms;

    let full = insert_all(Seq::<K>::empty(), keys);
    let rest = remove_all(full, order);
    lemma_insert_all_multiset(Seq::<K>::empty(), keys);
    lemma_remove_all_multiset(full, order);
    vstd::seq_lib::to_multiset_len(Seq::<K>::empty());
    assert(Seq::<K>::empty().to_multiset() =~= Multiset::<K>::empty());
    assert forall|v: K| rest.to_multiset().count(v) == 0 by {
        assert(full.to_multiset().count(v) == keys.to_multiset().count(v));
    }
    assert(rest.to_multiset() =~= Multiset::<K>::empty());
    vstd::seq_lib::to_multiset_len(rest);
    assert(rest =~= Seq::<K>::empty());
}

/// Whether the keys of `keys` never decrease from left to right.
pub fn is_sorted<K: OrderedKey>(keys: &Vec<K>) -> (ok: bool)
    ensures
        ok == sorted(keys@),
{
    if keys.len() < 2 {
        return true;
    }
    let mut i: usize = 1;
    while i < keys.len()
        invariant
            1 <= i <= keys@.len(),
            sorted(keys@.take(i as int)),
        decreases keys@.len() - i,
    {
        if keys[i].less(&keys[i - 1]) {
            return false;
        }
        proof {
            let shorter = keys@.take(i as int);
            let longer = keys@.take(i + 1);
            assert forall|a: int, b: int| 0 <= a < b < longer.len() implies #[trigger] longer[a].rank()
                <= #[trigger] longer[b].rank() by {
                if b < i {
                    assert(shorter[a] == longer[a] && shorter[b] == longer[b]);
                } else if a < i - 1 {
                    assert(shorter[a] == longer[a] && shorter[i - 1] == longer[i - 1]);
                    assert(shorter[a].rank() <= shorter[i - 1].rank());
                }
            }
        }
        i += 1;
    }
    proof {
        assert(keys@.take(i as int) =~= keys@);
    }
    true
}

/// Powers of two never decrease with the exponent.
pub proof fn lemma_pow2_monotone(a: nat, b: nat)
    requires
        a <= b,
    ensures
        pow2(a) <= pow2(b),
{
    if a < b {
        lemma_pow2_strictly_increases(a, b);
    }
}

} // verus!
