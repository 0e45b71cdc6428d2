//! Stable orderings by a small integer key, the way the launcher orders its
//! cache and its applications.

use vstd::prelude::*;
use vstd::seq_lib::lemma_multiset_commutative;

verus! {

/// The items of `s` whose key is `k`, in their order in `s`.
pub open spec fn bucket<T>(s: Seq<T>, key: spec_fn(T) -> int, k: int) -> Seq<T>
    decreases s.len(),
{
    if s.len() == 0 {
        seq![]
    } else if key(s.last()) == k {
        bucket(s.drop_last(), key, k).push(s.last())
    } else {
        bucket(s.drop_last(), key, k)
    }
}

/// The buckets of keys `0 .. m`, lowest key first.
pub open spec fn ascending_upto<T>(s: Seq<T>, key: spec_fn(T) -> int, m: int) -> Seq<T>
    decreases m,
{
    if m <= 0 {
        seq![]
    } else {
        ascending_upto(s, key, m - 1) + bucket(s, key, m - 1)
    }
}

/// The buckets of keys `255` down to `256 - m`, highest key first.
pub open spec fn descending_upto<T>(s: Seq<T>, key: spec_fn(T) -> int, m: int) -> Seq<T>
    decreases m,
{
    if m <= 0 {
        seq![]
    } else {
        descending_upto(s, key, m - 1) + bucket(s, key, 256 - m)
    }
}

/// `s` stably sorted by a key in `0 .. 256`, smallest first (`sort_by_key`).
pub open spec fn by_key_ascending<T>(s: Seq<T>, key: spec_fn(T) -> int) -> Seq<T> {
    ascending_upto(s, key, 256)
}

/// `s` stably sorted by a key in `0 .. 256`, largest first
/// (`sort_by_key` with `Reverse`).
pub open spec fn by_key_descending<T>(s: Seq<T>, key: spec_fn(T) -> int) -> Seq<T> {
    descending_upto(s, key, 256)
}

pub open spec fn keys_in_range<T>(s: Seq<T>, key: spec_fn(T) -> int) -> bool {
    forall|i: int| 0 <= i < s.len() ==> 0 <= #[trigger] key(s[i]) < 256
}

pub open spec fn sorted_ascending<T>(s: Seq<T>, key: spec_fn(T) -> int) -> bool {
    forall|i: int, j: int| 0 <= i < j < s.len() ==> key(s[i]) <= key(s[j])
}

pub open spec fn sorted_descending<T>(s: Seq<T>, key: spec_fn(T) -> int) -> bool {
    forall|i: int, j: int| 0 <= i < j < s.len() ==> key(s[i]) >= key(s[j])
}

pub proof fn lemma_bucket_keys<T>(s: Seq<T>, key: spec_fn(T) -> int, k: int)
    ensures
        forall|i: int| 0 <= i < bucket(s, key, k).len() ==> key(#[trigger] bucket(s, key, k)[i]) == k,
    decreases s.len(),
{
    if s.len() > 0 {
        lemma_bucket_keys(s.drop_last(), key, k);
        let b = bucket(s, key, k);
        let p = bucket(s.drop_last(), key, k);
        assert forall|i: int| 0 <= i < b.len() implies key(#[trigger] b[i]) == k by {
            if i < p.len() {
                assert(b[i] == p[i]);
            }
        }
    }
}

proof fn lemma_ascending_keys<T>(s: Seq<T>, key: spec_fn(T) -> int, m: int)
    ensures
        forall|i: int|
            0 <= i < ascending_upto(s, key, m).len() ==> key(#[trigger] ascending_upto(s, key, m)[i])
                < m,
        sorted_ascending(ascending_upto(s, key, m), key),
    decreases m,
{
    if m > 0 {
        lemma_ascending_keys(s, key, m - 1);
        lemma_bucket_keys(s, key, m - 1);
        let a = ascending_upto(s, key, m - 1);
        let b = bucket(s, key, m - 1);
        assert forall|i: int| 0 <= i < (a + b).len() implies key(#[trigger] (a + b)[i]) < m by {
            if i >= a.len() {
                assert((a + b)[i] == b[i - a.len()]);
            }
        }
        assert forall|i: int, j: int| 0 <= i < j < (a + b).len() implies key((a + b)[i]) <= key(
            (a + b)[j],
        ) by {
            if j >= a.len() {
                assert((a + b)[j] == b[j - a.len()]);
                if i >= a.len() {
                    assert((a + b)[i] == b[i - a.len()]);
                } else {
                    assert((a + b)[i] == a[i]);
                }
            } else {
                assert((a + b)[i] == a[i]);
                assert((a + b)[j] == a[j]);
            }
        }
    }
}

pub proof fn lemma_descending_keys<T>(s: Seq<T>, key: spec_fn(T) -> int, m: int)
    ensures
        forall|i: int|
            0 <= i < descending_upto(s, key, m).len() ==> key(
                #[trigger] descending_upto(s, key, m)[i],
            ) >= 256 - m,
        sorted_descending(descending_upto(s, key, m), key),
    decreases m,
{
    if m > 0 {
        lemma_descending_keys(s, key, m - 1);
        lemma_bucket_keys(s, key, 256 - m);
        let a = descending_upto(s, key, m - 1);
        let b = bucket(s, key, 256 - m);
        assert forall|i: int| 0 <= i < (a + b).len() implies key(#[trigger] (a + b)[i]) >= 256
            - m by {
            if i >= a.len() {
                assert((a + b)[i] == b[i - a.len()]);
            }
        }
        assert forall|i: int, j: int| 0 <= i < j < (a + b).len() implies key((a + b)[i]) >= key(
            (a + b)[j],
        ) by {
            if j >= a.len() {
                assert((a + b)[j] == b[j - a.len()]);
                if i >= a.len() {
                    assert((a + b)[i] == b[i - a.len()]);
                } else {
                    assert((a + b)[i] == a[i]);
                }
            } else {
                assert((a + b)[i] == a[i]);
                assert((a + b)[j] == a[j]);
            }
        }
    }
}

proof fn lemma_ascending_push<T>(s: Seq<T>, key: spec_fn(T) -> int, x: T, m: int)
    ensures
        ascending_upto(s.push(x), key, m).to_multiset() == if 0 <= key(x) < m {
            ascending_upto(s, key, m).to_multiset().insert(x)
        } else {
            ascending_upto(s, key, m).to_multiset()
        },
    decreases m,
{
    broadcast use vstd::seq_lib::group_to_multiset_ensures;

    if m > 0 {
        lemma_ascending_push(s, key, x, m - 1);
        assert(s.push(x).drop_last() =~= s);
        let a = ascending_upto(s, key, m - 1);
        let b = bucket(s, key, m - 1);
        let a2 = ascending_upto(s.push(x), key, m - 1);
        let b2 = bucket(s.push(x), key, m - 1);
        lemma_multiset_commutative(a, b);
        lemma_multiset_commutative(a2, b2);
    }
}

proof fn lemma_descending_push<T>(s: Seq<T>, key: spec_fn(T) -> int, x: T, m: int)
    ensures
        descending_upto(s.push(x), key, m).to_multiset() == if 256 - m <= key(x) < 256 {
            descending_upto(s, key, m).to_multiset().insert(x)
        } else {
            descending_upto(s, key, m).to_multiset()
        },
    decreases m,
{
    broadcast use vstd::seq_lib::group_to_multiset_ensures;

    if m > 0 {
        lemma_descending_push(s, key, x, m - 1);
        assert(s.push(x).drop_last() =~= s);
        let a = descending_upto(s, key, m - 1);
        let b = bucket(s, key, 256 - m);
        let a2 = descending_upto(s.push(x), key, m - 1);
        let b2 = bucket(s.push(x), key, 256 - m);
        lemma_multiset_commutative(a, b);
        lemma_multiset_commutative(a2, b2);
    }
}

/// Sorting by a key in range keeps every item, as often as it occurred,
/// and puts the items in ascending key order.
pub proof fn law_ascending_is_permutation<T>(s: Seq<T>, key: spec_fn(T) -> int)
    requires
        keys_in_range(s, key),
    ensures
        by_key_ascending(s, key).to_multiset() == s.to_multiset(),
        sorted_ascending(by_key_ascending(s, key), key),
    decreases s.len(),
{
    broadcast use vstd::seq_lib::group_to_multiset_ensures;

    lemma_ascending_keys(s, key, 256);
    if s.len() == 0 {
        lemma_ascending_empty(s, key, 256);
    } else {
        let p = s.drop_last();
        assert(p.push(s.last()) =~= s);
        assert(keys_in_range(p, key)) by {
            assert forall|i: int| 0 <= i < p.len() implies 0 <= #[trigger] key(p[i]) < 256 by {
                assert(p[i] == s[i]);
            }
        }
        law_ascending_is_permutation(p, key);
        lemma_ascending_push(p, key, s.last(), 256);
    }
}

/// Sorting by a key in range, largest first, keeps every item, as often as
/// it occurred, and puts the items in descending key order.
pub proof fn law_descending_is_permutation<T>(s: Seq<T>, key: spec_fn(T) -> int)
    requires
        keys_in_range(s, key),
    ensures
        by_key_descending(s, key).to_multiset() == s.to_multiset(),
        sorted_descending(by_key_descending(s, key), key),
    decreases s.len(),
{
    broadcast use vstd::seq_lib::group_to_multiset_ensures;

    lemma_descending_keys(s, key, 256);
    if s.len() == 0 {
        lemma_descending_empty(s, key, 256);
    } else {
        let p = s.drop_last();
        assert(p.push(s.last()) =~= s);
        assert(keys_in_range(p, key)) by {
            assert forall|i: int| 0 <= i < p.len() implies 0 <= #[trigger] key(p[i]) < 256 by {
                assert(p[i] == s[i]);
            }
        }
        law_descending_is_permutation(p, key);
        lemma_descending_push(p, key, s.last(), 256);
    }
}

proof fn lemma_ascending_empty<T>(s: Seq<T>, key: spec_fn(T) -> int, m: int)
    requires
        s.len() == 0,
    ensures
        ascending_upto(s, key, m) == Seq::<T>::empty(),
    decreases m,
{
    if m > 0 {
        lemma_ascending_empty(s, key, m - 1);
        assert(ascending_upto(s, key, m) =~= Seq::<T>::empty());
    }
}

proof fn lemma_descending_empty<T>(s: Seq<T>, key: spec_fn(T) -> int, m: int)
    requires
        s.len() == 0,
    ensures
        descending_upto(s, key, m) == Seq::<T>::empty(),
    decreases m,
{
    if m > 0 {
        lemma_descending_empty(s, key, m - 1);
        assert(descending_upto(s, key, m) =~= Seq::<T>::empty());
    }
}

} // verus!
