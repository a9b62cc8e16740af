//! Association-list model shared by the trackers.
//!
//! The trackers keep their per-key state in a `Vec` of key/value pairs with
//! pairwise-distinct keys. This module gives the lookup function over the
//! mathematical sequence of pairs and the lemmas that relate it to the
//! sequence operations the trackers perform (push, update, removal).

use vstd::prelude::*;

verus! {

/// The value bound to `k`: the value of the last pair whose key is `k`,
/// or `None` when no pair holds it. With `distinct_keys` the choice of
/// pair does not matter.
pub open spec fn find_kv<K, V>(s: Seq<(K, V)>, k: K) -> Option<V>
    decreases s.len(),
{
    if s.len() == 0 {
        None::<V>
    } else if s.last().0 == k {
        Some(s.last().1)
    } else {
        find_kv(s.drop_last(), k)
    }
}

/// All keys in the list differ pairwise.
pub open spec fn distinct_keys<K, V>(s: Seq<(K, V)>) -> bool {
    forall|i: int, j: int| 0 <= i < j < s.len() ==> s[i].0 != s[j].0
}

/// A key that no pair holds is not found.
pub proof fn lemma_find_absent<K, V>(s: Seq<(K, V)>, k: K)
    requires
        forall|i: int| 0 <= i < s.len() ==> s[i].0 != k,
    ensures
        find_kv(s, k) is None,
    decreases s.len(),
{
    if s.len() > 0 {
        lemma_find_absent(s.drop_last(), k);
    }
}

/// With distinct keys, the pair at index `i` decides the lookup of its key.
pub proof fn lemma_find_at<K, V>(s: Seq<(K, V)>, i: int)
    requires
        distinct_keys(s),
        0 <= i < s.len(),
    ensures
        find_kv(s, s[i].0) == Some(s[i].1),
    decreases s.len(),
{
    if i == s.len() - 1 {
    } else {
        lemma_find_at(s.drop_last(), i);
    }
}

/// Appending a pair binds its key and leaves every other key as it was.
pub proof fn lemma_find_push<K, V>(s: Seq<(K, V)>, k: K, v: V, k2: K)
    ensures
        find_kv(s.push((k, v)), k2) == if k2 == k {
            Some(v)
        } else {
            find_kv(s, k2)
        },
{
    assert(s.push((k, v)).drop_last() =~= s);
}

/// Appending a pair with a fresh key keeps the keys distinct.
pub proof fn lemma_distinct_push<K, V>(s: Seq<(K, V)>, k: K, v: V)
    requires
        distinct_keys(s),
        forall|i: int| 0 <= i < s.len() ==> s[i].0 != k,
    ensures
        distinct_keys(s.push((k, v))),
{
}

/// Removing the pair at index `i` unbinds its key and leaves every other
/// key as it was; the keys stay distinct.
pub proof fn lemma_find_remove<K, V>(s: Seq<(K, V)>, i: int, k2: K)
    requires
        distinct_keys(s),
        0 <= i < s.len(),
    ensures
        distinct_keys(s.remove(i)),
        find_kv(s.remove(i), k2) == if k2 == s[i].0 {
            None::<V>
        } else {
            find_kv(s, k2)
        },
    decreases s.len(),
{
    assert(distinct_keys(s.remove(i)));
    if i == s.len() - 1 {
        assert(s.remove(i) =~= s.drop_last());
        if k2 == s[i].0 {
            lemma_find_absent(s.drop_last(), k2);
        }
    } else {
        assert(s.remove(i).drop_last() =~= s.drop_last().remove(i));
        lemma_find_remove(s.drop_last(), i, k2);
    }
}

/// Updating the pair at index `i` in place, keeping its key, rebinds that
/// key and leaves every other key as it was; the keys stay distinct.
pub proof fn lemma_find_update<K, V>(s: Seq<(K, V)>, i: int, v: V, k2: K)
    requires
        distinct_keys(s),
        0 <= i < s.len(),
    ensures
        distinct_keys(s.update(i, (s[i].0, v))),
        find_kv(s.update(i, (s[i].0, v)), k2) == if k2 == s[i].0 {
            Some(v)
        } else {
            find_kv(s, k2)
        },
    decreases s.len(),
{
    let t = s.update(i, (s[i].0, v));
    assert(distinct_keys(t));
    if i == s.len() - 1 {
        assert(t.drop_last() =~= s.drop_last());
        if k2 == s[i].0 {
        } else {
        }
    } else {
        assert(t.last() == s.last());
        assert(t.drop_last() =~= s.drop_last().update(i, (s[i].0, v)));
        lemma_find_update(s.drop_last(), i, v, k2);
    }
}

} // verus!
