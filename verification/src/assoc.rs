//! Association sequences: sequences of key-value pairs with pairwise distinct
//! keys, read abstractly as a `Map`. The ledger keeps each of its mappings as
//! such a sequence, sorted by the natural order of the key, so that its
//! encoding is deterministic.

use vstd::prelude::*;

verus! {

/// Some entry of `s` has key `k`.
pub open spec fn has_key<K, V>(s: Seq<(K, V)>, k: K) -> bool {
    exists|i: int| 0 <= i < s.len() && (#[trigger] s[i]).0 == k
}

/// The index of the entry with key `k`; meaningful when `has_key(s, k)` holds
/// and the keys of `s` are distinct.
pub open spec fn index_of_key<K, V>(s: Seq<(K, V)>, k: K) -> int {
    choose|i: int| 0 <= i < s.len() && (#[trigger] s[i]).0 == k
}

/// No two entries of `s` share a key.
pub open spec fn unique_keys<K, V>(s: Seq<(K, V)>) -> bool {
    forall|i: int, j: int|
        0 <= i < j < s.len() ==> (#[trigger] s[i]).0 != (#[trigger] s[j]).0
}

/// The mapping that the association sequence `s` represents.
pub open spec fn assoc_map<K, V>(s: Seq<(K, V)>) -> Map<K, V> {
    Map::new(|k: K| has_key(s, k), |k: K| s[index_of_key(s, k)].1)
}

pub proof fn lemma_index_of_key<K, V>(s: Seq<(K, V)>, k: K)
    requires
        has_key(s, k),
    ensures
        0 <= index_of_key(s, k) < s.len(),
        s[index_of_key(s, k)].0 == k,
{
}

/// With distinct keys, the entry at index `i` is exactly what the map holds
/// for its key.
pub proof fn lemma_at_index<K, V>(s: Seq<(K, V)>, i: int)
    requires
        unique_keys(s),
        0 <= i < s.len(),
    ensures
        has_key(s, s[i].0),
        assoc_map(s).contains_key(s[i].0),
        assoc_map(s)[s[i].0] == s[i].1,
{
    assert(has_key(s, s[i].0));
    let j = index_of_key(s, s[i].0);
    lemma_index_of_key(s, s[i].0);
    if i < j {
        assert(s[i].0 != s[j].0);
    } else if j < i {
        assert(s[j].0 != s[i].0);
    }
}

pub proof fn lemma_assoc_empty<K, V>(s: Seq<(K, V)>)
    requires
        s.len() == 0,
    ensures
        assoc_map(s) =~= Map::<K, V>::empty(),
{
}

/// Updating the entry at index `i`, keeping its key, is inserting over that
/// key in the map.
pub proof fn lemma_update_at<K, V>(s: Seq<(K, V)>, i: int, v: V)
    requires
        unique_keys(s),
        0 <= i < s.len(),
    ensures
        unique_keys(s.update(i, (s[i].0, v))),
        assoc_map(s.update(i, (s[i].0, v))) =~= assoc_map(s).insert(s[i].0, v),
{
    let t = s.update(i, (s[i].0, v));
    assert forall|x: K| has_key(t, x) implies has_key(s, x) by {
        let n = index_of_key(t, x);
        lemma_index_of_key(t, x);
        assert(s[n].0 == x);
    }
    assert forall|x: K| has_key(s, x) implies has_key(t, x) by {
        let n = index_of_key(s, x);
        lemma_index_of_key(s, x);
        assert(t[n].0 == x);
    }
    assert forall|x: K| has_key(t, x) && x != s[i].0 implies assoc_map(t)[x]
        == assoc_map(s)[x] by {
        let n = index_of_key(t, x);
        lemma_index_of_key(t, x);
        assert(n != i);
        assert(s[n].0 == x);
        lemma_at_index(s, n);
        lemma_at_index(t, n);
    }
    lemma_at_index(t, i);
}

/// Inserting an entry with a fresh key at any position is inserting it in the
/// map.
pub proof fn lemma_insert_at<K, V>(s: Seq<(K, V)>, p: int, k: K, v: V)
    requires
        unique_keys(s),
        !has_key(s, k),
        0 <= p <= s.len(),
    ensures
        unique_keys(s.insert(p, (k, v))),
        assoc_map(s.insert(p, (k, v))) =~= assoc_map(s).insert(k, v),
{
    let t = s.insert(p, (k, v));
    assert(t.len() == s.len() + 1);
    assert forall|n: int| 0 <= n < s.len() implies (#[trigger] s[n])
        == (if n < p { t[n] } else { t[n + 1] }) by {}
    assert forall|n: int| 0 <= n < s.len() implies s[n].0 != k by {
        if s[n].0 == k {
            assert(has_key(s, k));
        }
    }
    assert(unique_keys(t)) by {
        assert forall|i: int, j: int| 0 <= i < j < t.len() implies (#[trigger] t[i]).0
            != (#[trigger] t[j]).0 by {
            let si = if i < p { i } else { i - 1 };
            let sj = if j < p { j } else { j - 1 };
            if i == p {
                assert(t[j] == s[sj]);
            } else if j == p {
                assert(t[i] == s[si]);
            } else {
                assert(t[i] == s[si]);
                assert(t[j] == s[sj]);
            }
        }
    }
    assert(has_key(t, k)) by {
        assert(t[p].0 == k);
    }
    assert forall|x: K| has_key(s, x) implies has_key(t, x) by {
        let n = index_of_key(s, x);
        lemma_index_of_key(s, x);
        if n < p {
            assert(t[n].0 == x);
        } else {
            assert(t[n + 1].0 == x);
        }
    }
    assert forall|x: K| has_key(t, x) && x != k implies has_key(s, x)
        && assoc_map(t)[x] == assoc_map(s)[x] by {
        let n = index_of_key(t, x);
        lemma_index_of_key(t, x);
        assert(n != p);
        let m = if n < p { n } else { n - 1 };
        assert(s[m] == t[n]);
        assert(has_key(s, x));
        lemma_at_index(t, n);
        lemma_at_index(s, m);
    }
    lemma_at_index(t, p);
}

/// Removing the entry at index `i` is removing its key from the map.
pub proof fn lemma_remove_at<K, V>(s: Seq<(K, V)>, i: int)
    requires
        unique_keys(s),
        0 <= i < s.len(),
    ensures
        unique_keys(s.remove(i)),
        assoc_map(s.remove(i)) =~= assoc_map(s).remove(s[i].0),
{
    let t = s.remove(i);
    assert(t.len() == s.len() - 1);
    assert forall|n: int| 0 <= n < t.len() implies (#[trigger] t[n])
        == (if n < i { s[n] } else { s[n + 1] }) by {}
    assert(unique_keys(t)) by {
        assert forall|a: int, b: int| 0 <= a < b < t.len() implies (#[trigger] t[a]).0
            != (#[trigger] t[b]).0 by {
            let sa = if a < i { a } else { a + 1 };
            let sb = if b < i { b } else { b + 1 };
            assert(t[a] == s[sa]);
            assert(t[b] == s[sb]);
        }
    }
    assert forall|x: K| has_key(t, x) implies has_key(s, x) && x != s[i].0 by {
        let n = index_of_key(t, x);
        lemma_index_of_key(t, x);
        let m = if n < i { n } else { n + 1 };
        assert(s[m] == t[n]);
        if x == s[i].0 {
            assert(s[m].0 == s[i].0);
            assert(m != i);
        }
    }
    assert forall|x: K| has_key(s, x) && x != s[i].0 implies has_key(t, x)
        && assoc_map(t)[x] == assoc_map(s)[x] by {
        let n = index_of_key(s, x);
        lemma_index_of_key(s, x);
        assert(n != i);
        let m = if n < i { n } else { n - 1 };
        assert(t[m] == s[n]);
        assert(has_key(t, x));
        lemma_at_index(t, m);
        lemma_at_index(s, n);
    }
}

/// A key no entry holds maps to nothing.
pub proof fn lemma_absent_key<K, V>(s: Seq<(K, V)>, k: K)
    requires
        !has_key(s, k),
    ensures
        !assoc_map(s).contains_key(k),
        assoc_map(s).remove(k) =~= assoc_map(s),
{
}

/// Two association sequences with the same keys in the same places represent
/// maps over the same domain, entry for entry.
pub proof fn lemma_same_keys<K, V>(s1: Seq<(K, V)>, s2: Seq<(K, V)>)
    requires
        unique_keys(s1),
        s2.len() == s1.len(),
        forall|i: int| 0 <= i < s1.len() ==> (#[trigger] s2[i]).0 == (#[trigger] s1[i]).0,
    ensures
        unique_keys(s2),
        assoc_map(s2).dom() =~= assoc_map(s1).dom(),
        forall|i: int|
            0 <= i < s1.len() ==> assoc_map(s2)[(#[trigger] s1[i]).0] == s2[i].1,
{
    assert(unique_keys(s2)) by {
        assert forall|i: int, j: int| 0 <= i < j < s2.len() implies (#[trigger] s2[i]).0
            != (#[trigger] s2[j]).0 by {
            assert(s2[i].0 == s1[i].0);
            assert(s2[j].0 == s1[j].0);
        }
    }
    assert forall|x: K| has_key(s1, x) implies has_key(s2, x) by {
        let n = index_of_key(s1, x);
        lemma_index_of_key(s1, x);
        assert(s2[n].0 == x);
    }
    assert forall|x: K| has_key(s2, x) implies has_key(s1, x) by {
        let n = index_of_key(s2, x);
        lemma_index_of_key(s2, x);
        assert(s1[n].0 == x);
    }
    assert forall|i: int| 0 <= i < s1.len() implies assoc_map(s2)[(#[trigger] s1[i]).0]
        == s2[i].1 by {
        assert(s2[i].0 == s1[i].0);
        lemma_at_index(s2, i);
    }
}

} // verus!
