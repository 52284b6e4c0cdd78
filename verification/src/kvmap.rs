//! A sequence of key-value pairs with pairwise-distinct keys, abstracted as
//! a `Map`.  Both the assembly table and the fanout bus store their entries
//! this way; these spec functions and lemmas connect the concrete sequence
//! to the map the contracts speak of.

use vstd::prelude::*;

verus! {

/// Some pair of `s` carries the key `k`.
pub open spec fn has_key<K, V>(s: Seq<(K, V)>, k: K) -> bool {
    exists|i: int| 0 <= i < s.len() && (#[trigger] s[i]).0 == k
}

/// The position of the pair carrying `k` (unique when keys are distinct).
pub open spec fn index_of<K, V>(s: Seq<(K, V)>, k: K) -> int {
    choose|i: int| 0 <= i < s.len() && (#[trigger] s[i]).0 == k
}

/// No two pairs carry the same key.
pub open spec fn keys_unique<K, V>(s: Seq<(K, V)>) -> bool {
    forall|i: int, j: int|
        #![trigger s[i], s[j]]
        0 <= i < j < s.len() ==> s[i].0 != s[j].0
}

/// The mapping the pair sequence represents.
pub open spec fn map_of<K, V>(s: Seq<(K, V)>) -> Map<K, V> {
    Map::new(|k: K| has_key(s, k), |k: K| s[index_of(s, k)].1)
}

pub proof fn lemma_index_of<K, V>(s: Seq<(K, V)>, k: K)
    requires
        has_key(s, k),
    ensures
        0 <= index_of(s, k) < s.len(),
        s[index_of(s, k)].0 == k,
{
}

pub proof fn lemma_index_of_unique<K, V>(s: Seq<(K, V)>, k: K, i: int)
    requires
        keys_unique(s),
        0 <= i < s.len(),
        s[i].0 == k,
    ensures
        index_of(s, k) == i,
{
    assert(has_key(s, k));
    lemma_index_of(s, k);
    let i2 = index_of(s, k);
    if i2 < i {
        assert(s[i2].0 != s[i].0);
    } else if i2 > i {
        assert(s[i].0 != s[i2].0);
    }
}

pub proof fn lemma_map_of_index<K, V>(s: Seq<(K, V)>, i: int)
    requires
        keys_unique(s),
        0 <= i < s.len(),
    ensures
        has_key(s, s[i].0),
        map_of(s)[s[i].0] == s[i].1,
{
    assert(has_key(s, s[i].0));
    lemma_index_of_unique(s, s[i].0, i);
}

pub proof fn lemma_map_of_empty<K, V>()
    ensures
        map_of(Seq::<(K, V)>::empty()) == Map::<K, V>::empty(),
{
    assert(map_of(Seq::<(K, V)>::empty()) =~= Map::<K, V>::empty());
}

/// Appending a pair with a fresh key inserts it into the map.
pub proof fn lemma_map_of_push<K, V>(s: Seq<(K, V)>, k: K, v: V)
    requires
        keys_unique(s),
        !has_key(s, k),
    ensures
        keys_unique(s.push((k, v))),
        map_of(s.push((k, v))) == map_of(s).insert(k, v),
{
    let t = s.push((k, v));
    assert forall|i: int, j: int| #![trigger t[i], t[j]] 0 <= i < j < t.len() implies t[i].0
        != t[j].0 by {
        if j == s.len() {
            if t[i].0 == k {
                assert(s[i].0 == k);
                assert(has_key(s, k));
            }
        } else {
            assert(s[i].0 != s[j].0);
        }
    }
    assert forall|k2: K| #[trigger] has_key(t, k2) implies has_key(s, k2) || k2 == k by {
        let i = choose|i: int| 0 <= i < t.len() && (#[trigger] t[i]).0 == k2;
        if i < s.len() {
            assert(s[i].0 == k2);
        }
    }
    assert forall|k2: K| #[trigger] has_key(s, k2) implies has_key(t, k2) by {
        let i = choose|i: int| 0 <= i < s.len() && (#[trigger] s[i]).0 == k2;
        assert(t[i].0 == k2);
    }
    assert(t[s.len() as int].0 == k);
    assert(has_key(t, k));
    assert forall|k2: K| #[trigger] has_key(t, k2) implies map_of(t)[k2] == map_of(s).insert(
        k,
        v,
    )[k2] by {
        if k2 == k {
            lemma_index_of_unique(t, k, s.len() as int);
        } else {
            assert(has_key(s, k2));
            let i = index_of(s, k2);
            lemma_index_of(s, k2);
            assert(t[i].0 == k2);
            lemma_index_of_unique(t, k2, i);
        }
    }
    assert(map_of(t) =~= map_of(s).insert(k, v));
}

/// Removing the pair at position `i` removes its key from the map.
pub proof fn lemma_map_of_remove<K, V>(s: Seq<(K, V)>, i: int)
    requires
        keys_unique(s),
        0 <= i < s.len(),
    ensures
        keys_unique(s.remove(i)),
        !has_key(s.remove(i), s[i].0),
        map_of(s.remove(i)) == map_of(s).remove(s[i].0),
{
    let k = s[i].0;
    let t = s.remove(i);
    assert forall|a: int, b: int| #![trigger t[a], t[b]] 0 <= a < b < t.len() implies t[a].0
        != t[b].0 by {
        let a2 = if a < i { a } else { a + 1 };
        let b2 = if b < i { b } else { b + 1 };
        assert(t[a] == s[a2] && t[b] == s[b2]);
        assert(s[a2].0 != s[b2].0);
    }
    assert forall|k2: K| #[trigger] has_key(t, k2) implies has_key(s, k2) && k2 != k by {
        let j = choose|j: int| 0 <= j < t.len() && (#[trigger] t[j]).0 == k2;
        let j2 = if j < i { j } else { j + 1 };
        assert(t[j] == s[j2]);
        assert(s[j2].0 == k2);
        if j2 < i {
            assert(s[j2].0 != s[i].0);
        } else {
            assert(s[i].0 != s[j2].0);
        }
    }
    assert forall|k2: K| #[trigger] has_key(s, k2) && k2 != k implies has_key(t, k2) by {
        let j = choose|j: int| 0 <= j < s.len() && (#[trigger] s[j]).0 == k2;
        lemma_index_of_unique(s, k2, j);
        if j < i {
            assert(t[j].0 == k2);
        } else {
            assert(j > i);
            assert(t[j - 1].0 == k2);
        }
    }
    assert forall|k2: K| #[trigger] has_key(t, k2) implies map_of(t)[k2] == map_of(s)[k2] by {
        let j = index_of(t, k2);
        lemma_index_of(t, k2);
        let j2 = if j < i { j } else { j + 1 };
        assert(t[j] == s[j2]);
        lemma_index_of_unique(s, k2, j2);
    }
    assert(map_of(t) =~= map_of(s).remove(k));
}

/// Two pair sequences with the same keys in the same positions agree on
/// their domains and indexes.
pub proof fn lemma_map_of_same_keys<K, V>(s: Seq<(K, V)>, t: Seq<(K, V)>)
    requires
        keys_unique(s),
        t.len() == s.len(),
        forall|i: int| 0 <= i < s.len() ==> (#[trigger] t[i]).0 == s[i].0,
    ensures
        keys_unique(t),
        forall|k: K| #[trigger] has_key(t, k) <==> has_key(s, k),
        forall|k: K| #[trigger] has_key(s, k) ==> index_of(t, k) == index_of(s, k),
{
    assert forall|i: int, j: int| #![trigger t[i], t[j]] 0 <= i < j < t.len() implies t[i].0
        != t[j].0 by {
        assert(s[i].0 != s[j].0);
    }
    assert forall|k: K| #[trigger] has_key(t, k) <==> has_key(s, k) by {
        if has_key(t, k) {
            let i = choose|i: int| 0 <= i < t.len() && (#[trigger] t[i]).0 == k;
            assert(s[i].0 == k);
        }
        if has_key(s, k) {
            let i = choose|i: int| 0 <= i < s.len() && (#[trigger] s[i]).0 == k;
            assert(t[i].0 == k);
        }
    }
    assert forall|k: K| #[trigger] has_key(s, k) implies index_of(t, k) == index_of(s, k) by {
        let i = index_of(s, k);
        lemma_index_of(s, k);
        assert(t[i].0 == k);
        lemma_index_of_unique(t, k, i);
    }
}

/// With distinct keys, the map has exactly one entry per pair.
pub proof fn lemma_map_of_dom_len<K, V>(s: Seq<(K, V)>)
    requires
        keys_unique(s),
    ensures
        map_of(s).dom().finite(),
        map_of(s).dom().len() == s.len(),
    decreases s.len(),
{
    if s.len() == 0 {
        lemma_map_of_empty::<K, V>();
        assert(map_of(s) =~= map_of(Seq::<(K, V)>::empty()));
    } else {
        let s0 = s.drop_last();
        let last = s.last();
        assert(forall|i: int| 0 <= i < s0.len() ==> s0[i] == s[i]);
        assert forall|i: int, j: int| #![trigger s0[i], s0[j]] 0 <= i < j < s0.len() implies s0[i].0
            != s0[j].0 by {
            assert(s[i].0 != s[j].0);
        }
        if has_key(s0, last.0) {
            let i = choose|i: int| 0 <= i < s0.len() && (#[trigger] s0[i]).0 == last.0;
            assert(s[i].0 == s[s.len() - 1].0);
            assert(false);
        }
        lemma_map_of_dom_len(s0);
        lemma_map_of_push(s0, last.0, last.1);
        assert(s0.push((last.0, last.1)) =~= s);
        assert(map_of(s).dom() =~= map_of(s0).dom().insert(last.0));
        assert(!map_of(s0).dom().contains(last.0));
    }
}

} // verus!
