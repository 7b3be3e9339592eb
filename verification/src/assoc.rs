//! Sequences of keyed entries, read as maps.
//!
//! A calendar keeps its items and its deletion marks in vectors and promises
//! that no identity occurs twice; a cache does the same with its calendars
//! and their URLs. These definitions say which map such a vector stands for,
//! and how pushing, removing and replacing entries changes that map.

use vstd::prelude::*;

verus! {

/// Whether no key occurs twice.
pub open spec fn distinct_keys<K, V>(s: Seq<(K, V)>) -> bool {
    forall|i: int, j: int| 0 <= i < j < s.len() ==> (#[trigger] s[i]).0 != (#[trigger] s[j]).0
}

/// Whether some entry has the key.
pub open spec fn has_key<K, V>(s: Seq<(K, V)>, k: K) -> bool {
    exists|i: int| 0 <= i < s.len() && (#[trigger] s[i]).0 == k
}

/// The position of an entry with the key, if there is one.
pub open spec fn key_index<K, V>(s: Seq<(K, V)>, k: K) -> int {
    choose|i: int| 0 <= i < s.len() && (#[trigger] s[i]).0 == k
}

/// The map that a sequence of entries stands for.
pub open spec fn as_map<K, V>(s: Seq<(K, V)>) -> Map<K, V> {
    Map::new(|k: K| has_key(s, k), |k: K| s[key_index(s, k)].1)
}

/// With distinct keys, every entry of the sequence is an entry of the map.
pub proof fn lemma_entry<K, V>(s: Seq<(K, V)>, i: int)
    requires
        distinct_keys(s),
        0 <= i < s.len(),
    ensures
        has_key(s, s[i].0),
        key_index(s, s[i].0) == i,
        as_map(s).dom().contains(s[i].0),
        as_map(s)[s[i].0] == s[i].1,
{
    assert(has_key(s, s[i].0));
    let j = key_index(s, s[i].0);
    assert(0 <= j < s.len() && s[j].0 == s[i].0);
    if j < i {
        assert(s[j].0 != s[i].0);
    } else if i < j {
        assert(s[i].0 != s[j].0);
    }
}

/// The empty sequence stands for the empty map.
pub proof fn lemma_empty<K, V>(s: Seq<(K, V)>)
    requires
        s.len() == 0,
    ensures
        distinct_keys(s),
        as_map(s) =~= Map::<K, V>::empty(),
{
}

/// Pushing an entry with a fresh key inserts it into the map.
pub proof fn lemma_push<K, V>(s: Seq<(K, V)>, e: (K, V))
    requires
        distinct_keys(s),
        !has_key(s, e.0),
    ensures
        distinct_keys(s.push(e)),
        as_map(s.push(e)) =~= as_map(s).insert(e.0, e.1),
{
    let t = s.push(e);
    assert forall|i: int, j: int| 0 <= i < j < t.len() implies (#[trigger] t[i]).0 != (
    #[trigger] t[j]).0 by {
        if j < s.len() {
            assert(s[i].0 != s[j].0);
        } else {
            assert(t[i] == s[i]);
            if s[i].0 == e.0 {
                assert(has_key(s, e.0));
            }
        }
    }
    assert forall|k: K| has_key(t, k) <==> (k == e.0 || has_key(s, k)) by {
        if has_key(t, k) {
            let i = key_index(t, k);
            if i < s.len() {
                assert(s[i].0 == k);
            }
        }
        if k == e.0 {
            assert(t[s.len() as int].0 == k);
        }
        if has_key(s, k) {
            let i = key_index(s, k);
            assert(t[i].0 == k);
        }
    }
    assert forall|k: K| has_key(t, k) implies as_map(t)[k] == as_map(s).insert(e.0, e.1)[k] by {
        if k == e.0 {
            lemma_entry(t, s.len() as int);
        } else {
            let i = key_index(s, k);
            assert(t[i] == s[i]);
            lemma_entry(t, i);
            lemma_entry(s, i);
        }
    }
}

/// Removing the entry at an index removes its key from the map.
pub proof fn lemma_remove<K, V>(s: Seq<(K, V)>, i: int)
    requires
        distinct_keys(s),
        0 <= i < s.len(),
    ensures
        distinct_keys(s.remove(i)),
        !has_key(s.remove(i), s[i].0),
        as_map(s.remove(i)) =~= as_map(s).remove(s[i].0),
{
    let t = s.remove(i);
    assert forall|a: int, b: int| 0 <= a < b < t.len() implies (#[trigger] t[a]).0 != (
    #[trigger] t[b]).0 by {
        let a2 = if a < i { a } else { a + 1 };
        let b2 = if b < i { b } else { b + 1 };
        assert(t[a] == s[a2]);
        assert(t[b] == s[b2]);
        assert(s[a2].0 != s[b2].0);
    }
    assert forall|k: K| has_key(t, k) <==> (k != s[i].0 && has_key(s, k)) by {
        if has_key(t, k) {
            let a = key_index(t, k);
            let a2 = if a < i { a } else { a + 1 };
            assert(t[a] == s[a2]);
            assert(s[a2].0 == k);
            if a2 < i {
                assert(s[a2].0 != s[i].0);
            } else {
                assert(s[i].0 != s[a2].0);
            }
        }
        if k != s[i].0 && has_key(s, k) {
            let a2 = key_index(s, k);
            let a = if a2 < i { a2 } else { a2 - 1 };
            assert(t[a] == s[a2]);
            assert(t[a].0 == k);
        }
    }
    assert forall|k: K| has_key(t, k) implies as_map(t)[k] == as_map(s)[k] by {
        let a = key_index(t, k);
        let a2 = if a < i { a } else { a + 1 };
        assert(t[a] == s[a2]);
        lemma_entry(t, a);
        lemma_entry(s, a2);
    }
}

/// Replacing the value at an index, under the same key, replaces it in the map.
pub proof fn lemma_update<K, V>(s: Seq<(K, V)>, i: int, v: V)
    requires
        distinct_keys(s),
        0 <= i < s.len(),
    ensures
        distinct_keys(s.update(i, (s[i].0, v))),
        as_map(s.update(i, (s[i].0, v))) =~= as_map(s).insert(s[i].0, v),
{
    let t = s.update(i, (s[i].0, v));
    assert forall|a: int, b: int| 0 <= a < b < t.len() implies (#[trigger] t[a]).0 != (
    #[trigger] t[b]).0 by {
        assert(t[a].0 == s[a].0);
        assert(t[b].0 == s[b].0);
        assert(s[a].0 != s[b].0);
    }
    assert forall|k: K| has_key(t, k) <==> has_key(s, k) by {
        if has_key(t, k) {
            let a = key_index(t, k);
            assert(s[a].0 == k);
        }
        if has_key(s, k) {
            let a = key_index(s, k);
            assert(t[a].0 == k);
        }
    }
    lemma_entry(s, i);
    assert forall|k: K| has_key(t, k) implies as_map(t)[k] == as_map(s).insert(s[i].0, v)[k] by {
        let a = key_index(s, k);
        assert(t[a].0 == k);
        lemma_entry(t, a);
        lemma_entry(s, a);
    }
}

} // verus!
