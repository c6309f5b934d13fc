//! Keyed sequences seen as finite maps.
//!
//! Every entity family of the configuration state, the worker registry and
//! the fan-out tracker is held in a `Vec` whose entries carry their own key,
//! with the keys pairwise distinct. These definitions give such a sequence
//! its map abstraction and the facts the library's proofs need about it.

use vstd::prelude::*;

verus! {

/// The map abstraction of a keyed sequence: later entries win, though under
/// `unique_keys` every key occurs at most once.
pub open spec fn keyed_map<K, V>(s: Seq<V>, key: spec_fn(V) -> K) -> Map<K, V>
    decreases s.len(),
{
    if s.len() == 0 {
        Map::empty()
    } else {
        keyed_map(s.drop_last(), key).insert(key(s.last()), s.last())
    }
}

/// No two entries of the sequence carry the same key.
pub open spec fn unique_keys<K, V>(s: Seq<V>, key: spec_fn(V) -> K) -> bool {
    forall|i: int, j: int| 0 <= i < j < s.len() ==> key(#[trigger] s[i]) != key(#[trigger] s[j])
}

/// A key is in the map abstraction exactly when some entry carries it.
pub proof fn lemma_keyed_map_contains<K, V>(s: Seq<V>, key: spec_fn(V) -> K)
    ensures
        forall|k: K|
            #[trigger] keyed_map(s, key).contains_key(k) <==> exists|i: int|
                0 <= i < s.len() && key(#[trigger] s[i]) == k,
    decreases s.len(),
{
    if s.len() > 0 {
        lemma_keyed_map_contains(s.drop_last(), key);
        assert forall|k: K| #[trigger]
            keyed_map(s, key).contains_key(k) implies exists|i: int|
            0 <= i < s.len() && key(#[trigger] s[i]) == k by {
            if k == key(s.last()) {
                assert(key(s[s.len() - 1]) == k);
            } else {
                assert(keyed_map(s.drop_last(), key).contains_key(k));
                assert(exists|i: int|
                    0 <= i < s.drop_last().len() && key(#[trigger] s.drop_last()[i]) == k);
                let i = choose|i: int|
                    0 <= i < s.drop_last().len() && key(#[trigger] s.drop_last()[i]) == k;
                assert(s.drop_last()[i] == s[i]);
            }
        }
        assert forall|k: K|
            (exists|i: int| 0 <= i < s.len() && key(#[trigger] s[i]) == k) implies
            keyed_map(s, key).contains_key(k) by {
            let i = choose|i: int| 0 <= i < s.len() && key(#[trigger] s[i]) == k;
            if i < s.len() - 1 {
                assert(s.drop_last()[i] == s[i]);
                assert(exists|j: int|
                    0 <= j < s.drop_last().len() && key(#[trigger] s.drop_last()[j]) == k);
                assert(keyed_map(s.drop_last(), key).contains_key(k));
            } else {
                assert(k == key(s.last()));
            }
        }
    }
}

/// Under unique keys, each entry is the value the map gives its key.
pub proof fn lemma_keyed_map_index<K, V>(s: Seq<V>, key: spec_fn(V) -> K)
    requires
        unique_keys(s, key),
    ensures
        forall|i: int| 0 <= i < s.len() ==>
            keyed_map(s, key).contains_key(key(#[trigger] s[i]))
            && keyed_map(s, key)[key(s[i])] == s[i],
    decreases s.len(),
{
    if s.len() > 0 {
        assert forall|i: int, j: int| 0 <= i < j < s.drop_last().len() implies
            key(#[trigger] s.drop_last()[i]) != key(#[trigger] s.drop_last()[j]) by {
            assert(s.drop_last()[i] == s[i]);
            assert(s.drop_last()[j] == s[j]);
        }
        lemma_keyed_map_index(s.drop_last(), key);
        assert forall|i: int| 0 <= i < s.len() implies
            keyed_map(s, key).contains_key(key(#[trigger] s[i]))
            && keyed_map(s, key)[key(s[i])] == s[i] by {
            if i < s.len() - 1 {
                assert(s.drop_last()[i] == s[i]);
                assert(key(s[i]) != key(s[s.len() - 1]));
            }
        }
    }
}

/// Appending an entry inserts its key.
pub proof fn lemma_keyed_map_push<K, V>(s: Seq<V>, key: spec_fn(V) -> K, v: V)
    ensures
        keyed_map(s.push(v), key) == keyed_map(s, key).insert(key(v), v),
{
    assert(s.push(v).drop_last() =~= s);
    assert(s.push(v).last() == v);
}

/// Removing the entry at `i` removes its key, when keys are unique.
pub proof fn lemma_keyed_map_remove<K, V>(s: Seq<V>, key: spec_fn(V) -> K, i: int)
    requires
        unique_keys(s, key),
        0 <= i < s.len(),
    ensures
        unique_keys(s.remove(i), key),
        keyed_map(s.remove(i), key) == keyed_map(s, key).remove(key(s[i])),
    decreases s.len(),
{
    let k = key(s[i]);
    assert forall|a: int, b: int| 0 <= a < b < s.remove(i).len() implies
        key(#[trigger] s.remove(i)[a]) != key(#[trigger] s.remove(i)[b]) by {
        assert(s.remove(i)[a] == if a < i { s[a] } else { s[a + 1] });
        assert(s.remove(i)[b] == if b < i { s[b] } else { s[b + 1] });
    }
    if i == s.len() - 1 {
        assert(s.remove(i) =~= s.drop_last());
        lemma_keyed_map_contains(s.drop_last(), key);
        assert forall|j: int| 0 <= j < s.drop_last().len() implies key(#[trigger] s.drop_last()[j]) != k by {
            assert(s.drop_last()[j] == s[j]);
        }
        assert(!keyed_map(s.drop_last(), key).contains_key(k));
        assert(keyed_map(s.drop_last(), key).insert(k, s.last()).remove(k)
            =~= keyed_map(s.drop_last(), key));
    } else {
        assert forall|a: int, b: int| 0 <= a < b < s.drop_last().len() implies
            key(#[trigger] s.drop_last()[a]) != key(#[trigger] s.drop_last()[b]) by {
            assert(s.drop_last()[a] == s[a]);
            assert(s.drop_last()[b] == s[b]);
        }
        lemma_keyed_map_remove(s.drop_last(), key, i);
        assert(s.remove(i).drop_last() =~= s.drop_last().remove(i));
        assert(s.remove(i).last() == s.last());
        assert(s.drop_last()[i] == s[i]);
        // keys of the removed entry and of the last entry differ
        assert(key(s[i]) != key(s[s.len() - 1]));
        assert(keyed_map(s.remove(i), key)
            == keyed_map(s.drop_last(), key).remove(k).insert(key(s.last()), s.last()));
        assert(keyed_map(s.drop_last(), key).remove(k).insert(key(s.last()), s.last())
            =~= keyed_map(s.drop_last(), key).insert(key(s.last()), s.last()).remove(k));
    }
}

} // verus!
