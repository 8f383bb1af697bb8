//! Association sequences viewed as maps.
//!
//! The store keeps its keyed collections as vectors of entries with
//! pairwise-distinct keys. This module gives the common abstraction: the
//! map a sequence denotes (later entries win), and how that map changes
//! under push, update and remove.

use vstd::prelude::*;

verus! {

/// The map denoted by an entry sequence: `key` extracts an entry's key,
/// `val` what it stands for. Later entries shadow earlier ones.
pub open spec fn assoc_map<T, K, V>(s: Seq<T>, key: spec_fn(T) -> K, val: spec_fn(T) -> V) -> Map<
    K,
    V,
>
    decreases s.len(),
{
    if s.len() == 0 {
        Map::empty()
    } else {
        assoc_map(s.drop_last(), key, val).insert(key(s.last()), val(s.last()))
    }
}

/// Pairwise-distinct keys.
pub open spec fn keys_unique<T, K>(s: Seq<T>, key: spec_fn(T) -> K) -> bool {
    forall|i: int, j: int| 0 <= i < j < s.len() ==> key(s[i]) != key(s[j])
}

/// The denoted map contains exactly the keys that occur in the sequence.
pub proof fn lemma_assoc_contains_one<T, K, V>(
    s: Seq<T>,
    key: spec_fn(T) -> K,
    val: spec_fn(T) -> V,
    k: K,
)
    ensures
        assoc_map(s, key, val).contains_key(k) <==> exists|i: int|
            0 <= i < s.len() && key(#[trigger] s[i]) == k,
    decreases s.len(),
{
    if s.len() > 0 {
        lemma_assoc_contains_one(s.drop_last(), key, val, k);
        if key(s.last()) == k {
            assert(key(s[s.len() - 1]) == k);
        } else {
            if exists|i: int| 0 <= i < s.len() && key(#[trigger] s[i]) == k {
                let i = choose|i: int| 0 <= i < s.len() && key(#[trigger] s[i]) == k;
                assert(i < s.len() - 1);
                assert(key(s.drop_last()[i]) == k);
            }
            if exists|i: int| 0 <= i < s.drop_last().len() && key(#[trigger] s.drop_last()[i])
                == k {
                let i = choose|i: int|
                    0 <= i < s.drop_last().len() && key(#[trigger] s.drop_last()[i]) == k;
                assert(key(s[i]) == k);
            }
        }
    }
}

/// With distinct keys, each entry is what the map holds at its key.
pub proof fn lemma_assoc_index<T, K, V>(
    s: Seq<T>,
    key: spec_fn(T) -> K,
    val: spec_fn(T) -> V,
    i: int,
)
    requires
        keys_unique(s, key),
        0 <= i < s.len(),
    ensures
        assoc_map(s, key, val).contains_key(key(s[i])),
        assoc_map(s, key, val)[key(s[i])] == val(s[i]),
    decreases s.len(),
{
    if i == s.len() - 1 {
    } else {
        lemma_assoc_index(s.drop_last(), key, val, i);
        assert(key(s[i]) != key(s.last()));
    }
}

/// Appending an entry inserts its binding.
pub proof fn lemma_assoc_push<T, K, V>(
    s: Seq<T>,
    key: spec_fn(T) -> K,
    val: spec_fn(T) -> V,
    x: T,
)
    ensures
        assoc_map(s.push(x), key, val) == assoc_map(s, key, val).insert(key(x), val(x)),
{
    assert(s.push(x).drop_last() =~= s);
}

/// Replacing an entry by one with the same key updates its binding.
pub proof fn lemma_assoc_update<T, K, V>(
    s: Seq<T>,
    key: spec_fn(T) -> K,
    val: spec_fn(T) -> V,
    i: int,
    x: T,
)
    requires
        keys_unique(s, key),
        0 <= i < s.len(),
        key(x) == key(s[i]),
    ensures
        assoc_map(s.update(i, x), key, val) == assoc_map(s, key, val).insert(key(x), val(x)),
    decreases s.len(),
{
    let su = s.update(i, x);
    if i == s.len() - 1 {
        assert(su.drop_last() =~= s.drop_last());
        assert(su.last() == x);
    } else {
        lemma_assoc_update(s.drop_last(), key, val, i, x);
        assert(su.drop_last() =~= s.drop_last().update(i, x));
        assert(su.last() == s.last());
        assert(key(s[i]) != key(s.last()));
        assert(assoc_map(su, key, val) =~= assoc_map(s, key, val).insert(key(x), val(x)));
    }
}

/// Inserting an entry under a fresh key anywhere inserts its binding.
pub proof fn lemma_assoc_insert<T, K, V>(
    s: Seq<T>,
    key: spec_fn(T) -> K,
    val: spec_fn(T) -> V,
    i: int,
    x: T,
)
    requires
        0 <= i <= s.len(),
        forall|j: int| 0 <= j < s.len() ==> key(#[trigger] s[j]) != key(x),
    ensures
        assoc_map(s.insert(i, x), key, val) == assoc_map(s, key, val).insert(key(x), val(x)),
    decreases s.len(),
{
    let si = s.insert(i, x);
    if i == s.len() {
        assert(si =~= s.push(x));
        lemma_assoc_push(s, key, val, x);
    } else {
        assert(si.last() == s.last());
        assert(si.drop_last() =~= s.drop_last().insert(i, x));
        lemma_assoc_insert(s.drop_last(), key, val, i, x);
        assert(key(s[s.len() - 1]) != key(x));
        assert(assoc_map(si, key, val) =~= assoc_map(s, key, val).insert(key(x), val(x)));
    }
}

/// With distinct keys the denoted map has exactly one binding per entry.
pub proof fn lemma_assoc_dom_len<T, K, V>(s: Seq<T>, key: spec_fn(T) -> K, val: spec_fn(T) -> V)
    requires
        keys_unique(s, key),
    ensures
        assoc_map(s, key, val).dom().finite(),
        assoc_map(s, key, val).dom().len() == s.len(),
    decreases s.len(),
{
    if s.len() == 0 {
        assert(assoc_map(s, key, val).dom() =~= Set::<K>::empty());
    } else {
        lemma_assoc_dom_len(s.drop_last(), key, val);
        lemma_assoc_contains_one(s.drop_last(), key, val, key(s.last()));
        assert forall|i: int| 0 <= i < s.drop_last().len() implies key(#[trigger] s[i]) != key(
            s.last(),
        ) by {
            assert(key(s[i]) != key(s[s.len() - 1]));
        }
        assert(!assoc_map(s.drop_last(), key, val).contains_key(key(s.last())));
        assert(assoc_map(s, key, val).dom() =~= assoc_map(s.drop_last(), key, val).dom().insert(
            key(s.last()),
        ));
    }
}

/// Two finite maps of one size, one included in the other, are equal.
pub proof fn lemma_map_subset_eq<K, V>(m1: Map<K, V>, m2: Map<K, V>)
    requires
        m1.dom().finite(),
        m2.dom().finite(),
        m1.dom().len() == m2.dom().len(),
        forall|k: K| #[trigger] m1.contains_key(k) ==> m2.contains_key(k) && m1[k] == m2[k],
    ensures
        m1 == m2,
{
    assert(m1.dom().subset_of(m2.dom()));
    assert forall|k: K| #[trigger] m2.contains_key(k) implies m1.contains_key(k) by {
        if !m1.contains_key(k) {
            assert(m1.dom().subset_of(m2.dom().remove(k)));
            vstd::set_lib::lemma_len_subset(m1.dom(), m2.dom().remove(k));
            assert(m2.dom().remove(k).len() == m2.dom().len() - 1);
        }
    }
    assert(m1 =~= m2);
}

/// Entry sequences with the same keys and values in the same places
/// denote the same map.
pub proof fn lemma_assoc_pointwise<T, K, V>(
    s1: Seq<T>,
    s2: Seq<T>,
    key: spec_fn(T) -> K,
    val: spec_fn(T) -> V,
)
    requires
        s1.len() == s2.len(),
        forall|k: int|
            0 <= k < s1.len() ==> key(#[trigger] s1[k]) == key(s2[k]) && val(s1[k]) == val(s2[k]),
    ensures
        assoc_map(s1, key, val) == assoc_map(s2, key, val),
    decreases s1.len(),
{
    if s1.len() > 0 {
        assert forall|k: int| 0 <= k < s1.drop_last().len() implies key(
            #[trigger] s1.drop_last()[k],
        ) == key(s2.drop_last()[k]) && val(s1.drop_last()[k]) == val(s2.drop_last()[k]) by {
            assert(s1.drop_last()[k] == s1[k]);
            assert(s2.drop_last()[k] == s2[k]);
        }
        lemma_assoc_pointwise(s1.drop_last(), s2.drop_last(), key, val);
        assert(key(s1[s1.len() - 1]) == key(s2[s1.len() - 1]));
        assert(val(s1[s1.len() - 1]) == val(s2[s1.len() - 1]));
    }
}


} // verus!
