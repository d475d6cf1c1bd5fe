//! Association lists and the maps they mean.
//!
//! Both the path index and the tag map of an entry are stored as lists of
//! key-value pairs with pairwise distinct keys. This module gives such a
//! list its meaning as a `Map` — a later pair overrides an earlier one with
//! the same key — and proves how updating, appending and removing a pair
//! change that map.

use vstd::prelude::*;

verus! {

/// The map described by an association list; a later pair overrides an
/// earlier one with the same key.
pub open spec fn pairs_map<K, V>(l: Seq<(K, V)>) -> Map<K, V>
    decreases l.len(),
{
    if l.len() == 0 {
        Map::empty()
    } else {
        pairs_map(l.drop_last()).insert(l.last().0, l.last().1)
    }
}

/// No two pairs of the list carry the same key.
pub open spec fn pair_keys_unique<K, V>(l: Seq<(K, V)>) -> bool {
    forall|i: int, j: int| 0 <= i < j < l.len() ==> (#[trigger] l[i]).0 != (#[trigger] l[j]).0
}

/// With unique keys, the map of an association list holds exactly the
/// listed pairs.
pub proof fn lemma_pairs_map_char<K, V>(l: Seq<(K, V)>)
    requires
        pair_keys_unique(l),
    ensures
        forall|k: K| #[trigger]
            pairs_map(l).contains_key(k) ==> exists|i: int|
                0 <= i < l.len() && (#[trigger] l[i]).0 == k,
        forall|i: int|
            0 <= i < l.len() ==> pairs_map(l).contains_key((#[trigger] l[i]).0) && pairs_map(
                l,
            ).index(l[i].0) == l[i].1,
    decreases l.len(),
{
    if l.len() > 0 {
        let dl = l.drop_last();
        assert(pair_keys_unique(dl)) by {
            assert(forall|i: int, j: int|
                0 <= i < j < dl.len() ==> (#[trigger] dl[i]).0 == l[i].0 && (#[trigger] dl[j]).0
                    == l[j].0);
        }
        lemma_pairs_map_char(dl);
        assert(forall|i: int| 0 <= i < l.len() - 1 ==> (#[trigger] l[i]).0 == dl[i].0 && l[i].1
            == dl[i].1);
        assert(forall|i: int| 0 <= i < l.len() - 1 ==> (#[trigger] l[i]).0 != l[l.len() - 1].0);
        assert forall|k: K| #[trigger] pairs_map(l).contains_key(k) implies exists|i: int|
            0 <= i < l.len() && (#[trigger] l[i]).0 == k by {
            if k == l.last().0 {
                assert(0 <= l.len() - 1 < l.len() && l[l.len() - 1].0 == k);
            } else {
                assert(pairs_map(dl).contains_key(k));
                let i = choose|i: int| 0 <= i < dl.len() && (#[trigger] dl[i]).0 == k;
                assert(l[i].0 == k);
            }
        }
    }
}

/// Replacing the value at an already-present key updates the map in place.
pub proof fn lemma_pairs_update<K, V>(l: Seq<(K, V)>, i: int, k: K, v: V)
    requires
        pair_keys_unique(l),
        0 <= i < l.len(),
        l[i].0 == k,
    ensures
        pair_keys_unique(l.update(i, (k, v))),
        pairs_map(l.update(i, (k, v))) == pairs_map(l).insert(k, v),
    decreases l.len(),
{
    let l2 = l.update(i, (k, v));
    assert(pair_keys_unique(l2)) by {
        assert(forall|j: int| 0 <= j < l.len() && j != i ==> (#[trigger] l2[j]).0 == l[j].0);
        assert(l2[i].0 == l[i].0);
    }
    let dl = l.drop_last();
    assert(pair_keys_unique(dl)) by {
        assert(forall|j: int| 0 <= j < dl.len() ==> (#[trigger] dl[j]).0 == l[j].0);
    }
    if i == l.len() - 1 {
        assert(l2.drop_last() =~= dl);
        assert(l2.last() == (k, v));
        assert(pairs_map(l2) == pairs_map(dl).insert(k, v));
        assert(pairs_map(l) == pairs_map(dl).insert(k, l[i].1));
        assert(pairs_map(dl).insert(k, l[i].1).insert(k, v) =~= pairs_map(dl).insert(k, v));
    } else {
        assert(l2.drop_last() =~= dl.update(i, (k, v)));
        assert(l2.last() == l.last());
        lemma_pairs_update(dl, i, k, v);
        let a = l.last();
        assert(a.0 != k);
        assert(pairs_map(l2) == pairs_map(dl).insert(k, v).insert(a.0, a.1));
        assert(pairs_map(dl).insert(k, v).insert(a.0, a.1) =~= pairs_map(dl).insert(
            a.0,
            a.1,
        ).insert(k, v));
        assert(pairs_map(l).insert(k, v) == pairs_map(dl).insert(a.0, a.1).insert(k, v));
    }
}

/// Removing the pair at an already-present key removes it from the map.
pub proof fn lemma_pairs_remove<K, V>(l: Seq<(K, V)>, i: int)
    requires
        pair_keys_unique(l),
        0 <= i < l.len(),
    ensures
        pair_keys_unique(l.remove(i)),
        pairs_map(l.remove(i)) == pairs_map(l).remove(l[i].0),
    decreases l.len(),
{
    let k = l[i].0;
    let l2 = l.remove(i);
    assert(pair_keys_unique(l2)) by {
        assert(forall|j: int|
            0 <= j < l2.len() ==> (#[trigger] l2[j]).0 == if j < i {
                l[j].0
            } else {
                l[j + 1].0
            });
    }
    let dl = l.drop_last();
    assert(pair_keys_unique(dl)) by {
        assert(forall|j: int| 0 <= j < dl.len() ==> (#[trigger] dl[j]).0 == l[j].0);
    }
    if i == l.len() - 1 {
        assert(l2 =~= dl);
        lemma_pairs_map_char(dl);
        assert(!pairs_map(dl).contains_key(k)) by {
            if pairs_map(dl).contains_key(k) {
                let j = choose|j: int| 0 <= j < dl.len() && (#[trigger] dl[j]).0 == k;
                assert(l[j].0 == l[i].0);
            }
        }
        assert(pairs_map(l) == pairs_map(dl).insert(k, l[i].1));
        assert(pairs_map(dl).insert(k, l[i].1).remove(k) =~= pairs_map(dl));
    } else {
        let a = l.last();
        assert(l2.drop_last() =~= dl.remove(i));
        assert(l2.last() == a);
        lemma_pairs_remove(dl, i);
        assert(dl[i].0 == k);
        assert(a.0 != k);
        assert(pairs_map(l2) == pairs_map(dl).remove(k).insert(a.0, a.1));
        assert(pairs_map(dl).remove(k).insert(a.0, a.1) =~= pairs_map(dl).insert(
            a.0,
            a.1,
        ).remove(k));
        assert(pairs_map(l).remove(k) == pairs_map(dl).insert(a.0, a.1).remove(k));
    }
}

} // verus!
