//! Association lists keyed by byte strings, read as maps.
//!
//! The worker keeps its small tables as vectors of pairs: of a hash map
//! whose keys are byte strings the prover knows nothing, not even that one
//! insert leaves one entry. A list whose keys are distinct stands for the map
//! from each key to the value beside it; the lemmas here say what a change of
//! the list does to that map.

use vstd::prelude::*;

verus! {

/// The keys of an association list, in order.
pub open spec fn keys<V>(list: Seq<(Seq<u8>, V)>) -> Seq<Seq<u8>> {
    Seq::new(list.len(), |i: int| list[i].0)
}

/// The map that an association list stands for.
pub open spec fn assoc_map<V>(list: Seq<(Seq<u8>, V)>) -> Map<Seq<u8>, V> {
    Map::new(|k: Seq<u8>| keys(list).contains(k), |k: Seq<u8>| list[keys(list).index_of(k)].1)
}

/// The map of a list has the keys of the list and no others, and is finite.
/// Where the keys are distinct, it has as many entries as the list, and each
/// key leads to the value beside it.
pub proof fn lemma_assoc_map<V>(list: Seq<(Seq<u8>, V)>)
    ensures
        assoc_map(list).dom() == keys(list).to_set(),
        assoc_map(list).dom().finite(),
        keys(list).no_duplicates() ==> assoc_map(list).len() == list.len(),
        keys(list).no_duplicates() ==> forall|i: int|
            0 <= i < list.len() ==> assoc_map(list).dom().contains(#[trigger] list[i].0)
                && assoc_map(list)[list[i].0] == list[i].1,
{
    broadcast use vstd::seq_lib::seq_to_set_is_finite;

    assert(assoc_map(list).dom() =~= keys(list).to_set());
    if keys(list).no_duplicates() {
        keys(list).unique_seq_to_set();
        assert forall|i: int| 0 <= i < list.len() implies assoc_map(list).dom().contains(
            #[trigger] list[i].0,
        ) && assoc_map(list)[list[i].0] == list[i].1 by {
            assert(keys(list)[i] == list[i].0);
            let j = keys(list).index_of(list[i].0);
            assert(keys(list)[j] == list[i].0);
        }
    }
}

/// A key is in the map exactly where it is in the list.
pub proof fn lemma_assoc_map_contains<V>(list: Seq<(Seq<u8>, V)>, key: Seq<u8>)
    ensures
        assoc_map(list).dom().contains(key) <==> exists|i: int|
            0 <= i < list.len() && (#[trigger] list[i]).0 == key,
{
    if assoc_map(list).dom().contains(key) {
        let i = choose|i: int| 0 <= i < keys(list).len() && keys(list)[i] == key;
        assert(list[i].0 == key);
    }
    if exists|i: int| 0 <= i < list.len() && (#[trigger] list[i]).0 == key {
        let i = choose|i: int| 0 <= i < list.len() && (#[trigger] list[i]).0 == key;
        assert(keys(list)[i] == key);
    }
}

/// Adding a pair with a new key to the list inserts it into the map.
pub proof fn lemma_assoc_map_push<V>(list: Seq<(Seq<u8>, V)>, key: Seq<u8>, value: V)
    requires
        keys(list).no_duplicates(),
        !keys(list).contains(key),
    ensures
        keys(list.push((key, value))).no_duplicates(),
        assoc_map(list.push((key, value))) == assoc_map(list).insert(key, value),
{
    let pushed = list.push((key, value));
    assert(keys(pushed) =~= keys(list).push(key));
    assert(keys(pushed).no_duplicates());
    lemma_assoc_map(pushed);
    lemma_assoc_map(list);
    assert forall|k: Seq<u8>| assoc_map(pushed).dom().contains(k) <==> assoc_map(list).insert(
        key,
        value,
    ).dom().contains(k) by {
        lemma_assoc_map_contains(pushed, k);
        lemma_assoc_map_contains(list, k);
        if exists|i: int| 0 <= i < pushed.len() && (#[trigger] pushed[i]).0 == k {
            let i = choose|i: int| 0 <= i < pushed.len() && (#[trigger] pushed[i]).0 == k;
            if i < list.len() {
                assert(list[i].0 == k);
            }
        }
        if exists|i: int| 0 <= i < list.len() && (#[trigger] list[i]).0 == k {
            let i = choose|i: int| 0 <= i < list.len() && (#[trigger] list[i]).0 == k;
            assert(pushed[i].0 == k);
        }
        if k == key {
            assert(pushed[list.len() as int].0 == k);
        }
    }
    assert forall|k: Seq<u8>| assoc_map(pushed).dom().contains(k) implies assoc_map(pushed)[k]
        == assoc_map(list).insert(key, value)[k] by {
        lemma_assoc_map_contains(pushed, k);
        let i = choose|i: int| 0 <= i < pushed.len() && (#[trigger] pushed[i]).0 == k;
        assert(assoc_map(pushed)[pushed[i].0] == pushed[i].1);
        if i < list.len() {
            assert(list[i].0 == k);
            assert(keys(list)[i] == k);
            assert(assoc_map(list)[list[i].0] == list[i].1);
        }
    }
    assert(assoc_map(pushed) =~= assoc_map(list).insert(key, value));
}

/// Putting another value beside a key of the list puts it into the map.
pub proof fn lemma_assoc_map_update<V>(list: Seq<(Seq<u8>, V)>, at: int, value: V)
    requires
        keys(list).no_duplicates(),
        0 <= at < list.len(),
    ensures
        keys(list.update(at, (list[at].0, value))) == keys(list),
        assoc_map(list.update(at, (list[at].0, value))) == assoc_map(list).insert(
            list[at].0,
            value,
        ),
{
    let key = list[at].0;
    let updated = list.update(at, (key, value));
    assert(keys(updated) =~= keys(list));
    lemma_assoc_map(updated);
    lemma_assoc_map(list);
    assert(keys(list)[at] == key);
    assert forall|k: Seq<u8>| assoc_map(updated).dom().contains(k) implies assoc_map(updated)[k]
        == assoc_map(list).insert(key, value)[k] by {
        lemma_assoc_map_contains(updated, k);
        let i = choose|i: int| 0 <= i < updated.len() && (#[trigger] updated[i]).0 == k;
        assert(assoc_map(updated)[updated[i].0] == updated[i].1);
        if i != at {
            assert(keys(list)[i] == k);
            assert(list[i].0 == k);
            assert(assoc_map(list)[list[i].0] == list[i].1);
        }
    }
    assert(assoc_map(updated) =~= assoc_map(list).insert(key, value));
}

/// Taking a pair out of the list removes its key from the map.
pub proof fn lemma_assoc_map_remove<V>(list: Seq<(Seq<u8>, V)>, at: int)
    requires
        keys(list).no_duplicates(),
        0 <= at < list.len(),
    ensures
        keys(list.remove(at)).no_duplicates(),
        assoc_map(list.remove(at)) == assoc_map(list).remove(list[at].0),
{
    let key = list[at].0;
    let removed = list.remove(at);
    list.remove_ensures(at);
    assert forall|i: int, j: int|
        0 <= i < removed.len() && 0 <= j < removed.len() && i != j implies keys(removed)[i] != keys(
        removed,
    )[j] by {
        let oi = if i < at { i } else { i + 1 };
        let oj = if j < at { j } else { j + 1 };
        assert(keys(list)[oi] == removed[i].0);
        assert(keys(list)[oj] == removed[j].0);
    }
    lemma_assoc_map(removed);
    lemma_assoc_map(list);
    assert(keys(list)[at] == key);
    assert forall|k: Seq<u8>| assoc_map(removed).dom().contains(k) <==> assoc_map(list).remove(
        key,
    ).dom().contains(k) by {
        lemma_assoc_map_contains(removed, k);
        lemma_assoc_map_contains(list, k);
        if exists|i: int| 0 <= i < removed.len() && (#[trigger] removed[i]).0 == k {
            let i = choose|i: int| 0 <= i < removed.len() && (#[trigger] removed[i]).0 == k;
            let oi = if i < at { i } else { i + 1 };
            assert(list[oi].0 == k);
            assert(keys(list)[oi] == k);
        }
        if k != key && exists|i: int| 0 <= i < list.len() && (#[trigger] list[i]).0 == k {
            let i = choose|i: int| 0 <= i < list.len() && (#[trigger] list[i]).0 == k;
            let ni = if i < at { i } else { i - 1 };
            assert(removed[ni].0 == k);
        }
    }
    assert forall|k: Seq<u8>| assoc_map(removed).dom().contains(k) implies assoc_map(removed)[k]
        == assoc_map(list).remove(key)[k] by {
        lemma_assoc_map_contains(removed, k);
        let i = choose|i: int| 0 <= i < removed.len() && (#[trigger] removed[i]).0 == k;
        let oi = if i < at { i } else { i + 1 };
        assert(assoc_map(removed)[removed[i].0] == removed[i].1);
        assert(list[oi].0 == k);
        assert(assoc_map(list)[list[oi].0] == list[oi].1);
    }
    assert(assoc_map(removed) =~= assoc_map(list).remove(key));
}

/// A list without duplicates stays one when an element that it lacks is added.
pub proof fn lemma_push_no_duplicates<A>(list: Seq<A>, x: A)
    requires
        list.no_duplicates(),
        !list.contains(x),
    ensures
        list.push(x).no_duplicates(),
{
    assert forall|i: int, j: int|
        0 <= i < list.len() + 1 && 0 <= j < list.len() + 1 && i != j implies list.push(x)[i]
        != list.push(x)[j] by {
        if i < list.len() {
            assert(list.contains(list[i]));
        }
        if j < list.len() {
            assert(list.contains(list[j]));
        }
    }
}

} // verus!
