//! Sorted keys with a value beside each, read as a map.

use vstd::prelude::*;
use crate::order::{
    is_increasing, is_place_of, lemma_increasing_distinct, lemma_insert_keeps_increasing,
    lemma_precedes_asymmetric, precedes,
};

verus! {

/// The map that takes each key to the value standing at the key's position.
pub open spec fn pairing<V>(keys: Seq<Seq<u8>>, values: Seq<V>) -> Map<Seq<u8>, V> {
    Map::new(|k: Seq<u8>| keys.contains(k), |k: Seq<u8>| values[keys.index_of(k)])
}

/// With sorted keys, the key at a position is paired with the value there.
pub proof fn lemma_pairing_at<V>(keys: Seq<Seq<u8>>, values: Seq<V>, i: int)
    requires
        is_increasing(keys),
        0 <= i < keys.len(),
    ensures
        pairing(keys, values).contains_key(keys[i]),
        pairing(keys, values)[keys[i]] == values[i],
{
    assert(keys.contains(keys[i]));
    lemma_increasing_distinct(keys, i, keys.index_of(keys[i]));
}

/// A key that the search did not find is in neither the keys nor the map.
pub proof fn lemma_place_absent<V>(keys: Seq<Seq<u8>>, values: Seq<V>, key: Seq<u8>, pos: int)
    requires
        is_place_of(keys, key, false, pos),
    ensures
        !keys.contains(key),
        !pairing(keys, values).contains_key(key),
{
    if keys.contains(key) {
        let i = keys.index_of(key);
        if i < pos {
            lemma_precedes_asymmetric(keys[i], key);
        } else {
            lemma_precedes_asymmetric(key, keys[i]);
        }
    }
}

/// The map of no keys is empty.
pub proof fn lemma_pairing_empty<V>()
    ensures
        pairing(Seq::<Seq<u8>>::empty(), Seq::<V>::empty()) == Map::<Seq<u8>, V>::empty(),
{
    assert(pairing(Seq::<Seq<u8>>::empty(), Seq::<V>::empty()) =~= Map::<Seq<u8>, V>::empty());
}

/// Putting a new key and its value at the key's place adds one entry to the
/// map and changes no other.
pub proof fn lemma_pairing_insert<V>(
    keys: Seq<Seq<u8>>,
    values: Seq<V>,
    pos: int,
    key: Seq<u8>,
    value: V,
)
    requires
        is_increasing(keys),
        keys.len() == values.len(),
        is_place_of(keys, key, false, pos),
    ensures
        is_increasing(keys.insert(pos, key)),
        pairing(keys.insert(pos, key), values.insert(pos, value)) == pairing(keys, values).insert(
            key,
            value,
        ),
{
    let keys2 = keys.insert(pos, key);
    let values2 = values.insert(pos, value);
    lemma_insert_keeps_increasing(keys, key, pos);
    lemma_place_absent(keys, values, key, pos);
    let before = pairing(keys, values).insert(key, value);
    let after = pairing(keys2, values2);
    assert forall|k: Seq<u8>| before.contains_key(k) implies #[trigger] after.contains_key(k)
        && after[k] == before[k] by {
        if k == key {
            assert(keys2[pos] == key);
            lemma_pairing_at(keys2, values2, pos);
        } else {
            let i = keys.index_of(k);
            lemma_pairing_at(keys, values, i);
            let i2 = if i < pos { i } else { i + 1 };
            assert(keys2[i2] == k);
            lemma_pairing_at(keys2, values2, i2);
        }
    }
    assert forall|k: Seq<u8>| after.contains_key(k) implies #[trigger] before.contains_key(k) by {
        let i2 = keys2.index_of(k);
        if i2 < pos {
            assert(keys[i2] == k);
        } else if i2 > pos {
            assert(keys[i2 - 1] == k);
        }
    }
    assert(after =~= before);
}

/// Changing the value at one position changes the entry of the key there and
/// no other.
pub proof fn lemma_pairing_update<V>(keys: Seq<Seq<u8>>, values: Seq<V>, pos: int, value: V)
    requires
        is_increasing(keys),
        keys.len() == values.len(),
        0 <= pos < keys.len(),
    ensures
        pairing(keys, values.update(pos, value)) == pairing(keys, values).insert(keys[pos], value),
{
    let values2 = values.update(pos, value);
    let before = pairing(keys, values).insert(keys[pos], value);
    let after = pairing(keys, values2);
    assert forall|k: Seq<u8>| before.contains_key(k) implies #[trigger] after.contains_key(k)
        && after[k] == before[k] by {
        if k == keys[pos] {
            lemma_pairing_at(keys, values2, pos);
        } else {
            let i = keys.index_of(k);
            lemma_pairing_at(keys, values, i);
            lemma_pairing_at(keys, values2, i);
        }
    }
    assert forall|k: Seq<u8>| after.contains_key(k) implies #[trigger] before.contains_key(k) by {
        assert(keys.contains(k));
    }
    assert(after =~= before);
}

/// The map of sorted keys has exactly as many entries as there are keys.
pub proof fn lemma_pairing_len<V>(keys: Seq<Seq<u8>>, values: Seq<V>)
    requires
        is_increasing(keys),
        keys.len() == values.len(),
    ensures
        pairing(keys, values).dom().finite(),
        pairing(keys, values).dom().len() == keys.len(),
    decreases keys.len(),
{
    if keys.len() == 0 {
        assert(pairing(keys, values).dom() =~= Set::<Seq<u8>>::empty());
    } else {
        let keys1 = keys.drop_last();
        let values1 = values.drop_last();
        let last = keys.len() - 1;
        assert forall|i: int, j: int| 0 <= i < j < keys1.len() implies precedes(
            #[trigger] keys1[i],
            #[trigger] keys1[j],
        ) by {
            assert(keys1[i] == keys[i] && keys1[j] == keys[j]);
        }
        lemma_pairing_len(keys1, values1);
        assert forall|i: int| 0 <= i < keys1.len() implies precedes(
            #[trigger] keys1[i],
            keys[last],
        ) by {
            assert(keys1[i] == keys[i]);
        }
        assert(is_place_of(keys1, keys[last], false, last));
        lemma_place_absent(keys1, values1, keys[last], last);
        assert(keys1.insert(last, keys[last]) =~= keys);
        assert(values1.insert(last, values[last]) =~= values);
        lemma_pairing_insert(keys1, values1, last, keys[last], values[last]);
        assert(pairing(keys, values).dom() =~= pairing(keys1, values1).dom().insert(keys[last]));
    }
}

} // verus!
