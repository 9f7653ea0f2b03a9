//! Maps made of a list of keys and a list of values.

use vstd::prelude::*;

verus! {

/// The map that holds each of the values under the key at its position;
/// where a key stands twice, the later value.
pub open spec fn table<V>(keys: Seq<Seq<u8>>, values: Seq<V>) -> Map<Seq<u8>, V>
    recommends
        keys.len() == values.len(),
    decreases keys.len(),
{
    if keys.len() == 0 || keys.len() != values.len() {
        Map::empty()
    } else {
        table(keys.drop_last(), values.drop_last()).insert(keys.last(), values.last())
    }
}

/// Whether no key stands twice in the list.
pub open spec fn apart(keys: Seq<Seq<u8>>) -> bool {
    forall|i: int, j: int| 0 <= i < j < keys.len() ==> keys[i] != keys[j]
}

/// A table holds the keys of its list, and under each the value at the
/// key's position where no key stands twice.
pub proof fn lemma_table<V>(keys: Seq<Seq<u8>>, values: Seq<V>)
    requires
        keys.len() == values.len(),
    ensures
        forall|key: Seq<u8>| #[trigger]
            table(keys, values).contains_key(key) <==> keys.contains(key),
        apart(keys) ==> forall|i: int|
            0 <= i < keys.len() ==> table(keys, values)[#[trigger] keys[i]] == values[i],
    decreases keys.len(),
{
    if keys.len() > 0 {
        let n = keys.len() - 1;
        let first = keys.drop_last();
        lemma_table(first, values.drop_last());
        let before = table(first, values.drop_last());
        assert forall|key: Seq<u8>| #[trigger]
            table(keys, values).contains_key(key) <==> keys.contains(key) by {
            if keys.contains(key) {
                let i = choose|i: int| 0 <= i < keys.len() && keys[i] == key;
                if i < n {
                    assert(first[i] == key);
                    assert(first.contains(key));
                    assert(before.contains_key(key));
                }
            }
            if table(keys, values).contains_key(key) {
                if key == keys.last() {
                    assert(keys[n] == key);
                } else {
                    assert(before.contains_key(key));
                    assert(first.contains(key));
                    let i = choose|i: int| 0 <= i < first.len() && first[i] == key;
                    assert(keys[i] == key);
                }
            }
        }
        if apart(keys) {
            assert forall|i: int, j: int| 0 <= i < j < first.len() implies first[i] != first[j] by {
                assert(keys[i] != keys[j]);
            }
            assert forall|i: int| 0 <= i < keys.len() implies table(keys, values)[#[trigger] keys[i]]
                == values[i] by {
                if i < n {
                    assert(first[i] == keys[i]);
                    assert(keys[i] != keys[n]);
                }
            }
        }
    }
}

/// A list in which no key stands twice stays so with a key at its end
/// that it did not hold.
pub proof fn lemma_apart_push(keys: Seq<Seq<u8>>, key: Seq<u8>)
    requires
        apart(keys),
        !keys.contains(key),
    ensures
        apart(keys.push(key)),
{
    let longer = keys.push(key);
    assert forall|i: int, j: int| 0 <= i < j < longer.len() implies longer[i] != longer[j] by {
        if j < keys.len() {
            assert(keys[i] != keys[j]);
        } else {
            assert(keys[i] != key);
        }
    }
}

} // verus!
