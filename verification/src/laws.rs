//! What holds of every table and every map, whichever keys and values they
//! are given.

use crate::hash_map::HashMap;
use crate::hash_table::{
    contents, lemma_delete, lemma_found, lemma_insert, slot_of, target_of, valid, with_deleted,
    with_inserted, Entry, LookupAction,
};
use crate::probe::base_index;
use vstd::prelude::*;

verus! {

/// The slots after the first `n` of `keys` were inserted, each with the
/// value at its place in `values`, one after the other; `None` if one of
/// them found no slot.
pub open spec fn with_all_inserted<T: Clone>(
    slots: Seq<Entry<T>>,
    keys: Seq<i32>,
    values: Seq<T>,
    n: int,
) -> Option<Seq<Entry<T>>>
    decreases n,
{
    if n <= 0 {
        Some(slots)
    } else {
        match with_all_inserted(slots, keys, values, n - 1) {
            None => None,
            Some(so_far) => if target_of(so_far, keys[n - 1]) is Some {
                Some(with_inserted(so_far, keys[n - 1], values[n - 1]))
            } else {
                None
            },
        }
    }
}

/// After a run of inserts of distinct keys into one table, each of which
/// found a slot, every one of the keys maps to the value it was inserted
/// with, and what the table held under other keys is still there.
pub proof fn law_inserts_then_get<T: Clone>(
    slots: Seq<Entry<T>>,
    keys: Seq<i32>,
    values: Seq<T>,
    n: int,
)
    requires
        valid(slots),
        0 <= n <= keys.len(),
        keys.len() == values.len(),
        forall|i: int, j: int| 0 <= i < j < keys.len() ==> keys[i] != keys[j],
        with_all_inserted(slots, keys, values, n) is Some,
    ensures
        valid(with_all_inserted(slots, keys, values, n).unwrap()),
        forall|i: int|
            0 <= i < n ==> contents(
                with_all_inserted(slots, keys, values, n).unwrap(),
            ).contains_key(#[trigger] keys[i]) && contents(
                with_all_inserted(slots, keys, values, n).unwrap(),
            )[keys[i]] == values[i],
        forall|key: i32|
            #[trigger] contents(slots).contains_key(key) && (forall|i: int|
                0 <= i < n ==> #[trigger] keys[i] != key) ==> contents(
                with_all_inserted(slots, keys, values, n).unwrap(),
            ).contains_key(key) && contents(
                with_all_inserted(slots, keys, values, n).unwrap(),
            )[key] == contents(slots)[key],
    decreases n,
{
    if n > 0 {
        law_inserts_then_get(slots, keys, values, n - 1);
        let so_far = with_all_inserted(slots, keys, values, n - 1).unwrap();
        lemma_insert(so_far, keys[n - 1], values[n - 1]);
    }
}

/// After an insert of a key with a value, the table maps the key to the
/// value.
pub proof fn law_insert_then_get<T: Clone>(slots: Seq<Entry<T>>, key: i32, value: T)
    requires
        valid(slots),
        target_of(slots, key) is Some,
    ensures
        contents(with_inserted(slots, key, value)).contains_key(key),
        contents(with_inserted(slots, key, value))[key] == value,
{
    lemma_insert(slots, key, value);
}

/// After an insert of a key and a delete of it, the table does not hold
/// the key, and holds under every other key what it held before the two.
pub proof fn law_insert_delete_then_get<T: Clone>(slots: Seq<Entry<T>>, key: i32, value: T)
    requires
        valid(slots),
        target_of(slots, key) is Some,
    ensures
        valid(with_deleted(with_inserted(slots, key, value), key)),
        !contents(with_deleted(with_inserted(slots, key, value), key)).contains_key(key),
        contents(with_deleted(with_inserted(slots, key, value), key)) == contents(slots).remove(
            key,
        ),
{
    lemma_insert(slots, key, value);
    lemma_delete(with_inserted(slots, key, value), key);
    assert(contents(slots).insert(key, value).remove(key) =~= contents(slots).remove(key));
}

/// A second insert of a key finds the slot of the first, so it always goes
/// through, and the table then maps the key to the second value.
pub proof fn law_overwrite<T: Clone>(slots: Seq<Entry<T>>, key: i32, first: T, second: T)
    requires
        valid(slots),
        target_of(slots, key) is Some,
    ensures
        target_of(with_inserted(slots, key, first), key) == target_of(slots, key),
        contents(with_inserted(with_inserted(slots, key, first), key, second)) == contents(
            slots,
        ).insert(key, second),
{
    lemma_insert(slots, key, first);
    let once = with_inserted(slots, key, first);
    assert(slot_of(once, key) == target_of(slots, key));
    lemma_insert(once, key, second);
    assert(contents(slots).insert(key, first).insert(key, second) =~= contents(slots).insert(
        key,
        second,
    ));
}

/// Two inserts of one key into a map leave the key with the second value,
/// and the load two higher: the second insert counts as the first did.
pub proof fn law_overwrite_counts<T: Clone>(
    start: HashMap<T>,
    once: HashMap<T>,
    twice: HashMap<T>,
    key: i32,
    first: T,
    second: T,
)
    requires
        start.insert_gives(&once, key, first),
        once.insert_gives(&twice, key, second),
    ensures
        twice@.contains_key(key),
        twice@[key] == second,
        twice.load() == start.load() + 2,
{
    assert(twice@.dom().contains(key));
}

/// An insert into a map, with or without a growth of the table before it,
/// loses no key: every key held before is held after, with a clone of its
/// value where the key is not the one inserted.
pub proof fn law_insert_keeps_keys<T: Clone>(
    before: HashMap<T>,
    after: HashMap<T>,
    key: i32,
    value: T,
    other: i32,
)
    requires
        before.insert_gives(&after, key, value),
        before@.contains_key(other),
    ensures
        after@.contains_key(other),
        other != key ==> cloned(before@[other], after@[other]),
        other == key ==> after@[other] == value,
{
    assert(after@.dom().contains(other));
}

/// The slot that an insert writes is never a deleted one.
pub proof fn law_deleted_not_reused<T: Clone>(slots: Seq<Entry<T>>, key: i32)
    requires
        valid(slots),
        target_of(slots, key) is Some,
    ensures
        0 <= target_of(slots, key).unwrap() < slots.len(),
        !(slots[target_of(slots, key).unwrap()] is Deleted),
{
    lemma_found(LookupAction::Insert(key), slots, base_index(slots.len() as int, key));
}

/// After a key was inserted and deleted, an insert of another key that
/// finds a slot leaves the deleted slot as it is, and the table maps the
/// other key to its value, whether or not its probes pass the deleted slot.
pub proof fn law_insert_past_deleted<T: Clone>(
    slots: Seq<Entry<T>>,
    gone: i32,
    gone_value: T,
    key: i32,
    value: T,
)
    requires
        valid(slots),
        target_of(slots, gone) is Some,
        target_of(with_deleted(with_inserted(slots, gone, gone_value), gone), key) is Some,
    ensures
        with_inserted(with_deleted(with_inserted(slots, gone, gone_value), gone), key, value)[target_of(
            slots,
            gone,
        ).unwrap()] is Deleted,
        contents(
            with_inserted(with_deleted(with_inserted(slots, gone, gone_value), gone), key, value),
        ).contains_key(key),
        contents(
            with_inserted(with_deleted(with_inserted(slots, gone, gone_value), gone), key, value),
        )[key] == value,
        !contents(
            with_inserted(with_deleted(with_inserted(slots, gone, gone_value), gone), key, value),
        ).contains_key(gone) || key == gone,
{
    lemma_insert(slots, gone, gone_value);
    let filled = with_inserted(slots, gone, gone_value);
    lemma_found(LookupAction::Insert(gone), slots, base_index(slots.len() as int, gone));
    assert(slot_of(filled, gone) == target_of(slots, gone));
    lemma_delete(filled, gone);
    let emptied = with_deleted(filled, gone);
    law_deleted_not_reused(emptied, key);
    lemma_insert(emptied, key, value);
}

} // verus!
