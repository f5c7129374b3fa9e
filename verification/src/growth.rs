//! Growing a table: the occupied slots of one array are inserted, in the
//! order of the slots, into a vacant array of twice the length. Deleted
//! slots are left behind.

use crate::hash_table::{
    contents, lemma_first_stop, lemma_first_stop_same, lemma_found, lemma_insert,
    lemma_vacant_slots, slot_of, target_of, vacant_slots, valid, with_inserted, Entry, HashTable,
    LookupAction,
};
use crate::probe::{base_index, lemma_probe_next, probe_at, MAX_CAPACITY};
use vstd::prelude::*;

verus! {

/// The array of `capacity` slots after the occupied ones among the first
/// `upto` slots of `source` were inserted into it, one after the other;
/// `None` if one of them found no slot.
pub open spec fn refilled<T: Clone>(source: Seq<Entry<T>>, upto: int, capacity: int) -> Option<
    Seq<Entry<T>>,
>
    decreases upto,
{
    if upto <= 0 {
        Some(vacant_slots(capacity))
    } else {
        match refilled(source, upto - 1, capacity) {
            None => None,
            Some(slots) => match source[upto - 1] {
                Entry::Occupied(pair) => if target_of(slots, pair.key) is Some {
                    Some(with_inserted(slots, pair.key, pair.value))
                } else {
                    None
                },
                _ => Some(slots),
            },
        }
    }
}

/// The array of twice the length that growing `source` gives.
pub open spec fn regrown<T: Clone>(source: Seq<Entry<T>>) -> Option<Seq<Entry<T>>> {
    refilled(source, source.len() as int, 2 * (source.len() as int))
}

/// Whether `actual` is `model` slot by slot, but that each value is a clone
/// of the model's.
pub open spec fn mirrors<T: Clone>(model: Seq<Entry<T>>, actual: Seq<Entry<T>>) -> bool {
    &&& model.len() == actual.len()
    &&& forall|i: int|
        0 <= i < model.len() ==> match #[trigger] model[i] {
            Entry::Vacant => actual[i] is Vacant,
            Entry::Deleted => actual[i] is Deleted,
            Entry::Occupied(pair) => {
                &&& actual[i] is Occupied
                &&& actual[i]->Occupied_0.key == pair.key
                &&& cloned(pair.value, actual[i]->Occupied_0.value)
            },
        }
}

/// Whether `copy` has the keys of `model`, each with a clone of its value.
pub open spec fn clone_of<T: Clone>(model: Map<i32, T>, copy: Map<i32, T>) -> bool {
    &&& model.dom() == copy.dom()
    &&& forall|key: i32| #[trigger] model.contains_key(key) ==> cloned(model[key], copy[key])
}

/// Whether no slot is deleted.
pub open spec fn no_deleted<T: Clone>(slots: Seq<Entry<T>>) -> bool {
    forall|i: int| 0 <= i < slots.len() ==> !(#[trigger] slots[i] is Deleted)
}

/// Searches go the same way in an array and in one that mirrors it.
pub proof fn lemma_mirrors_search<T: Clone>(model: Seq<Entry<T>>, actual: Seq<Entry<T>>, key: i32)
    requires
        mirrors(model, actual),
        model.len() >= 2,
    ensures
        slot_of(actual, key) == slot_of(model, key),
        target_of(actual, key) == target_of(model, key),
{
    let n = model.len() as int;
    let start = base_index(n, key);
    assert forall|h: int| 0 <= h < n implies (#[trigger] model[probe_at(n, start, key, h)]).stops(
        key,
    ) == actual[probe_at(n, start, key, h)].stops(key) by {
        lemma_probe_next(n, start, key, h);
    }
    lemma_first_stop_same(model, actual, start, key, 0);
    lemma_first_stop(model, start, key, 0);
}

/// An array that mirrors a valid one is valid, and holds the same keys with
/// clones of the values.
pub proof fn lemma_mirrors<T: Clone>(model: Seq<Entry<T>>, actual: Seq<Entry<T>>)
    requires
        mirrors(model, actual),
        valid(model),
    ensures
        valid(actual),
        clone_of(contents(model), contents(actual)),
        no_deleted(model) ==> no_deleted(actual),
{
    assert forall|key: i32|
        slot_of(actual, key) == slot_of(model, key) && (contents(model).contains_key(key)
            ==> cloned(contents(model)[key], contents(actual)[key])) by {
        lemma_mirrors_search(model, actual, key);
        lemma_found(LookupAction::Get(key), model, base_index(model.len() as int, key));
        if slot_of(model, key) is Some {
            let i = slot_of(model, key).unwrap();
            assert(model[i] is Occupied);
        }
    }
    assert forall|i: int| 0 <= i < actual.len() implies match #[trigger] actual[i] {
        Entry::Occupied(pair) => slot_of(actual, pair.key) == Some(i),
        _ => true,
    } by {
        assert(model[i] is Occupied ==> actual[i] is Occupied);
    }
    assert(contents(model).dom() =~= contents(actual).dom());
    if no_deleted(model) {
        assert forall|i: int| 0 <= i < actual.len() implies !(#[trigger] actual[i] is Deleted) by {
            assert(!(model[i] is Deleted));
        }
    }
}

/// What a refill has built so far is valid, has no deleted slot, and holds
/// the keys found in the slots gone through, with their values.
pub proof fn lemma_refilled<T: Clone>(source: Seq<Entry<T>>, upto: int, capacity: int)
    requires
        valid(source),
        0 <= upto <= source.len(),
        2 <= capacity <= MAX_CAPACITY,
        refilled(source, upto, capacity) is Some,
    ensures
        valid(refilled(source, upto, capacity).unwrap()),
        refilled(source, upto, capacity).unwrap().len() == capacity,
        no_deleted(refilled(source, upto, capacity).unwrap()),
        forall|key: i32|
            contents(refilled(source, upto, capacity).unwrap()).contains_key(key) <==> (slot_of(
                source,
                key,
            ) is Some && slot_of(source, key).unwrap() < upto),
        forall|key: i32|
            contents(refilled(source, upto, capacity).unwrap()).contains_key(key) ==> contents(
                refilled(source, upto, capacity).unwrap(),
            )[key] == contents(source)[key],
    decreases upto,
{
    let now = refilled(source, upto, capacity).unwrap();
    if upto <= 0 {
        lemma_vacant_slots::<T>(capacity);
        assert forall|key: i32| !(slot_of(source, key) is Some && slot_of(source, key).unwrap()
            < upto) by {
            lemma_found(LookupAction::Get(key), source, base_index(source.len() as int, key));
        }
    } else {
        lemma_refilled(source, upto - 1, capacity);
        let earlier = refilled(source, upto - 1, capacity).unwrap();
        assert forall|key: i32|
            slot_of(source, key) == Some(upto - 1) <==> source[upto - 1].holds(key) by {
            lemma_found(LookupAction::Get(key), source, base_index(source.len() as int, key));
        }
        match source[upto - 1] {
            Entry::Occupied(pair) => {
                lemma_insert(earlier, pair.key, pair.value);
                assert forall|i: int| 0 <= i < now.len() implies !(#[trigger] now[i] is Deleted) by {
                    if i != target_of(earlier, pair.key).unwrap() {
                        assert(now[i] == earlier[i]);
                    }
                }
                assert(contents(source)[pair.key] == pair.value);
            },
            _ => {},
        }
    }
}

/// A refill that has failed stays failed.
pub proof fn lemma_refilled_failed<T: Clone>(
    source: Seq<Entry<T>>,
    upto: int,
    later: int,
    capacity: int,
)
    requires
        upto <= later,
        refilled(source, upto, capacity) is None,
    ensures
        refilled(source, later, capacity) is None,
    decreases later - upto,
{
    if upto < later {
        lemma_refilled_failed(source, upto, later - 1, capacity);
    }
}

/// Growing loses no key and changes no value: the array that growing gives
/// is valid, without deleted slots, and holds what the old one held.
pub proof fn lemma_regrown<T: Clone>(source: Seq<Entry<T>>)
    requires
        valid(source),
        2 * source.len() <= MAX_CAPACITY,
        regrown(source) is Some,
    ensures
        valid(regrown(source).unwrap()),
        regrown(source).unwrap().len() == 2 * source.len(),
        no_deleted(regrown(source).unwrap()),
        contents(regrown(source).unwrap()) == contents(source),
{
    lemma_refilled(source, source.len() as int, 2 * (source.len() as int));
    assert forall|key: i32| slot_of(source, key) is Some implies slot_of(source, key).unwrap()
        < source.len() by {
        lemma_found(LookupAction::Get(key), source, base_index(source.len() as int, key));
    }
    assert(contents(regrown(source).unwrap()) =~= contents(source));
}

impl<T> HashTable<T> where T: Clone {
    /// A table of twice the capacity with the entries of this one, each
    /// value cloned; `None` where one of the entries finds no slot in it.
    pub fn grown(&self) -> (res: Option<HashTable<T>>)
        requires
            self.wf(),
            2 * self.capacity() <= MAX_CAPACITY,
        ensures
            match res {
                Some(table) => {
                    &&& regrown(self.data@) is Some
                    &&& mirrors(regrown(self.data@).unwrap(), table.data@)
                    &&& table.wf()
                    &&& table.capacity() == 2 * self.capacity()
                    &&& no_deleted(table.data@)
                    &&& clone_of(self@, table@)
                },
                None => regrown(self.data@) is None,
            },
    {
        let new_capacity = self.data.len() * 2;
        let mut resized = HashTable::<T>::with_capacity(new_capacity);
        let mut i: usize = 0;
        while i < self.data.len()
            invariant
                self.wf(),
                new_capacity == 2 * self.data@.len(),
                new_capacity <= MAX_CAPACITY,
                i <= self.data@.len(),
                resized.wf(),
                refilled(self.data@, i as int, new_capacity as int) is Some,
                mirrors(
                    refilled(self.data@, i as int, new_capacity as int).unwrap(),
                    resized.data@,
                ),
            decreases self.data@.len() - i,
        {
            let ghost model = refilled(self.data@, i as int, new_capacity as int).unwrap();
            match &self.data[i] {
                Entry::Occupied(pair) => {
                    proof {
                        lemma_refilled(self.data@, i as int, new_capacity as int);
                        lemma_mirrors_search(model, resized.data@, pair.key);
                    }
                    if resized.can_insert(pair.key()) {
                        resized.insert(pair.key(), pair.value());
                    } else {
                        proof {
                            lemma_refilled_failed(
                                self.data@,
                                i + 1,
                                self.data@.len() as int,
                                new_capacity as int,
                            );
                        }
                        return None;
                    }
                },
                Entry::Vacant | Entry::Deleted => {},
            }
            i = i + 1;
        }
        proof {
            lemma_regrown(self.data@);
            lemma_mirrors(regrown(self.data@).unwrap(), resized.data@);
        }
        Some(resized)
    }
}

} // verus!
