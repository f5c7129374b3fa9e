//! The table: a fixed array of slots, searched by double hashing.
//!
//! A slot is vacant, occupied by a key and its value, or deleted. A deleted
//! slot is never handed out again: it only keeps the probe sequences that
//! once passed through it intact.

use crate::probe::{
    base_index, hash, lemma_probe_first, lemma_probe_next, next_index, probe_at, MAX_CAPACITY,
};
use vstd::prelude::*;

verus! {

/// A key with its value, as one occupied slot holds them.
#[derive(Debug, Clone)]
pub struct OccupiedEntry<T> where T: Clone {
    pub key: i32,
    pub value: T,
}

impl<T> OccupiedEntry<T> where T: Clone {
    pub fn new(key: i32, value: T) -> (entry: OccupiedEntry<T>)
        ensures
            entry.key == key,
            entry.value == value,
    {
        OccupiedEntry { key, value }
    }

    pub fn key(&self) -> (key: i32)
        ensures
            key == self.key,
    {
        self.key
    }

    /// A clone of the value.
    pub fn value(&self) -> (value: T)
        ensures
            cloned(self.value, value),
    {
        self.value.clone()
    }
}

/// One slot of the table.
#[derive(Debug, Clone)]
pub enum Entry<T> where T: Clone {
    Vacant,
    Occupied(OccupiedEntry<T>),
    Deleted,
}

impl<T> Entry<T> where T: Clone {
    /// Whether the slot holds `key`.
    pub open spec fn holds(self, key: i32) -> bool {
        match self {
            Entry::Occupied(pair) => pair.key == key,
            _ => false,
        }
    }

    /// Whether a probe for `key` ends at this slot: it is vacant, or it
    /// holds `key`. A probe moves on over deleted slots and other keys.
    pub open spec fn stops(self, key: i32) -> bool {
        self is Vacant || self.holds(key)
    }
}

/// What a search is made for.
pub enum LookupAction {
    Get(i32),
    Insert(i32),
    Delete(i32),
}

impl LookupAction {
    /// The key searched for.
    pub open spec fn key(self) -> i32 {
        match self {
            LookupAction::Get(key) => key,
            LookupAction::Insert(key) => key,
            LookupAction::Delete(key) => key,
        }
    }
}

/// The number of the first probe of `key`, among the probes `from` and
/// later of one full cycle, that ends the search; `None` if the cycle
/// holds none.
pub open spec fn first_stop<T: Clone>(slots: Seq<Entry<T>>, start: int, key: i32, from: int)
    -> Option<int>
    decreases slots.len() - from,
{
    if from >= slots.len() {
        None
    } else if slots[probe_at(slots.len() as int, start, key, from)].stops(key) {
        Some(from)
    } else {
        first_stop(slots, start, key, from + 1)
    }
}

/// The slot that a search from `start` arrives at. A search for a key to
/// read or delete finds the slot that holds the key. A search for a place to
/// insert finds that slot too, and else the first vacant slot on the way.
pub open spec fn found<T: Clone>(action: LookupAction, slots: Seq<Entry<T>>, start: int)
    -> Option<int> {
    match first_stop(slots, start, action.key(), 0) {
        None => None,
        Some(j) => {
            let i = probe_at(slots.len() as int, start, action.key(), j);
            if slots[i].holds(action.key()) || action is Insert {
                Some(i)
            } else {
                None
            }
        },
    }
}

/// What `first_stop` returns is the least probe that ends the search, and
/// `None` only if no probe of the cycle does.
pub proof fn lemma_first_stop<T: Clone>(slots: Seq<Entry<T>>, start: int, key: i32, from: int)
    requires
        slots.len() >= 2,
        0 <= from,
    ensures
        match first_stop(slots, start, key, from) {
            Some(j) => {
                &&& from <= j < slots.len()
                &&& 0 <= probe_at(slots.len() as int, start, key, j) < slots.len()
                &&& slots[probe_at(slots.len() as int, start, key, j)].stops(key)
                &&& forall|h: int|
                    from <= h < j ==> !(#[trigger] slots[probe_at(
                        slots.len() as int,
                        start,
                        key,
                        h,
                    )]).stops(key)
            },
            None => forall|h: int|
                from <= h < slots.len() ==> !(#[trigger] slots[probe_at(
                    slots.len() as int,
                    start,
                    key,
                    h,
                )]).stops(key),
        },
    decreases slots.len() - from,
{
    if from < slots.len() {
        lemma_probe_next(slots.len() as int, start, key, from);
        if !slots[probe_at(slots.len() as int, start, key, from)].stops(key) {
            lemma_first_stop(slots, start, key, from + 1);
        }
    }
}

/// The least probe that ends the search is what `first_stop` returns.
pub proof fn lemma_first_stop_is<T: Clone>(
    slots: Seq<Entry<T>>,
    start: int,
    key: i32,
    from: int,
    j: int,
)
    requires
        0 <= from <= j < slots.len(),
        slots[probe_at(slots.len() as int, start, key, j)].stops(key),
        forall|h: int|
            from <= h < j ==> !(#[trigger] slots[probe_at(slots.len() as int, start, key, h)]).stops(
                key,
            ),
    ensures
        first_stop(slots, start, key, from) == Some(j),
    decreases j - from,
{
    if from < j {
        lemma_first_stop_is(slots, start, key, from + 1, j);
    }
}

/// Two arrays of one length whose slots end the search for `key` at the
/// same probes give the same first stop.
pub proof fn lemma_first_stop_same<T: Clone>(
    a: Seq<Entry<T>>,
    b: Seq<Entry<T>>,
    start: int,
    key: i32,
    from: int,
)
    requires
        a.len() == b.len(),
        0 <= from,
        forall|h: int|
            from <= h < a.len() ==> (#[trigger] a[probe_at(a.len() as int, start, key, h)]).stops(
                key,
            ) == b[probe_at(a.len() as int, start, key, h)].stops(key),
    ensures
        first_stop(a, start, key, from) == first_stop(b, start, key, from),
    decreases a.len() - from,
{
    if from < a.len() {
        if !a[probe_at(a.len() as int, start, key, from)].stops(key) {
            lemma_first_stop_same(a, b, start, key, from + 1);
        }
    }
}

/// A slot that a search finds lies in the array; it holds the key, or, for
/// an insert only, is vacant.
pub proof fn lemma_found<T: Clone>(action: LookupAction, slots: Seq<Entry<T>>, start: int)
    requires
        slots.len() >= 2,
    ensures
        match found(action, slots, start) {
            Some(i) => {
                &&& 0 <= i < slots.len()
                &&& slots[i].stops(action.key())
                &&& !(action is Insert) ==> slots[i].holds(action.key())
            },
            None => true,
        },
{
    lemma_first_stop(slots, start, action.key(), 0);
}

/// Searches `data` along the probe sequence of the action's key, from
/// `start`, for at most one full cycle of the array.
pub fn lookup<T>(action: &LookupAction, data: &Vec<Entry<T>>, start: i32) -> (res: Option<
    i32,
>) where T: Clone
    requires
        2 <= data.len() <= MAX_CAPACITY,
        0 <= start < data.len(),
    ensures
        found(*action, data@, start as int) == match res {
            Some(i) => Some(i as int),
            None => None::<int>,
        },
{
    let (key, inserting) = match action {
        LookupAction::Get(key) => (*key, false),
        LookupAction::Insert(key) => (*key, true),
        LookupAction::Delete(key) => (*key, false),
    };
    let mut index: i32 = start;
    let mut probes: usize = 0;
    proof {
        lemma_probe_first(data.len() as int, start as int, key);
    }
    while probes < data.len()
        invariant
            2 <= data.len() <= MAX_CAPACITY,
            key == action.key(),
            inserting == (*action is Insert),
            0 <= probes <= data.len(),
            0 <= index < data.len(),
            index == probe_at(data.len() as int, start as int, key, probes as int),
            first_stop(data@, start as int, key, 0) == first_stop(
                data@,
                start as int,
                key,
                probes as int,
            ),
        decreases data.len() - probes,
    {
        match &data[index as usize] {
            Entry::Vacant => {
                if inserting {
                    return Some(index);
                } else {
                    return None;
                }
            },
            Entry::Occupied(pair) => {
                if pair.key() == key {
                    return Some(index);
                }
            },
            Entry::Deleted => {},
        }
        proof {
            lemma_probe_next(data.len() as int, start as int, key, probes as int);
        }
        index = next_index(data.len(), key, index);
        probes = probes + 1;
    }
    None
}

/// The slot in which a search finds `key`.
pub open spec fn slot_of<T: Clone>(slots: Seq<Entry<T>>, key: i32) -> Option<int> {
    found(LookupAction::Get(key), slots, base_index(slots.len() as int, key))
}

/// The slot that an insert of `key` writes: the one that holds `key`, or
/// else the first vacant one of the key's probe sequence, within one cycle.
pub open spec fn target_of<T: Clone>(slots: Seq<Entry<T>>, key: i32) -> Option<int> {
    found(LookupAction::Insert(key), slots, base_index(slots.len() as int, key))
}

/// Slots as a table may hold them: between two and `MAX_CAPACITY` of them,
/// and a search for the key of any occupied slot finds that slot. So no key
/// is held twice, and no vacant slot precedes a key on the key's way.
pub open spec fn valid<T: Clone>(slots: Seq<Entry<T>>) -> bool {
    &&& 2 <= slots.len() <= MAX_CAPACITY
    &&& forall|i: int|
        0 <= i < slots.len() ==> match #[trigger] slots[i] {
            Entry::Occupied(pair) => slot_of(slots, pair.key) == Some(i),
            _ => true,
        }
}

/// The keys that a search finds, each with the value in its slot.
pub open spec fn contents<T: Clone>(slots: Seq<Entry<T>>) -> Map<i32, T> {
    Map::new(
        |key: i32| slot_of(slots, key) is Some,
        |key: i32| slots[slot_of(slots, key).unwrap()]->Occupied_0.value,
    )
}

/// The slots after an insert of `key` with `value`.
pub open spec fn with_inserted<T: Clone>(slots: Seq<Entry<T>>, key: i32, value: T) -> Seq<
    Entry<T>,
> {
    slots.update(target_of(slots, key).unwrap(), Entry::Occupied(OccupiedEntry { key, value }))
}

/// The slots after a delete of `key`.
pub open spec fn with_deleted<T: Clone>(slots: Seq<Entry<T>>, key: i32) -> Seq<Entry<T>> {
    match slot_of(slots, key) {
        Some(i) => slots.update(i, Entry::Deleted),
        None => slots,
    }
}

/// A table of a fixed number of slots.
#[derive(Debug)]
pub struct HashTable<T> where T: Clone {
    pub data: Vec<Entry<T>>,
}

impl<T> View for HashTable<T> where T: Clone {
    type V = Map<i32, T>;

    open spec fn view(&self) -> Map<i32, T> {
        contents(self.data@)
    }
}

impl<T> HashTable<T> where T: Clone {
    /// The number of slots.
    pub open spec fn capacity(&self) -> int {
        self.data@.len() as int
    }

    /// Whether an insert of `key` finds a slot.
    pub open spec fn has_room(&self, key: i32) -> bool {
        target_of(self.data@, key) is Some
    }

    /// The slots are valid: no key is held twice, and every key held is
    /// found by a search for it.
    pub open spec fn wf(&self) -> bool {
        valid(self.data@)
    }

    /// A table of `capacity` vacant slots.
    pub fn with_capacity(capacity: usize) -> (table: HashTable<T>)
        requires
            2 <= capacity <= MAX_CAPACITY,
        ensures
            table.wf(),
            table.data@ == vacant_slots::<T>(capacity as int),
            table@ == Map::<i32, T>::empty(),
    {
        let mut data: Vec<Entry<T>> = Vec::with_capacity(capacity);
        let mut made: usize = 0;
        while made < capacity
            invariant
                made <= capacity,
                data@.len() == made,
                forall|i: int| 0 <= i < made ==> #[trigger] data@[i] is Vacant,
            decreases capacity - made,
        {
            data.push(Entry::Vacant);
            made = made + 1;
        }
        proof {
            assert(data@ =~= vacant_slots::<T>(capacity as int));
            lemma_vacant_slots::<T>(capacity as int);
        }
        HashTable { data }
    }

    /// A clone of the value that `key` maps to, if the table holds `key`.
    pub fn get(&self, key: i32) -> (res: Option<T>)
        requires
            self.wf(),
        ensures
            match res {
                Some(value) => self@.contains_key(key) && cloned(self@[key], value),
                None => !self@.contains_key(key),
            },
    {
        let index = hash(self.data.len(), key);
        proof {
            lemma_found(LookupAction::Get(key), self.data@, index as int);
        }
        match lookup(&LookupAction::Get(key), &self.data, index) {
            Some(slot) => match &self.data[slot as usize] {
                Entry::Occupied(pair) => Some(pair.value()),
                Entry::Vacant | Entry::Deleted => None,
            },
            None => None,
        }
    }

    /// Whether `insert` would find a slot for `key`.
    pub fn can_insert(&self, key: i32) -> (res: bool)
        requires
            self.wf(),
        ensures
            res == self.has_room(key),
    {
        let index = hash(self.data.len(), key);
        lookup(&LookupAction::Insert(key), &self.data, index).is_some()
    }

    /// Maps `key` to `value`, in the slot that holds `key` already or else in
    /// the first vacant slot of the key's probe sequence. A deleted slot is
    /// passed over.
    pub fn insert(&mut self, key: i32, value: T)
        requires
            old(self).wf(),
            old(self).has_room(key),
        ensures
            final(self).wf(),
            final(self).data@ == with_inserted(old(self).data@, key, value),
            final(self)@ == old(self)@.insert(key, value),
    {
        let index = hash(self.data.len(), key);
        let target = lookup(&LookupAction::Insert(key), &self.data, index);
        proof {
            lemma_insert(self.data@, key, value);
        }
        match target {
            Some(slot) => {
                self.data.set(slot as usize, Entry::Occupied(OccupiedEntry::new(key, value)));
            },
            None => {},
        }
    }

    /// As `insert`, where the key finds a slot. Where it finds none, the
    /// table stays as it is and the value comes back.
    pub fn try_insert(&mut self, key: i32, value: T) -> (res: Result<(), T>)
        requires
            old(self).wf(),
        ensures
            final(self).wf(),
            match res {
                Ok(_) => {
                    &&& old(self).has_room(key)
                    &&& final(self).data@ == with_inserted(old(self).data@, key, value)
                    &&& final(self)@ == old(self)@.insert(key, value)
                },
                Err(back) => {
                    &&& !old(self).has_room(key)
                    &&& back == value
                    &&& *final(self) == *old(self)
                },
            },
    {
        if self.can_insert(key) {
            self.insert(key, value);
            Ok(())
        } else {
            Err(value)
        }
    }

    /// Turns the slot that holds `key` into a deleted slot. Without such a
    /// slot the table stays as it is.
    pub fn delete(&mut self, key: i32)
        requires
            old(self).wf(),
        ensures
            final(self).wf(),
            final(self).data@ == with_deleted(old(self).data@, key),
            final(self)@ == old(self)@.remove(key),
    {
        let index = hash(self.data.len(), key);
        proof {
            lemma_delete(self.data@, key);
        }
        match lookup(&LookupAction::Delete(key), &self.data, index) {
            Some(slot) => {
                self.data.set(slot as usize, Entry::Deleted);
            },
            None => {},
        }
    }
}

/// `capacity` vacant slots.
pub open spec fn vacant_slots<T: Clone>(capacity: int) -> Seq<Entry<T>> {
    Seq::new(capacity as nat, |i: int| Entry::Vacant)
}

/// Vacant slots make a valid table that holds no key and has room for any.
pub proof fn lemma_vacant_slots<T: Clone>(capacity: int)
    requires
        2 <= capacity <= MAX_CAPACITY,
    ensures
        valid(vacant_slots::<T>(capacity)),
        contents(vacant_slots::<T>(capacity)) == Map::<i32, T>::empty(),
        forall|key: i32| target_of(vacant_slots::<T>(capacity), key) is Some,
{
    let slots = vacant_slots::<T>(capacity);
    assert forall|key: i32| !(slot_of(slots, key) is Some) && target_of(slots, key) is Some by {
        lemma_found(LookupAction::Get(key), slots, base_index(capacity, key));
        lemma_first_stop(slots, base_index(capacity, key), key, 0);
    }
    assert(contents(slots) =~= Map::<i32, T>::empty());
}

/// An insert keeps the slots valid, maps `key` to `value` beside what was
/// there, and moves no other key.
pub proof fn lemma_insert<T: Clone>(a: Seq<Entry<T>>, key: i32, value: T)
    requires
        valid(a),
        target_of(a, key) is Some,
    ensures
        valid(with_inserted(a, key, value)),
        contents(with_inserted(a, key, value)) == contents(a).insert(key, value),
        forall|other: i32|
            slot_of(with_inserted(a, key, value), other) == if other == key {
                target_of(a, key)
            } else {
                slot_of(a, other)
            },
{
    let n = a.len() as int;
    let b = with_inserted(a, key, value);
    let start = base_index(n, key);
    let i = target_of(a, key).unwrap();
    lemma_found(LookupAction::Insert(key), a, start);
    lemma_first_stop(a, start, key, 0);
    assert(slot_of(b, key) == Some(i)) by {
        assert forall|h: int| 0 <= h < n implies (#[trigger] a[probe_at(n, start, key, h)]).stops(
            key,
        ) == b[probe_at(n, start, key, h)].stops(key) by {
            lemma_probe_next(n, start, key, h);
        }
        lemma_first_stop_same(a, b, start, key, 0);
    }
    assert forall|other: i32| other != key implies slot_of(b, other) == slot_of(a, other) by {
        lemma_insert_other(a, key, value, other);
    }
    assert forall|s: int| 0 <= s < b.len() implies match #[trigger] b[s] {
        Entry::Occupied(pair) => slot_of(b, pair.key) == Some(s),
        _ => true,
    } by {
        if s != i {
            assert(b[s] == a[s]);
        }
    }
    assert forall|other: i32| contents(b).contains_key(other) implies #[trigger] contents(b)[other]
        == contents(a).insert(key, value)[other] by {
        lemma_found(LookupAction::Get(other), b, base_index(n, other));
    }
    assert(contents(b) =~= contents(a).insert(key, value));
}

/// An insert of `key` leaves the slot of every other key as it was.
proof fn lemma_insert_other<T: Clone>(a: Seq<Entry<T>>, key: i32, value: T, other: i32)
    requires
        valid(a),
        target_of(a, key) is Some,
        other != key,
    ensures
        slot_of(with_inserted(a, key, value), other) == slot_of(a, other),
{
    let n = a.len() as int;
    let b = with_inserted(a, key, value);
    let i = target_of(a, key).unwrap();
    let start = base_index(n, other);
    lemma_found(LookupAction::Insert(key), a, base_index(n, key));
    lemma_found(LookupAction::Get(other), a, start);
    lemma_found(LookupAction::Get(other), b, start);
    lemma_first_stop(a, start, other, 0);
    match slot_of(a, other) {
        Some(s) => {
            let j = first_stop(a, start, other, 0).unwrap();
            assert(s != i);
            assert(b[s] == a[s]);
            assert forall|h: int| 0 <= h < j implies !(#[trigger] b[probe_at(
                n,
                start,
                other,
                h,
            )]).stops(other) by {
                lemma_probe_next(n, start, other, h);
                assert(!a[probe_at(n, start, other, h)].stops(other));
            }
            lemma_first_stop_is(b, start, other, 0, j);
        },
        None => {
            if slot_of(b, other) is Some {
                let s = slot_of(b, other).unwrap();
                assert(b[s].holds(other));
                assert(s != i);
                assert(a[s] == b[s]);
                assert(slot_of(a, other) == Some(s));
            }
        },
    }
}

/// A delete keeps the slots valid, and takes `key` out and nothing else.
pub proof fn lemma_delete<T: Clone>(a: Seq<Entry<T>>, key: i32)
    requires
        valid(a),
    ensures
        valid(with_deleted(a, key)),
        contents(with_deleted(a, key)) == contents(a).remove(key),
{
    let n = a.len() as int;
    let b = with_deleted(a, key);
    if slot_of(a, key) is None {
        assert(contents(a) =~= contents(a).remove(key));
    } else {
        let i = slot_of(a, key).unwrap();
        lemma_found(LookupAction::Get(key), a, base_index(n, key));
        lemma_found(LookupAction::Get(key), b, base_index(n, key));
        assert(slot_of(b, key) is None) by {
            if slot_of(b, key) is Some {
                let s = slot_of(b, key).unwrap();
                assert(s != i);
                assert(a[s] == b[s]);
                assert(slot_of(a, key) == Some(s));
            }
        }
        assert forall|other: i32| other != key implies slot_of(b, other) == slot_of(a, other) by {
            let start = base_index(n, other);
            assert forall|h: int| 0 <= h < n implies (#[trigger] a[probe_at(
                n,
                start,
                other,
                h,
            )]).stops(other) == b[probe_at(n, start, other, h)].stops(other) by {
                lemma_probe_next(n, start, other, h);
            }
            lemma_first_stop_same(a, b, start, other, 0);
            lemma_first_stop(a, start, other, 0);
        }
        assert forall|s: int| 0 <= s < b.len() implies match #[trigger] b[s] {
            Entry::Occupied(pair) => slot_of(b, pair.key) == Some(s),
            _ => true,
        } by {
            if s != i {
                assert(b[s] == a[s]);
            }
        }
        assert forall|other: i32| contents(b).contains_key(other) implies #[trigger] contents(
            b,
        )[other] == contents(a).remove(key)[other] by {
            lemma_found(LookupAction::Get(other), b, base_index(n, other));
        }
        assert(contents(b) =~= contents(a).remove(key));
    }
}

} // verus!
