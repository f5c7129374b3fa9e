//! The map: a table with a load counter and a capacity counter. An insert
//! that finds the load at four fifths of the capacity counter, or above,
//! first replaces the table by one of twice the size.
//!
//! The load counter counts calls, not keys: every insert adds one, also one
//! that overwrites, and every delete takes one away, also one that finds
//! nothing.

use crate::growth::{
    clone_of, lemma_mirrors_search, lemma_regrown, mirrors, no_deleted, regrown,
};
use crate::hash_table::{
    contents, lemma_insert, target_of, vacant_slots, valid, with_deleted, with_inserted, Entry,
    HashTable,
};
use crate::probe::MAX_CAPACITY;
use vstd::prelude::*;

verus! {

/// The capacity of a new map.
pub const INITIAL_CAPACITY: usize = 32;

/// Whether a load has reached four fifths of a capacity.
pub fn at_threshold(load: usize, limit: usize) -> (res: bool)
    ensures
        res == (5 * load >= 4 * limit),
{
    let wide_load: u128 = load as u128;
    let wide_limit: u128 = limit as u128;
    5 * wide_load >= 4 * wide_limit
}

/// A map from `i32` keys to values.
#[derive(Debug)]
pub struct HashMap<T> where T: Clone {
    data: HashTable<T>,
    count: usize,
    capacity: usize,
}

impl<T> View for HashMap<T> where T: Clone {
    type V = Map<i32, T>;

    /// The keys of the table, each with its value.
    open spec fn view(&self) -> Map<i32, T> {
        contents(self.slots())
    }
}

impl<T> HashMap<T> where T: Clone {
    /// The slots of the table.
    pub closed spec fn slots(&self) -> Seq<Entry<T>> {
        self.data.data@
    }

    /// The load counter: inserts made less deletes made.
    pub closed spec fn load(&self) -> int {
        self.count as int
    }

    /// The capacity counter, against which the load is held.
    pub closed spec fn limit(&self) -> int {
        self.capacity as int
    }

    /// The table is well formed.
    pub open spec fn wf(&self) -> bool {
        valid(self.slots())
    }

    /// Whether the load has reached four fifths of the capacity counter.
    pub open spec fn load_reached(&self) -> bool {
        5 * self.load() >= 4 * self.limit()
    }

    /// Whether the table can be replaced by one of twice the size: the size
    /// is within bounds, and every entry finds a slot in the new table.
    pub open spec fn can_grow(&self) -> bool {
        &&& 2 * self.slots().len() <= MAX_CAPACITY
        &&& regrown(self.slots()) is Some
    }

    /// The slots that an insert writes into: those of the table, or, where
    /// the load is reached, those of the table grown.
    pub open spec fn write_base(&self) -> Seq<Entry<T>> {
        if self.load_reached() {
            regrown(self.slots()).unwrap()
        } else {
            self.slots()
        }
    }

    /// Whether an insert of `key` goes through: the table can grow where it
    /// has to, and the key finds a slot.
    pub open spec fn accepts(&self, key: i32) -> bool {
        &&& self.load_reached() ==> self.can_grow()
        &&& target_of(self.write_base(), key) is Some
    }

    /// What an insert of `key` with `value` makes of this map. The table is
    /// the one written into with the entry added, values that went through
    /// a growth being clones; the load is one more, for a new key and for an
    /// old one alike; the capacity counter is the size of the table grown,
    /// where it grew.
    pub open spec fn insert_gives(&self, after: &Self, key: i32, value: T) -> bool {
        &&& after.wf()
        &&& after.load() == self.load() + 1
        &&& after.limit() == if self.load_reached() {
            2 * (self.slots().len() as int)
        } else {
            self.limit()
        }
        &&& mirrors(with_inserted(self.write_base(), key, value), after.slots())
        &&& after@.dom() == self@.dom().insert(key)
        &&& after@[key] == value
        &&& forall|other: i32|
            other != key && #[trigger] self@.contains_key(other) ==> cloned(
                self@[other],
                after@[other],
            )
        &&& !self.load_reached() ==> {
            &&& after.slots() == with_inserted(self.slots(), key, value)
            &&& after@ == self@.insert(key, value)
        }
    }

    /// An empty map of 32 slots.
    pub fn new() -> (map: HashMap<T>)
        ensures
            map.wf(),
            map.slots() == vacant_slots::<T>(INITIAL_CAPACITY as int),
            map@ == Map::<i32, T>::empty(),
            map.load() == 0,
            map.limit() == INITIAL_CAPACITY,
    {
        let data = HashTable::with_capacity(INITIAL_CAPACITY);
        HashMap { data, count: 0, capacity: INITIAL_CAPACITY }
    }

    /// The load counter.
    pub fn len(&self) -> (count: usize)
        ensures
            count == self.load(),
    {
        self.count
    }

    /// The number of slots of the table.
    pub fn slot_count(&self) -> (slots: usize)
        ensures
            slots == self.slots().len(),
    {
        self.data.data.len()
    }

    /// Whether the next insert grows the table first.
    pub fn needs_resize(&self) -> (res: bool)
        ensures
            res == self.load_reached(),
    {
        at_threshold(self.count, self.capacity)
    }

    /// Whether `insert` may be called with `key`.
    pub fn can_insert(&self, key: i32) -> (res: bool)
        requires
            self.wf(),
        ensures
            res == self.accepts(key),
    {
        if self.needs_resize() {
            if self.data.data.len() > MAX_CAPACITY / 2 {
                return false;
            }
            match self.data.grown() {
                Some(table) => {
                    proof {
                        lemma_mirrors_search(regrown(self.slots()).unwrap(), table.data@, key);
                    }
                    table.can_insert(key)
                },
                None => false,
            }
        } else {
            self.data.can_insert(key)
        }
    }

    /// Maps `key` to `value`, after growing the table where the load is
    /// reached, and adds one to the load.
    pub fn insert(&mut self, key: i32, value: T)
        requires
            old(self).wf(),
            old(self).load() < usize::MAX,
            old(self).accepts(key),
        ensures
            old(self).insert_gives(final(self), key, value),
    {
        let ghost base = self.write_base();
        if self.needs_resize() {
            let grown = self.resize();
            self.capacity = grown;
        }
        proof {
            if old(self).load_reached() {
                lemma_regrown(old(self).slots());
            }
            lemma_mirrors_search(base, self.slots(), key);
            lemma_insert(base, key, value);
            lemma_insert(self.slots(), key, value);
        }
        self.data.insert(key, value);
        self.count = self.count + 1;
    }

    /// As `insert`, where the map accepts the key. Where it does not, the
    /// map stays as it is and the value comes back.
    pub fn try_insert(&mut self, key: i32, value: T) -> (res: Result<(), T>)
        requires
            old(self).wf(),
            old(self).load() < usize::MAX,
        ensures
            final(self).wf(),
            match res {
                Ok(_) => old(self).accepts(key) && old(self).insert_gives(final(self), key, value),
                Err(back) => !old(self).accepts(key) && back == value && *final(self) == *old(
                    self,
                ),
            },
    {
        if self.needs_resize() {
            if self.data.data.len() > MAX_CAPACITY / 2 {
                return Err(value);
            }
            match self.data.grown() {
                Some(table) => {
                    let mut table = table;
                    proof {
                        lemma_regrown(self.slots());
                        lemma_mirrors_search(regrown(self.slots()).unwrap(), table.data@, key);
                        if self.accepts(key) {
                            lemma_insert(regrown(self.slots()).unwrap(), key, value);
                            lemma_insert(table.data@, key, value);
                        }
                    }
                    match table.try_insert(key, value) {
                        Ok(_) => {
                            self.capacity = table.data.len();
                            self.data = table;
                            self.count = self.count + 1;
                            Ok(())
                        },
                        Err(back) => Err(back),
                    }
                },
                None => Err(value),
            }
        } else {
            proof {
                if self.accepts(key) {
                    lemma_insert(self.slots(), key, value);
                }
            }
            match self.data.try_insert(key, value) {
                Ok(_) => {
                    self.count = self.count + 1;
                    Ok(())
                },
                Err(back) => Err(back),
            }
        }
    }

    /// A clone of the value that `key` maps to, if the map holds `key`.
    pub fn get(&self, key: i32) -> (res: Option<T>)
        requires
            self.wf(),
        ensures
            match res {
                Some(value) => self@.contains_key(key) && cloned(self@[key], value),
                None => !self@.contains_key(key),
            },
    {
        self.data.get(key)
    }

    /// Takes `key` out of the map, if it is there, and takes one off the
    /// load, whether it was there or not.
    pub fn delete(&mut self, key: i32)
        requires
            old(self).wf(),
            old(self).load() > 0,
        ensures
            final(self).wf(),
            final(self).slots() == with_deleted(old(self).slots(), key),
            final(self)@ == old(self)@.remove(key),
            final(self).load() == old(self).load() - 1,
            final(self).limit() == old(self).limit(),
    {
        self.data.delete(key);
        self.count = self.count - 1;
    }

    /// Replaces the table by one of twice the size, into which the entries
    /// were inserted anew, and returns the new size. Deleted slots are left
    /// behind. The two counters stay as they are.
    pub fn resize(&mut self) -> (grown: usize)
        requires
            old(self).wf(),
            old(self).can_grow(),
        ensures
            grown == 2 * old(self).slots().len(),
            mirrors(regrown(old(self).slots()).unwrap(), final(self).slots()),
            final(self).wf(),
            no_deleted(final(self).slots()),
            clone_of(old(self)@, final(self)@),
            final(self).load() == old(self).load(),
            final(self).limit() == old(self).limit(),
    {
        match self.data.grown() {
            Some(table) => {
                self.data = table;
            },
            None => {},
        }
        self.data.data.len()
    }

    /// As `resize`, where the table can grow. Where it cannot, the map
    /// stays as it is and the result is `None`.
    pub fn try_resize(&mut self) -> (res: Option<usize>)
        requires
            old(self).wf(),
        ensures
            match res {
                Some(grown) => {
                    &&& old(self).can_grow()
                    &&& grown == 2 * old(self).slots().len()
                    &&& mirrors(regrown(old(self).slots()).unwrap(), final(self).slots())
                    &&& final(self).wf()
                    &&& no_deleted(final(self).slots())
                    &&& clone_of(old(self)@, final(self)@)
                    &&& final(self).load() == old(self).load()
                    &&& final(self).limit() == old(self).limit()
                },
                None => !old(self).can_grow() && *final(self) == *old(self),
            },
    {
        if self.data.data.len() > MAX_CAPACITY / 2 {
            return None;
        }
        match self.data.grown() {
            Some(table) => {
                let grown = table.data.len();
                self.data = table;
                Some(grown)
            },
            None => None,
        }
    }
}

} // verus!
