use probing_map::hash_table::{lookup, Entry, HashTable, LookupAction, OccupiedEntry};
use probing_map::probe::{hash, inner_hash, next_index, MAX_CAPACITY};
use std::collections::hash_map::DefaultHasher;
use std::hash::{Hash, Hasher};

fn occupied(key: i32, value: u32) -> Entry<u32> {
    Entry::Occupied(OccupiedEntry::new(key, value))
}

fn vacant(capacity: usize) -> Vec<Entry<u32>> {
    let mut data = Vec::new();
    for _ in 0..capacity {
        data.push(Entry::Vacant);
    }
    data
}

fn std_base(capacity: usize, key: i32) -> i32 {
    let mut hasher = DefaultHasher::new();
    key.hash(&mut hasher);
    ((hasher.finish() as u32) % capacity as u32) as i32
}

#[test]
fn hash_is_default_hasher_modulo_capacity() {
    for capacity in [2usize, 3, 32, 64, 1000, MAX_CAPACITY] {
        for key in [0, 1, -1, 2, 77, -150, 550, i32::MAX, i32::MIN] {
            let base = hash(capacity, key);
            assert!(0 <= base && (base as usize) < capacity);
            assert_eq!(base, std_base(capacity, key));
            assert_eq!(base, hash(capacity, key));
        }
    }
}

#[test]
fn inner_hash_is_remainder_plus_one() {
    assert_eq!(inner_hash(32, 0), 1);
    assert_eq!(inner_hash(32, 5), 6);
    assert_eq!(inner_hash(32, 30), 31);
    assert_eq!(inner_hash(32, 31), 1);
    assert_eq!(inner_hash(32, 40), 10);
    assert_eq!(inner_hash(32, -1), 0);
    assert_eq!(inner_hash(32, -5), -4);
    assert_eq!(inner_hash(32, -31), 1);
    assert_eq!(inner_hash(32, -61), -29);
    assert_eq!(inner_hash(2, 7), 1);
    assert_eq!(inner_hash(2, -7), 1);
    assert_eq!(inner_hash(64, 535), 32);
    assert_eq!(inner_hash(MAX_CAPACITY, i32::MAX), 2);
    assert_eq!(inner_hash(MAX_CAPACITY, i32::MIN), -1);
}

#[test]
fn next_index_wraps_both_ways() {
    assert_eq!(next_index(32, 5, 0), 6);
    assert_eq!(next_index(32, 5, 30), 4);
    assert_eq!(next_index(32, -5, 2), 30);
    assert_eq!(next_index(32, -5, 4), 0);
    assert_eq!(next_index(32, -1, 9), 9);
    assert_eq!(next_index(8, 3, 5), 1);
    assert_eq!(next_index(2, 1, 1), 0);
}

#[test]
fn occupied_entry_hands_out_key_and_value() {
    let entry = OccupiedEntry::new(-9, "nine".to_string());
    assert_eq!(entry.key(), -9);
    assert_eq!(entry.value(), "nine".to_string());
}

#[test]
fn lookup_stops_at_vacant_slot() {
    let data = vacant(8);
    assert_eq!(lookup(&LookupAction::Get(3), &data, 1), None);
    assert_eq!(lookup(&LookupAction::Delete(3), &data, 1), None);
    assert_eq!(lookup(&LookupAction::Insert(3), &data, 1), Some(1));
}

#[test]
fn lookup_follows_the_step_of_the_key() {
    // key 3 in 8 slots moves by 3 % 7 + 1 = 4
    let mut data = vacant(8);
    data[1] = occupied(9, 90);
    data[5] = occupied(3, 30);
    assert_eq!(lookup(&LookupAction::Get(3), &data, 1), Some(5));
    assert_eq!(lookup(&LookupAction::Delete(3), &data, 1), Some(5));
    assert_eq!(lookup(&LookupAction::Insert(3), &data, 1), Some(5));
    // key 2 moves by 3: 1, 4
    assert_eq!(lookup(&LookupAction::Get(2), &data, 1), None);
    assert_eq!(lookup(&LookupAction::Insert(2), &data, 1), Some(4));
    // key -3 moves by -2: 1, 7
    assert_eq!(lookup(&LookupAction::Insert(-3), &data, 1), Some(7));
}

#[test]
fn lookup_passes_over_deleted_slots() {
    // key 10 in 8 slots moves by 10 % 7 + 1 = 4: 2, 6, 2, 6, ..
    let mut data = vacant(8);
    data[2] = Entry::Deleted;
    assert_eq!(lookup(&LookupAction::Insert(10), &data, 2), Some(6));
    assert_eq!(lookup(&LookupAction::Get(10), &data, 2), None);
    data[6] = occupied(10, 1);
    assert_eq!(lookup(&LookupAction::Get(10), &data, 2), Some(6));
    assert_eq!(lookup(&LookupAction::Insert(10), &data, 2), Some(6));
}

#[test]
fn lookup_gives_up_after_one_cycle() {
    // key 10 only ever sees slots 2 and 6
    let mut data = vacant(8);
    data[2] = Entry::Deleted;
    data[6] = occupied(11, 1);
    assert_eq!(lookup(&LookupAction::Insert(10), &data, 2), None);
    assert_eq!(lookup(&LookupAction::Get(10), &data, 2), None);
    assert_eq!(lookup(&LookupAction::Delete(10), &data, 2), None);
    // key -1 moves by 0 and only ever sees its first slot
    assert_eq!(lookup(&LookupAction::Insert(-1), &data, 6), None);
    assert_eq!(lookup(&LookupAction::Insert(-1), &data, 3), Some(3));
}

#[test]
fn table_round_trip() {
    let mut table = HashTable::<String>::with_capacity(16);
    assert_eq!(table.data.len(), 16);
    assert_eq!(table.get(4), None);
    assert!(table.can_insert(4));
    table.insert(4, "four".to_string());
    assert_eq!(table.get(4), Some("four".to_string()));
    table.insert(4, "vier".to_string());
    assert_eq!(table.get(4), Some("vier".to_string()));
    let held = table.data.iter().filter(|slot| matches!(slot, Entry::Occupied(_))).count();
    assert_eq!(held, 1);
    table.delete(4);
    assert_eq!(table.get(4), None);
    let base = hash(16, 4) as usize;
    assert!(matches!(table.data[base], Entry::Deleted));
    table.delete(4);
    assert_eq!(table.get(4), None);
}

#[test]
fn first_insert_goes_to_the_base_slot() {
    for key in [0, 5, -5, 123456, -123456] {
        let mut table = HashTable::<u32>::with_capacity(32);
        table.insert(key, 1);
        let base = hash(32, key) as usize;
        match &table.data[base] {
            Entry::Occupied(pair) => {
                assert_eq!(pair.key(), key);
                assert_eq!(pair.value(), 1);
            },
            _ => panic!("base slot not occupied"),
        }
    }
}

#[test]
fn insert_probes_past_a_deleted_slot() {
    let first = 1;
    let base = hash(32, first);
    let mut second = 2;
    while hash(32, second) != base || inner_hash(32, second) % 2 == 0 {
        second += 1;
    }
    let mut table = HashTable::<u32>::with_capacity(32);
    table.insert(first, 10);
    table.delete(first);
    assert_eq!(table.try_insert(second, 20), Ok(()));
    assert!(matches!(table.data[base as usize], Entry::Deleted));
    let landed = next_index(32, second, base) as usize;
    match &table.data[landed] {
        Entry::Occupied(pair) => assert_eq!(pair.key(), second),
        _ => panic!("second key not one step after its base slot"),
    }
    assert_eq!(table.get(second), Some(20));
    assert_eq!(table.get(first), None);
}

#[test]
fn colliding_keys_are_both_found() {
    let first = 1;
    let base = hash(32, first);
    let mut second = 2;
    while hash(32, second) != base || inner_hash(32, second) % 2 == 0 {
        second += 1;
    }
    let mut table = HashTable::<u32>::with_capacity(32);
    table.insert(first, 10);
    table.insert(second, 20);
    assert_eq!(table.get(first), Some(10));
    assert_eq!(table.get(second), Some(20));
    table.delete(first);
    assert_eq!(table.get(first), None);
    assert_eq!(table.get(second), Some(20));
}

#[test]
fn try_insert_without_a_slot_gives_the_value_back() {
    let mut data: Vec<Entry<String>> = Vec::new();
    for _ in 0..4 {
        data.push(Entry::Deleted);
    }
    let mut table = HashTable { data };
    assert!(!table.can_insert(6));
    assert_eq!(table.try_insert(6, "six".to_string()), Err("six".to_string()));
    assert!(table.data.iter().all(|slot| matches!(slot, Entry::Deleted)));
    assert_eq!(table.get(6), None);
}

#[test]
fn grown_table_drops_deleted_slots() {
    let mut table = HashTable::<u32>::with_capacity(8);
    table.insert(1, 10);
    table.insert(2, 20);
    table.delete(1);
    let grown = table.grown().expect("two slots for one key");
    assert_eq!(grown.data.len(), 16);
    assert!(grown.data.iter().all(|slot| !matches!(slot, Entry::Deleted)));
    let held = grown.data.iter().filter(|slot| matches!(slot, Entry::Occupied(_))).count();
    assert_eq!(held, 1);
    assert_eq!(grown.get(2), Some(20));
    assert_eq!(grown.get(1), None);
    assert!(matches!(grown.data[hash(16, 2) as usize], Entry::Occupied(_)));
    assert_eq!(table.get(2), Some(20));
}

#[test]
fn growth_fails_when_an_entry_finds_no_slot() {
    // in 8 slots, the keys -1, -8, -15, .. move by 0
    let mut bases: Vec<(i32, i32)> = Vec::new();
    let mut pair: Option<(i32, i32)> = None;
    let mut key = -1;
    while pair.is_none() {
        let base = hash(8, key);
        for (other, other_base) in bases.iter() {
            if *other_base == base {
                pair = Some((*other, key));
            }
        }
        bases.push((key, base));
        key -= 7;
    }
    let (first, second) = pair.unwrap();
    assert_eq!(inner_hash(8, first), 0);
    assert_eq!(inner_hash(8, second), 0);
    let mut data = vacant(4);
    data[0] = occupied(first, 1);
    data[1] = occupied(second, 2);
    let table = HashTable { data };
    assert!(table.grown().is_none());
}
