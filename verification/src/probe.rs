//! The probe sequence of double hashing: where a key starts in an array of
//! `capacity` slots, and by how much it moves on after each collision.

use std::collections::hash_map::DefaultHasher;
use std::hash::Hasher;
use vstd::arithmetic::div_mod::{
    lemma_fundamental_div_mod, lemma_mod_add_multiples_vanish, lemma_mod_multiples_vanish,
    lemma_mod_sub_multiples_vanish, lemma_small_mod,
};
use vstd::bytes::{spec_u32_to_le_bytes, u32_to_le_bytes};
use vstd::prelude::*;
use vstd::std_specs::hash::DefaultHasherAdditionalSpecFns;

verus! {

/// The largest number of slots a table may have: slot indices are `i32`.
pub const MAX_CAPACITY: usize = 0x7fff_ffff;

/// The 64-bit hash of a key: what the standard library's default hasher
/// returns after it was fed the key's four bytes, least significant first.
pub open spec fn key_hash(key: i32) -> u64 {
    DefaultHasher::spec_finish(seq![spec_u32_to_le_bytes(key as u32)])
}

/// The slot at which the probe sequence of `key` starts: the low 32 bits of
/// the key's hash, modulo the capacity.
pub open spec fn base_index(capacity: int, key: i32) -> int {
    ((key_hash(key) as u32) as int) % capacity
}

/// The step between two probes of `key`: the remainder of the key by
/// `capacity - 1`, with the key's sign, plus one.
pub open spec fn probe_step(capacity: int, key: i32) -> int {
    if key >= 0 {
        (key as int) % (capacity - 1) + 1
    } else {
        1 - (-(key as int)) % (capacity - 1)
    }
}

/// The slot of the `j`-th probe of `key`, counted from zero, in a sequence
/// that starts at `start`.
pub open spec fn probe_at(capacity: int, start: int, key: i32, j: int) -> int {
    (start + j * probe_step(capacity, key)) % capacity
}

/// Every probe falls on a slot of the array, and each probe is one step
/// after the one before it, modulo the capacity.
pub proof fn lemma_probe_next(capacity: int, start: int, key: i32, j: int)
    requires
        capacity >= 2,
    ensures
        0 <= probe_at(capacity, start, key, j) < capacity,
        probe_at(capacity, start, key, j + 1) == (probe_at(capacity, start, key, j) + probe_step(
            capacity,
            key,
        )) % capacity,
{
    let s = probe_step(capacity, key);
    let x = start + j * s;
    lemma_fundamental_div_mod(x, capacity);
    assert(start + (j + 1) * s == x + s) by (nonlinear_arith)
        requires
            x == start + j * s,
    ;
    lemma_mod_multiples_vanish(x / capacity, x % capacity + s, capacity);
}

/// The first probe is the starting slot itself.
pub proof fn lemma_probe_first(capacity: int, start: int, key: i32)
    requires
        capacity >= 2,
        0 <= start < capacity,
    ensures
        probe_at(capacity, start, key, 0) == start,
{
    assert(0 * probe_step(capacity, key) == 0);
    lemma_small_mod(start as nat, capacity as nat);
}

/// Hashes `key` to its starting slot in an array of `capacity` slots.
pub fn hash(capacity: usize, key: i32) -> (res: i32)
    requires
        0 < capacity <= MAX_CAPACITY,
    ensures
        res == base_index(capacity as int, key),
        0 <= res < capacity,
{
    let mut hasher = DefaultHasher::new();
    let bytes = u32_to_le_bytes(key as u32);
    hasher.write(bytes.as_slice());
    let digest = hasher.finish();
    proof {
        assert(hasher@ =~= seq![spec_u32_to_le_bytes(key as u32)]);
    }
    let res = (digest as u32) % (capacity as u32);
    res as i32
}

/// The step by which the probe sequence of `key` advances.
pub fn inner_hash(capacity: usize, key: i32) -> (res: i32)
    requires
        2 <= capacity <= MAX_CAPACITY,
    ensures
        res == probe_step(capacity as int, key),
{
    let modulus: i64 = capacity as i64 - 1;
    let wide: i64 = key as i64;
    if wide >= 0 {
        ((wide % modulus) + 1) as i32
    } else {
        (1 - ((-wide) % modulus)) as i32
    }
}

/// The slot that follows `index` in the probe sequence of `key`.
pub fn next_index(capacity: usize, key: i32, index: i32) -> (res: i32)
    requires
        2 <= capacity <= MAX_CAPACITY,
        0 <= index < capacity,
    ensures
        res == (index + probe_step(capacity as int, key)) % (capacity as int),
        0 <= res < capacity,
{
    let step: i64 = inner_hash(capacity, key) as i64;
    let moved: i64 = index as i64 + step;
    let cap: i64 = capacity as i64;
    if moved >= cap {
        proof {
            lemma_mod_sub_multiples_vanish(moved as int, cap as int);
            lemma_small_mod((moved - cap) as nat, cap as nat);
        }
        (moved - cap) as i32
    } else if moved < 0 {
        proof {
            lemma_mod_add_multiples_vanish(moved as int, cap as int);
            lemma_small_mod((moved + cap) as nat, cap as nat);
        }
        (moved + cap) as i32
    } else {
        proof {
            lemma_small_mod(moved as nat, cap as nat);
        }
        moved as i32
    }
}

} // verus!
