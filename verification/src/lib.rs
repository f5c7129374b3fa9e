//! A fixed-slot, open-addressed hash table with `i32` keys, and a map built on
//! it that grows the table when its load counter reaches four fifths of the
//! capacity.

pub mod growth;
pub mod hash_map;
pub mod hash_table;
pub mod laws;
pub mod probe;

pub use hash_map::HashMap;
pub use hash_table::{HashTable, OccupiedEntry};
