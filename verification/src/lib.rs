//! A fixed-capacity cuckoo hash table over `i32` keys.
//!
//! Keys are stored in one of two equal-sized slot arrays; each array has its
//! own hash function, drawn from a [`hashes::HashFamily`]. An insertion that
//! cannot be completed within a bounded chain of displacements falls back to a
//! full rehash with freshly drawn hash functions.

pub mod displacement;
pub mod hashes;
pub mod laws;
pub mod table;

pub use hashes::{
    five_indep_hash_family, random_field_elem, random_table_input, three_indep_hash_family,
    two_indep_hash_family, FamilyKind, HashFamily, HashFunction,
};
pub use table::CuckooHashTable;
