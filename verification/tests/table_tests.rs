use cuckoo_hash_map::{
    five_indep_hash_family, random_table_input, three_indep_hash_family, two_indep_hash_family,
    CuckooHashTable,
};

/// The scenario from the original driver, once per hash family: inserts,
/// positive and negative lookups, removals, and a repeated insert whose
/// second call must not change the size.
#[test]
fn correctness_scenario_each_family() {
    let families = [
        two_indep_hash_family(),
        three_indep_hash_family(),
        five_indep_hash_family(),
    ];
    for family in families {
        let mut table = CuckooHashTable::new(1024, family);
        assert!(table.insert(5).is_none());
        assert!(table.insert(7).is_none());
        assert_eq!(table.len(), 2);
        assert!(table.contains(5));
        assert!(table.contains(7));
        assert!(!table.contains(42));
        assert!(!table.contains(137));
        table.remove(5);
        assert!(!table.contains(5));
        table.remove(7);
        assert!(!table.contains(7));
        assert_eq!(table.len(), 0);
        assert!(table.insert(5).is_none());
        assert!(table.insert(5).is_none());
        assert!(table.contains(5));
        assert_eq!(table.len(), 1);
    }
}

/// Inserting the same key repeatedly stores it once.
#[test]
fn idempotent_insert() {
    let mut table = CuckooHashTable::new(64, two_indep_hash_family());
    assert!(table.insert(9).is_none());
    assert!(table.insert(9).is_none());
    assert!(table.insert(9).is_none());
    assert_eq!(table.len(), 1);
    assert!(table.contains(9));
}

/// Fresh keys round-trip: insert makes contains true, remove makes it false.
#[test]
fn round_trip_fresh_keys() {
    let mut table = CuckooHashTable::new(64, three_indep_hash_family());
    for k in [0, 1, 17, 1000, -5, i32::MIN, i32::MAX] {
        assert!(!table.contains(k));
        assert!(table.insert(k).is_none());
        assert!(table.contains(k));
    }
    for k in [0, 1, 17, 1000, -5, i32::MIN, i32::MAX] {
        table.remove(k);
        assert!(!table.contains(k));
    }
    assert_eq!(table.len(), 0);
}

/// Keys never inserted are never reported present.
#[test]
fn negative_lookups() {
    let mut table = CuckooHashTable::new(128, five_indep_hash_family());
    for k in [1, 2, 3, 4, 5] {
        assert!(table.insert(k).is_none());
    }
    for k in [0, 6, 42, 137, -1, 999999] {
        assert!(!table.contains(k));
    }
}

/// Removing an absent key is a no-op.
#[test]
fn remove_absent_is_noop() {
    let mut table = CuckooHashTable::new(32, two_indep_hash_family());
    assert!(table.insert(3).is_none());
    table.remove(4);
    assert_eq!(table.len(), 1);
    assert!(table.contains(3));
    table.remove(3);
    table.remove(3);
    assert_eq!(table.len(), 0);
}

/// A table of the minimum capacity still holds two distinct keys: the second
/// insert must displace the first into the other array.
#[test]
fn min_capacity_two() {
    let mut table = CuckooHashTable::new(2, two_indep_hash_family());
    assert!(table.insert(11).is_none());
    assert!(table.insert(22).is_none());
    assert_eq!(table.len(), 2);
    assert!(table.contains(11));
    assert!(table.contains(22));
}

/// Capacity boundary: a table of capacity four accepts four distinct keys.
#[test]
fn capacity_fill() {
    let mut table = CuckooHashTable::new(4, two_indep_hash_family());
    for k in [10, 20, 30, 40] {
        assert!(table.insert(k).is_none());
    }
    assert_eq!(table.len(), 4);
    for k in [10, 20, 30, 40] {
        assert!(table.contains(k));
    }
}

/// An odd requested capacity truncates one unit: the table still works.
#[test]
fn odd_capacity() {
    let mut table = CuckooHashTable::new(5, three_indep_hash_family());
    assert!(table.insert(100).is_none());
    assert!(table.insert(200).is_none());
    assert!(table.contains(100));
    assert!(table.contains(200));
    assert_eq!(table.len(), 2);
}

/// A load factor well past one-half forces displacement chains and, with
/// high probability across runs, full rehashes; every key must remain
/// discoverable under whatever hash functions end up installed.
#[test]
fn heavy_load_keeps_keys_discoverable() {
    let mut table = CuckooHashTable::new(64, five_indep_hash_family());
    for k in 0..40 {
        assert!(table.insert(k * 7 + 1).is_none());
    }
    assert_eq!(table.len(), 40);
    for k in 0..40 {
        assert!(table.contains(k * 7 + 1));
    }
    for k in 0..40 {
        table.remove(k * 7 + 1);
    }
    assert_eq!(table.len(), 0);
}

/// The stress pass from the original driver: a large table, a million
/// pseudo-random keys in, all found, all removed, none found.
#[test]
fn stress_large_table() {
    let mut table = CuckooHashTable::new(1 << 22, five_indep_hash_family());
    let mut inputs = Vec::with_capacity(1 << 20);
    for _ in 0..(1 << 20) {
        inputs.push(random_table_input());
    }
    for &input in &inputs {
        assert!(table.insert(input).is_none());
    }
    for &input in &inputs {
        assert!(table.contains(input));
    }
    for &input in &inputs {
        table.remove(input);
    }
    for &input in &inputs {
        assert!(!table.contains(input));
    }
}
