use cuckoo_hash_map::displacement::max_displacements;

/// Exact values of the displacement bound floor(6 * log2(size + 1)) + 1.
#[test]
fn displacement_bound_exact_values() {
    assert_eq!(max_displacements(0), 1);
    assert_eq!(max_displacements(1), 7);
    // 6 * log2(3) is about 9.5, so the bound is 10.
    assert_eq!(max_displacements(2), 10);
    assert_eq!(max_displacements(3), 13);
    assert_eq!(max_displacements(7), 19);
    // 6 * log2(1024) = 60.
    assert_eq!(max_displacements(1023), 61);
    assert_eq!(max_displacements((1 << 20) - 1), 121);
}

/// The bound grows monotonically with occupancy.
#[test]
fn displacement_bound_monotone() {
    let mut prev = max_displacements(0);
    for size in 1..2000 {
        let next = max_displacements(size);
        assert!(next >= prev);
        prev = next;
    }
}
