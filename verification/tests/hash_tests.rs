use cuckoo_hash_map::{
    five_indep_hash_family, random_field_elem, random_table_input, three_indep_hash_family,
    two_indep_hash_family, FamilyKind, HashFunction,
};

const K_LARGE_PRIME: u64 = 2147483647;

/// Exact digests of the degree-one polynomial.
#[test]
fn poly2_exact_values() {
    let h = HashFunction::Poly2 { a: 3, b: 7 };
    assert_eq!(h.apply(10), 37);
    let h = HashFunction::Poly2 { a: 0, b: 0 };
    assert_eq!(h.apply(123456), 0);
    // (p - 1) + (p - 1) wraps to p - 2 in the field.
    let h = HashFunction::Poly2 {
        a: K_LARGE_PRIME - 1,
        b: K_LARGE_PRIME - 1,
    };
    assert_eq!(h.apply(1), (K_LARGE_PRIME - 2) as usize);
}

/// A negative key hashes through its unsigned 64-bit image: 2^64 - 1 is
/// congruent to 3 modulo 2^31 - 1.
#[test]
fn poly2_negative_key() {
    let h = HashFunction::Poly2 { a: 1, b: 0 };
    assert_eq!(h.apply(-1), 3);
}

/// Exact digests of the degree-two polynomial a*x^2 + b*x + c.
#[test]
fn poly3_exact_values() {
    let h = HashFunction::Poly3 { a: 1, b: 2, c: 3 };
    assert_eq!(h.apply(5), 38);
    let h = HashFunction::Poly3 { a: 2, b: 0, c: 1 };
    assert_eq!(h.apply(100), 20001);
}

/// Exact digests of the degree-four polynomial.
#[test]
fn poly5_exact_values() {
    let h = HashFunction::Poly5 {
        a: 1,
        b: 0,
        c: 0,
        d: 0,
        e: 0,
    };
    assert_eq!(h.apply(3), 81);
    let h = HashFunction::Poly5 {
        a: 1,
        b: 1,
        c: 1,
        d: 1,
        e: 1,
    };
    // 2^4 + 2^3 + 2^2 + 2 + 1
    assert_eq!(h.apply(2), 31);
}

/// Digests stay below the field prime even for coefficients near it.
#[test]
fn digests_in_field_range() {
    let h = HashFunction::Poly5 {
        a: K_LARGE_PRIME - 2,
        b: K_LARGE_PRIME - 2,
        c: K_LARGE_PRIME - 2,
        d: K_LARGE_PRIME - 2,
        e: K_LARGE_PRIME - 2,
    };
    for key in [0, 1, -1, i32::MAX, i32::MIN, 123456789] {
        assert!(h.apply(key) < K_LARGE_PRIME as usize);
    }
}

/// A drawn hash function is a fixed mapping: same key, same digest.
#[test]
fn drawn_functions_are_deterministic() {
    let fam = five_indep_hash_family();
    let h = fam.get();
    for key in [0, 1, 42, -17] {
        assert_eq!(h.apply(key), h.apply(key));
    }
}

/// Each constructor yields a family of the advertised degree and name.
#[test]
fn family_kinds_and_names() {
    let two = two_indep_hash_family();
    assert!(matches!(two.kind, FamilyKind::TwoIndependent));
    assert_eq!(two.name, "2-Independent Hash Family");
    assert!(matches!(two.get(), HashFunction::Poly2 { .. }));

    let three = three_indep_hash_family();
    assert!(matches!(three.kind, FamilyKind::ThreeIndependent));
    assert_eq!(three.name, "3-Independent Hash Family");
    assert!(matches!(three.get(), HashFunction::Poly3 { .. }));

    let five = five_indep_hash_family();
    assert!(matches!(five.kind, FamilyKind::FiveIndependent));
    assert_eq!(five.name, "5-Independent Hash Family");
    assert!(matches!(five.get(), HashFunction::Poly5 { .. }));
}

/// Two draws from a family can differ: the family supplies fresh entropy.
#[test]
fn family_draws_vary() {
    let fam = two_indep_hash_family();
    let mut saw_difference = false;
    for _ in 0..64 {
        let (h1, h2) = (fam.get(), fam.get());
        let mut differs = false;
        for key in 0..16 {
            if h1.apply(key) != h2.apply(key) {
                differs = true;
            }
        }
        if differs {
            saw_difference = true;
        }
    }
    assert!(saw_difference);
}

/// Random draws respect their advertised ranges.
#[test]
fn random_draws_in_range() {
    for _ in 0..1000 {
        let k = random_table_input();
        assert!((0..1 << 30).contains(&k));
        let e = random_field_elem();
        assert!(e < (K_LARGE_PRIME - 1) as usize);
    }
}
