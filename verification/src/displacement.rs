//! The displacement bound: an insertion may evict at most
//! `floor(6 * log2(size + 1)) + 1` resident keys before the table falls back
//! to a full rehash. The bound is computed exactly in integer arithmetic as
//! `floor(log2((size + 1)^6)) + 1`, with `size + 1` capped at 2^21 so that
//! the sixth power fits in 128 bits; the cap only lowers the bound slightly
//! for tables holding more than two million keys.

use vstd::arithmetic::power::lemma_pow0;
use vstd::arithmetic::power2::{
    lemma2_to64_rest, lemma_pow2_adds, lemma_pow2_pos, lemma_pow2_unfold, pow2,
};
use vstd::prelude::*;

verus! {

/// Floor of the base-two logarithm.
pub open spec fn log2_floor(n: int) -> int
    decreases n,
{
    if n < 2 {
        0
    } else {
        1 + log2_floor(n / 2)
    }
}

/// The sixth power, so that `log2_floor(pow6(n)) == floor(6 * log2(n))`.
pub open spec fn pow6(n: int) -> int {
    n * n * n * n * n * n
}

/// How many displacements an insertion may attempt before rehashing, as a
/// function of the current number of stored keys: `floor(6 * log2(size + 1))
/// + 1`, written as `floor(log2((size + 1)^6)) + 1`. The argument of the
/// sixth power is capped at 2^21 — the largest value whose sixth power fits
/// in 128 bits — so the bound is exact for every table holding up to two
/// million keys and only slightly understated above that
/// (`lemma_displacement_bound_cap`); a shorter chain merely rehashes sooner
/// and never changes which keys are stored.
pub open spec fn displacement_bound(size: int) -> int {
    let n = if size + 1 <= 0x200000 { size + 1 } else { 0x200000 };
    log2_floor(pow6(n)) + 1
}

/// The cap in `displacement_bound` never raises the bound: below it the
/// bound equals `floor(log2((size + 1)^6)) + 1` outright, and above it the
/// capped bound stays at or under the uncapped value.
pub proof fn lemma_displacement_bound_cap(size: int)
    requires
        0 <= size,
    ensures
        size + 1 <= 0x200000 ==> displacement_bound(size) == log2_floor(pow6(size + 1)) + 1,
        displacement_bound(size) <= log2_floor(pow6(size + 1)) + 1,
{
    if size + 1 > 0x200000 {
        assert(pow6(0x200000) <= pow6(size + 1)) by (nonlinear_arith)
            requires
                0x200000 <= size + 1,
        ;
        lemma_log2_floor_mono(pow6(0x200000), pow6(size + 1));
    }
}

proof fn lemma_log2_floor_nonneg(n: int)
    ensures
        log2_floor(n) >= 0,
    decreases n,
{
    if n >= 2 {
        lemma_log2_floor_nonneg(n / 2);
    }
}

proof fn lemma_log2_floor_mono(a: int, b: int)
    requires
        a <= b,
    ensures
        log2_floor(a) <= log2_floor(b),
    decreases b,
{
    if a < 2 {
        lemma_log2_floor_nonneg(b);
    } else {
        lemma_log2_floor_mono(a / 2, b / 2);
    }
}

proof fn lemma_log2_floor_pow2(k: nat)
    ensures
        log2_floor(pow2(k) as int) == k,
    decreases k,
{
    if k == 0 {
        lemma_pow0(2);
        assert(pow2(0) == 1);
        assert(log2_floor(1) == 0);
    } else {
        lemma_pow2_unfold(k);
        lemma_pow2_pos((k - 1) as nat);
        lemma_log2_floor_pow2((k - 1) as nat);
        assert(pow2(k) as int / 2 == pow2((k - 1) as nat) as int);
        assert(pow2(k) >= 2);
        assert(log2_floor(pow2(k) as int) == 1 + log2_floor(pow2(k) as int / 2));
        assert(log2_floor(pow2(k) as int) == 1 + (k - 1));
    }
}

/// Computes `displacement_bound` for the given occupancy; the chain is
/// always allowed at least one placement attempt.
pub fn max_displacements(size: usize) -> (r: usize)
    ensures
        r as int == displacement_bound(size as int),
        r >= 1,
{
    let n: u128 = if size <= 0x1FFFFF {
        (size + 1) as u128
    } else {
        0x200000
    };
    assert(n as int == if size as int + 1 <= 0x200000 {
        size as int + 1
    } else {
        0x200000
    });
    assert(1 <= n * n <= 0x40000000000) by (nonlinear_arith)
        requires
            1 <= n <= 0x200000,
    ;
    let n2: u128 = n * n;
    assert(1 <= n2 * n <= 0x8000000000000000) by (nonlinear_arith)
        requires
            1 <= n <= 0x200000 && 1 <= n2 <= 0x40000000000,
    ;
    let n3: u128 = n2 * n;
    assert(1 <= n3 * n <= 0x1000000000000000000000) by (nonlinear_arith)
        requires
            1 <= n <= 0x200000 && 1 <= n3 <= 0x8000000000000000,
    ;
    let n4: u128 = n3 * n;
    assert(1 <= n4 * n <= 0x200000000000000000000000000) by (nonlinear_arith)
        requires
            1 <= n <= 0x200000 && 1 <= n4 <= 0x1000000000000000000000,
    ;
    let n5: u128 = n4 * n;
    assert(1 <= n5 * n <= 0x40000000000000000000000000000000) by (nonlinear_arith)
        requires
            1 <= n <= 0x200000 && 1 <= n5 <= 0x200000000000000000000000000,
    ;
    let n6: u128 = n5 * n;
    let ghost target: int = log2_floor(n6 as int);
    let mut m: u128 = n6;
    let mut lg: usize = 0;
    proof {
        lemma2_to64_rest();
        lemma_pow2_adds(63, 63);
        assert(pow2(126) == pow2(63) * pow2(63));
        assert(pow2(63) == 0x8000000000000000);
        assert(pow2(126) == 0x40000000000000000000000000000000);
        lemma_log2_floor_mono(n6 as int, 0x40000000000000000000000000000000);
        lemma_log2_floor_pow2(126);
    }
    while m >= 2
        invariant
            1 <= m,
            lg + log2_floor(m as int) == target,
            target <= 126,
        decreases m,
    {
        proof {
            lemma_log2_floor_nonneg(m as int / 2);
        }
        m = m / 2;
        lg = lg + 1;
    }
    lg + 1
}

} // verus!
