//! Hash functions for the table: polynomials of fixed degree over the prime
//! field `Z mod K_LARGE_PRIME`, with coefficients drawn at random, and the
//! families that draw them.

use vstd::arithmetic::div_mod::{lemma_add_mod_noop, lemma_mul_mod_noop_left};
use vstd::arithmetic::mul::{lemma_mul_nonnegative, lemma_mul_upper_bound};
use vstd::prelude::*;

verus! {

/// The Mersenne prime 2^31 - 1, the modulus of the coefficient field.
pub const K_LARGE_PRIME: u64 = 2147483647;

/// A hash function drawn from one of the families: a polynomial over the
/// prime field, tagged by its degree, closed over its random coefficients.
#[derive(Clone, Copy)]
pub enum HashFunction {
    /// `a*x + b mod K_LARGE_PRIME`
    Poly2 { a: u64, b: u64 },
    /// `a*x^2 + b*x + c mod K_LARGE_PRIME`
    Poly3 { a: u64, b: u64, c: u64 },
    /// `a*x^4 + b*x^3 + c*x^2 + d*x + e mod K_LARGE_PRIME`
    Poly5 { a: u64, b: u64, c: u64, d: u64, e: u64 },
}

/// The digest of `key` under `h`: the polynomial given by `h`'s coefficients,
/// in Horner form, evaluated at `key` (reinterpreted as an unsigned word) and
/// reduced modulo `K_LARGE_PRIME`.
pub closed spec fn hash_value(h: HashFunction, key: i32) -> int {
    let x = key as u64 as int;
    let p = K_LARGE_PRIME as int;
    match h {
        HashFunction::Poly2 { a, b } => (a * x + b) % p,
        HashFunction::Poly3 { a, b, c } => ((a * x + b) * x + c) % p,
        HashFunction::Poly5 { a, b, c, d, e } => ((((a * x + b) * x + c) * x + d) * x + e) % p,
    }
}

/// A Horner step stays inside 128-bit arithmetic as long as both the
/// accumulator and the point of evaluation fit in a 64-bit word.
proof fn lemma_step_in_range(acc: int, x: int, c: int)
    requires
        0 <= acc < 0x10000000000000000,
        0 <= x < 0x10000000000000000,
        0 <= c < 0x10000000000000000,
    ensures
        0 <= acc * x + c < 0x100000000000000000000000000000000,
{
    lemma_mul_upper_bound(acc, 0xffffffffffffffff, x, 0xffffffffffffffff);
    lemma_mul_nonnegative(acc, x);
}

/// One step of Horner evaluation may reduce its accumulator modulo `m`
/// without changing the final residue.
proof fn lemma_horner_step(acc: int, x: int, c: int, m: int)
    requires
        0 < m,
    ensures
        ((acc % m) * x + c) % m == (acc * x + c) % m,
{
    lemma_mul_mod_noop_left(acc, x, m);
    lemma_add_mod_noop((acc % m) * x, c, m);
    lemma_add_mod_noop(acc * x, c, m);
}

impl HashFunction {
    /// Evaluates the polynomial at `key`, reduced modulo `K_LARGE_PRIME`.
    ///
    /// Intermediate values are reduced after every Horner step, so the whole
    /// evaluation fits comfortably in 128-bit arithmetic.
    pub fn apply(&self, key: i32) -> (r: usize)
        ensures
            r as int == hash_value(*self, key),
            r < K_LARGE_PRIME as usize,
    {
        let x: u128 = key as u64 as u128;
        let p: u128 = K_LARGE_PRIME as u128;
        match self {
            HashFunction::Poly2 { a, b } => {
                proof {
                    lemma_step_in_range(*a as int, x as int, *b as int);
                }
                let acc: u128 = ((*a as u128) * x + (*b as u128)) % p;
                acc as usize
            },
            HashFunction::Poly3 { a, b, c } => {
                proof {
                    lemma_step_in_range(*a as int, x as int, *b as int);
                }
                let acc1: u128 = ((*a as u128) * x + (*b as u128)) % p;
                proof {
                    lemma_step_in_range(acc1 as int, x as int, *c as int);
                }
                let acc2: u128 = (acc1 * x + (*c as u128)) % p;
                proof {
                    lemma_horner_step(*a * (key as u64 as int) + *b, key as u64 as int, *c as int, p as int);
                }
                acc2 as usize
            },
            HashFunction::Poly5 { a, b, c, d, e } => {
                proof {
                    lemma_step_in_range(*a as int, x as int, *b as int);
                }
                let acc1: u128 = ((*a as u128) * x + (*b as u128)) % p;
                proof {
                    lemma_step_in_range(acc1 as int, x as int, *c as int);
                }
                let acc2: u128 = (acc1 * x + (*c as u128)) % p;
                proof {
                    lemma_step_in_range(acc2 as int, x as int, *d as int);
                }
                let acc3: u128 = (acc2 * x + (*d as u128)) % p;
                proof {
                    lemma_step_in_range(acc3 as int, x as int, *e as int);
                }
                let acc4: u128 = (acc3 * x + (*e as u128)) % p;
                proof {
                    let xi: int = key as u64 as int;
                    let pi: int = p as int;
                    lemma_horner_step(*a * xi + *b, xi, *c as int, pi);
                    lemma_horner_step((*a * xi + *b) * xi + *c, xi, *d as int, pi);
                    lemma_horner_step(((*a * xi + *b) * xi + *c) * xi + *d, xi, *e as int, pi);
                }
                acc4 as usize
            },
        }
    }
}

/// A random key suitable for exercising the table.
///
/// Relies on rand::random_range: a draw from the half-open range handed to it,
/// here `[0, 2^30)`, via the thread-local generator.
#[verifier::external_body]
pub fn random_table_input() -> (r: i32)
    ensures
        0 <= r < 0x40000000,
{
    rand::random_range(0..1073741824i32)
}

/// A random element of the coefficient field.
///
/// Relies on rand::random_range: a draw from the half-open range handed to it,
/// here `[0, K_LARGE_PRIME - 1)`, via the thread-local generator.
#[verifier::external_body]
pub fn random_field_elem() -> (r: usize)
    ensures
        r < (K_LARGE_PRIME - 1) as usize,
{
    rand::random_range(0..(K_LARGE_PRIME - 1) as usize)
}

/// The fixed polynomial degree of a family's hash functions, which sets how
/// many random coefficients each draw samples.
#[derive(Clone, Copy)]
pub enum FamilyKind {
    TwoIndependent,
    ThreeIndependent,
    FiveIndependent,
}

/// A generator of independently drawn hash functions: every call of [`Self::get`]
/// samples fresh random coefficients for a polynomial of the family's degree.
#[derive(Clone)]
pub struct HashFamily {
    /// Which polynomial degree this family draws.
    pub kind: FamilyKind,
    /// A descriptive name for diagnostics.
    pub name: String,
}

/// Whether every coefficient of `h` lies in `[0, K_LARGE_PRIME - 1)`, the
/// range the families draw from.
pub open spec fn coefficients_in_field(h: HashFunction) -> bool {
    match h {
        HashFunction::Poly2 { a, b } => a < K_LARGE_PRIME - 1 && b < K_LARGE_PRIME - 1,
        HashFunction::Poly3 { a, b, c } => a < K_LARGE_PRIME - 1 && b < K_LARGE_PRIME - 1 && c
            < K_LARGE_PRIME - 1,
        HashFunction::Poly5 { a, b, c, d, e } => a < K_LARGE_PRIME - 1 && b < K_LARGE_PRIME - 1
            && c < K_LARGE_PRIME - 1 && d < K_LARGE_PRIME - 1 && e < K_LARGE_PRIME - 1,
    }
}

/// Whether `h` has the polynomial degree that functions of family `f` carry.
pub open spec fn from_family(f: HashFamily, h: HashFunction) -> bool {
    match f.kind {
        FamilyKind::TwoIndependent => h is Poly2,
        FamilyKind::ThreeIndependent => h is Poly3,
        FamilyKind::FiveIndependent => h is Poly5,
    }
}

impl HashFamily {
    /// Draws a fresh hash function: a polynomial of the family's degree with
    /// freshly sampled random coefficients.
    pub fn get(&self) -> (h: HashFunction)
        ensures
            from_family(*self, h),
            coefficients_in_field(h),
    {
        match self.kind {
            FamilyKind::TwoIndependent => HashFunction::Poly2 {
                a: random_field_elem() as u64,
                b: random_field_elem() as u64,
            },
            FamilyKind::ThreeIndependent => HashFunction::Poly3 {
                a: random_field_elem() as u64,
                b: random_field_elem() as u64,
                c: random_field_elem() as u64,
            },
            FamilyKind::FiveIndependent => HashFunction::Poly5 {
                a: random_field_elem() as u64,
                b: random_field_elem() as u64,
                c: random_field_elem() as u64,
                d: random_field_elem() as u64,
                e: random_field_elem() as u64,
            },
        }
    }
}

/// A family of polynomials of degree one over the field: pairwise-independent
/// hashing.
pub fn two_indep_hash_family() -> (f: HashFamily)
    ensures
        f.kind is TwoIndependent,
        f.name@ == "2-Independent Hash Family"@,
{
    HashFamily { kind: FamilyKind::TwoIndependent, name: "2-Independent Hash Family".to_owned() }
}

/// A family of polynomials of degree two over the field: three-wise-independent
/// hashing.
pub fn three_indep_hash_family() -> (f: HashFamily)
    ensures
        f.kind is ThreeIndependent,
        f.name@ == "3-Independent Hash Family"@,
{
    HashFamily { kind: FamilyKind::ThreeIndependent, name: "3-Independent Hash Family".to_owned() }
}

/// A family of polynomials of degree four over the field: five-wise-independent
/// hashing.
pub fn five_indep_hash_family() -> (f: HashFamily)
    ensures
        f.kind is FiveIndependent,
        f.name@ == "5-Independent Hash Family"@,
{
    HashFamily { kind: FamilyKind::FiveIndependent, name: "5-Independent Hash Family".to_owned() }
}

} // verus!
