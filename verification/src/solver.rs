//! Character set solver for subsumption checking.
//!
//! The solver provides operations on character sets (minterms) that enable
//! subsumption detection during pattern normalization.
use vstd::prelude::*;
use vstd::arithmetic::power2::{pow2, lemma_pow2_unfold, lemma2_to64};

verus! {

/// Character set algebra.
///
/// Each operation is described by a spec function of the implementing type.
/// Character sets are copied by value.
pub trait CharSetSolver: Clone {
    /// The character set type.
    type CharSet: Copy + PartialEq + Default;

    /// The empty set, as a value.
    spec fn spec_empty(&self) -> Self::CharSet;

    /// The full set, as a value.
    spec fn spec_full(&self) -> Self::CharSet;

    /// Whether a set is empty.
    spec fn spec_is_empty(&self, set: Self::CharSet) -> bool;

    /// Whether a set is full.
    spec fn spec_is_full(&self, set: Self::CharSet) -> bool;

    /// Intersection.
    spec fn spec_and(&self, a: Self::CharSet, b: Self::CharSet) -> Self::CharSet;

    /// Union.
    spec fn spec_or(&self, a: Self::CharSet, b: Self::CharSet) -> Self::CharSet;

    /// Complement.
    spec fn spec_not(&self, set: Self::CharSet) -> Self::CharSet;

    /// Whether `larger` contains `smaller`: `smaller ∩ larger == smaller`.
    open spec fn spec_contains(&self, larger: Self::CharSet, smaller: Self::CharSet) -> bool {
        self.spec_and(smaller, larger) == smaller
    }

    /// The empty character set (matches nothing).
    fn empty(&self) -> (r: Self::CharSet)
        ensures
            r == self.spec_empty(),
    ;

    /// The full character set (matches everything).
    fn full(&self) -> (r: Self::CharSet)
        ensures
            r == self.spec_full(),
    ;

    /// Check if a character set is empty.
    fn is_empty(&self, set: &Self::CharSet) -> (r: bool)
        ensures
            r == self.spec_is_empty(*set),
    ;

    /// Check if a character set is full (matches all characters).
    fn is_full(&self, set: &Self::CharSet) -> (r: bool)
        ensures
            r == self.spec_is_full(*set),
    ;

    /// Compute the intersection of two character sets.
    fn and(&self, a: &Self::CharSet, b: &Self::CharSet) -> (r: Self::CharSet)
        ensures
            r == self.spec_and(*a, *b),
    ;

    /// Compute the union of two character sets.
    fn or(&self, a: &Self::CharSet, b: &Self::CharSet) -> (r: Self::CharSet)
        ensures
            r == self.spec_or(*a, *b),
    ;

    /// Compute the complement of a character set.
    fn not(&self, set: &Self::CharSet) -> (r: Self::CharSet)
        ensures
            r == self.spec_not(*set),
    ;

    /// Check if `larger` contains (subsumes) `smaller`.
    ///
    /// This is true if `smaller ∩ larger == smaller`, meaning all characters
    /// matched by `smaller` are also matched by `larger`.
    fn contains(&self, larger: &Self::CharSet, smaller: &Self::CharSet) -> (r: bool)
        ensures
            r == self.spec_contains(*larger, *smaller),
    ;
}

/// A simple 64-bit character set solver.
///
/// This uses a 64-bit bitmask to represent character sets, which is efficient
/// but limited to 64 distinct character classes (minterms).
#[derive(Debug, Clone, Default)]
pub struct BitSetSolver;

impl CharSetSolver for BitSetSolver {
    type CharSet = u64;

    open spec fn spec_empty(&self) -> u64 {
        0
    }

    open spec fn spec_full(&self) -> u64 {
        u64::MAX
    }

    open spec fn spec_is_empty(&self, set: u64) -> bool {
        set == 0
    }

    open spec fn spec_is_full(&self, set: u64) -> bool {
        set == u64::MAX
    }

    open spec fn spec_and(&self, a: u64, b: u64) -> u64 {
        a & b
    }

    open spec fn spec_or(&self, a: u64, b: u64) -> u64 {
        a | b
    }

    open spec fn spec_not(&self, set: u64) -> u64 {
        !set
    }

    fn empty(&self) -> (r: u64) {
        0
    }

    fn full(&self) -> (r: u64) {
        u64::MAX
    }

    fn is_empty(&self, set: &u64) -> (r: bool) {
        *set == 0
    }

    fn is_full(&self, set: &u64) -> (r: bool) {
        *set == u64::MAX
    }

    fn and(&self, a: &u64, b: &u64) -> (r: u64) {
        *a & *b
    }

    fn or(&self, a: &u64, b: &u64) -> (r: u64) {
        *a | *b
    }

    fn not(&self, set: &u64) -> (r: u64) {
        !*set
    }

    fn contains(&self, larger: &u64, smaller: &u64) -> (r: bool) {
        let intersection = self.and(smaller, larger);
        intersection == *smaller
    }
}

/// Compute the ceiling of log2(n), i.e., how many bits are needed to represent n distinct values.
///
/// The result is the least `k` with `n <= 2^k`.
///
/// # Examples
/// - `minterms_log(7)` = 3 (need 3 bits for 7 values: 0-6)
/// - `minterms_log(8)` = 3 (need 3 bits for 8 values: 0-7)
/// - `minterms_log(9)` = 4 (need 4 bits for 9 values: 0-8)
pub fn minterms_log(n: u32) -> (r: u32)
    ensures
        r <= 32,
        n <= pow2(r as nat),
        r > 0 ==> pow2((r - 1) as nat) < n,
{
    let mut k: u32 = 0;
    let mut p: u64 = 1;
    proof {
        lemma2_to64();
    }
    while p < n as u64
        invariant
            k <= 32,
            p == pow2(k as nat),
            k > 0 ==> pow2((k - 1) as nat) < n,
        decreases 32 - k,
    {
        proof {
            lemma_pow2_unfold((k + 1) as nat);
            lemma2_to64();
        }
        p = p * 2;
        k = k + 1;
    }
    k
}

} // verus!
