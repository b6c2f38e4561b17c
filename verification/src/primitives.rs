//! Amounts and identifiers shared by the rest of the crate.

use vstd::prelude::*;

verus! {

/// A quantity of coins or tokens, counted in indivisible atoms.
#[derive(Debug, Clone, Copy, PartialEq, Eq, Structural, PartialOrd, Ord, Hash)]
pub struct Amount {
    pub val: u128,
}

impl Amount {
    /// The sum of two amounts as a mathematical integer.
    pub open spec fn spec_sum(self, other: Amount) -> int {
        self.val + other.val
    }

    pub fn from_atoms(v: u128) -> (r: Self)
        ensures
            r.val == v,
    {
        Amount { val: v }
    }

    pub fn into_atoms(&self) -> (r: u128)
        ensures
            r == self.val,
    {
        self.val
    }

    /// Adds two amounts; `None` when the sum does not fit in 128 bits.
    pub fn checked_add(&self, other: Amount) -> (r: Option<Amount>)
        ensures
            self.spec_sum(other) <= u128::MAX ==> r == Some(Amount { val: self.spec_sum(other) as u128 }),
            self.spec_sum(other) > u128::MAX ==> r is None,
    {
        if other.val <= u128::MAX - self.val {
            Some(Amount { val: self.val + other.val })
        } else {
            None
        }
    }

    /// Whether this amount is strictly larger than `other`.
    pub fn exceeds(&self, other: &Amount) -> (r: bool)
        ensures
            r == (self.val > other.val),
    {
        self.val > other.val
    }
}

/// A 256-bit value, held as two big-endian halves: `hi` is the more
/// significant one, so comparing `(hi, lo)` pairs compares the values.
#[derive(Debug, Clone, Copy, PartialEq, Eq, Structural, PartialOrd, Ord, Hash)]
pub struct H256 {
    pub hi: u128,
    pub lo: u128,
}

/// Difficulty target in its compact 32-bit encoding.
#[derive(Debug, Clone, Copy, PartialEq, Eq, Structural, PartialOrd, Ord, Hash)]
pub struct Compact(pub u32);

/// A semantic version triple.
#[derive(Debug, Clone, Copy, PartialEq, Eq, Structural, PartialOrd, Ord, Hash)]
pub struct SemVer {
    pub major: u8,
    pub minor: u16,
    pub patch: u16,
}

impl SemVer {
    pub fn new(major: u8, minor: u16, patch: u16) -> (r: Self)
        ensures
            r == (SemVer { major, minor, patch }),
    {
        SemVer { major, minor, patch }
    }
}

} // verus!
