use vstd::prelude::*;

use num_bigint::BigUint;

verus! {

/// `num_bigint::BigUint`, whose digits are not looked into.
#[verifier::external_type_specification]
#[verifier::external_body]
pub struct ExBigUint(BigUint);

/// The positions of the one bits of a `BigUint`.
pub uninterp spec fn one_bits(n: BigUint) -> Set<u64>;

/// `<BigUint as Default>::default`: zero, which has no one bits.
#[verifier::external_body]
fn zero() -> (n: BigUint)
    ensures
        one_bits(n) == Set::<u64>::empty(),
{
    BigUint::default()
}

/// `BigUint::bit`: whether the bit at the position is one, false past the last digit.
#[verifier::external_body]
fn bit(n: &BigUint, position: u64) -> (r: bool)
    ensures
        r == one_bits(*n).contains(position),
{
    n.bit(position)
}

/// `BigUint::set_bit` with `true`: the bit at the position becomes one and no other bit changes.
/// A position past `usize::MAX` would ask for more digits than a vector can hold.
#[verifier::external_body]
fn set_one_bit(n: &mut BigUint, position: u64)
    requires
        position <= usize::MAX,
    ensures
        one_bits(*final(n)) == one_bits(*old(n)).insert(position),
{
    n.set_bit(position, true)
}

/// `<BigUint as Clone>::clone`: a number with the same digits.
#[verifier::external_body]
fn copy_of(n: &BigUint) -> (r: BigUint)
    ensures
        one_bits(r) == one_bits(*n),
{
    n.clone()
}

/// `<BigUint as PartialEq>::eq`: compares the digits, which have no leading zeros, so that two
/// numbers are equal exactly where they have the same one bits.
#[verifier::external_body]
fn same(a: &BigUint, b: &BigUint) -> (r: bool)
    ensures
        r == (one_bits(*a) == one_bits(*b)),
{
    a == b
}

/// A set of module ordinals, one bit each.
#[derive(Debug)]
pub struct OrdinalMask {
    bits: BigUint,
}

impl View for OrdinalMask {
    type V = Set<u64>;

    closed spec fn view(&self) -> Set<u64> {
        one_bits(self.bits)
    }
}

impl OrdinalMask {
    /// The mask of no modules.
    pub fn new() -> (mask: OrdinalMask)
        ensures
            mask@ == Set::<u64>::empty(),
    {
        OrdinalMask { bits: zero() }
    }

    /// Whether the module with this ordinal is in the mask.
    pub fn bit(&self, ordinal: u64) -> (r: bool)
        ensures
            r == self@.contains(ordinal),
    {
        bit(&self.bits, ordinal)
    }

    /// Adds the module with this ordinal.
    pub fn set_bit(&mut self, ordinal: u64)
        requires
            ordinal <= usize::MAX,
        ensures
            final(self)@ == old(self)@.insert(ordinal),
    {
        set_one_bit(&mut self.bits, ordinal);
    }

    /// Whether the two masks hold the same modules.
    pub fn same_as(&self, other: &OrdinalMask) -> (r: bool)
        ensures
            r == (self@ == other@),
    {
        same(&self.bits, &other.bits)
    }

    /// A mask of the same modules.
    pub fn duplicate(&self) -> (mask: OrdinalMask)
        ensures
            mask@ == self@,
    {
        OrdinalMask { bits: copy_of(&self.bits) }
    }
}

} // verus!
