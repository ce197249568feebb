//! Trusted access to `strength_reduce`'s precomputed divisor for `u16`.
use strength_reduce::StrengthReducedU16;
use vstd::prelude::*;

verus! {

#[verifier::external_type_specification]
#[verifier::external_body]
pub struct ExStrengthReducedU16(StrengthReducedU16);

/// The divisor that a `StrengthReducedU16` was created with.
pub uninterp spec fn reduced_divisor(d: StrengthReducedU16) -> u16;

/// Relies on `StrengthReducedU16::new`: it keeps `divisor` (and panics on zero).
#[verifier::external_body]
pub(crate) fn new_reducer(divisor: u16) -> (r: StrengthReducedU16)
    requires
        divisor > 0,
    ensures
        reduced_divisor(r) == divisor,
{
    StrengthReducedU16::new(divisor)
}

/// Relies on `StrengthReducedU16::get`: it returns the divisor the value was
/// created with, which `new` only accepts when non-zero.
#[verifier::external_body]
pub(crate) fn divisor_of(d: &StrengthReducedU16) -> (r: u16)
    ensures
        r == reduced_divisor(*d),
        r > 0,
{
    d.get()
}

/// Relies on `impl Rem<StrengthReducedU16> for u16`: the plain remainder.
#[verifier::external_body]
pub(crate) fn rem_reduced(a: u16, d: StrengthReducedU16) -> (r: u16)
    ensures
        reduced_divisor(d) > 0 ==> r == a % reduced_divisor(d),
{
    a % d
}

} // verus!
