//! Arbitrary-precision model counts, held in `num_bigint::BigUint`.

use vstd::prelude::*;
use num_bigint::BigUint;
use num_traits::Zero;

verus! {

/// The outside big-integer type (opaque to Verus).
#[verifier::external_type_specification]
#[verifier::external_body]
pub struct ExBigUint(BigUint);

/// The natural number a `BigUint` holds.
pub uninterp spec fn big_value(x: BigUint) -> nat;

/// Calls `BigUint::zero` (from `num_traits::Zero`): the number 0.
#[verifier::external_body]
pub(crate) fn big_zero() -> (r: BigUint)
    ensures
        big_value(r) == 0,
{
    BigUint::zero()
}

/// Calls `BigUint::from::<u32>`: the same number as a big integer.
#[verifier::external_body]
pub(crate) fn big_from_u32(x: u32) -> (r: BigUint)
    ensures
        big_value(r) == x as nat,
{
    BigUint::from(x)
}

/// Calls `BigUint::pow`: `base` raised to `exponent`.
#[verifier::external_body]
pub(crate) fn big_pow(base: &BigUint, exponent: u32) -> (r: BigUint)
    ensures
        big_value(r) == vstd::arithmetic::power::pow(big_value(*base) as int, exponent as nat),
{
    base.pow(exponent)
}

/// Calls `BigUint + BigUint`: the sum.
#[verifier::external_body]
pub(crate) fn big_add(a: BigUint, b: BigUint) -> (r: BigUint)
    ensures
        big_value(r) == big_value(a) + big_value(b),
{
    a + b
}

} // verus!
