//! Trusted bridge to the `num` crate's arbitrary-precision integers.
//!
//! `BigUint` is modelled by the natural number it holds (`big_nat`) and
//! `BigInt` by the integer it holds (`big_val`); every arithmetic wrapper
//! states its effect on that model.

use vstd::prelude::*;
use num::bigint::{BigInt, BigUint};

verus! {

#[verifier::external_type_specification]
#[verifier::external_body]
pub struct ExBigUint(BigUint);

#[verifier::external_type_specification]
#[verifier::external_body]
pub struct ExBigInt(BigInt);

/// The natural number held by a `BigUint`.
pub uninterp spec fn big_nat(x: BigUint) -> nat;

/// The integer held by a `BigInt`.
pub uninterp spec fn big_val(x: BigInt) -> int;

/// Relies on `<BigUint as From<usize>>::from`, which builds the big integer
/// with exactly the given value.
#[verifier::external_body]
pub fn big_from(n: usize) -> (r: BigUint)
    ensures
        big_nat(r) == n,
{
    BigUint::from(n)
}

/// Relies on `Add for &BigUint`: addition of the held values.
#[verifier::external_body]
pub fn big_add(a: &BigUint, b: &BigUint) -> (r: BigUint)
    ensures
        big_nat(r) == big_nat(*a) + big_nat(*b),
{
    a + b
}

/// Relies on `Sub for &BigUint`, which panics when the result would be
/// negative; the precondition rules that out.
#[verifier::external_body]
pub fn big_sub(a: &BigUint, b: &BigUint) -> (r: BigUint)
    requires
        big_nat(*b) <= big_nat(*a),
    ensures
        big_nat(r) == big_nat(*a) - big_nat(*b),
{
    a - b
}

/// Relies on `Mul for &BigUint`: multiplication of the held values.
#[verifier::external_body]
pub fn big_mul(a: &BigUint, b: &BigUint) -> (r: BigUint)
    ensures
        big_nat(r) == big_nat(*a) * big_nat(*b),
{
    a * b
}

/// Relies on `Div for &BigUint`: floor division of the held values.
/// Division by zero panics; the precondition rules it out.
#[verifier::external_body]
pub fn big_div(a: &BigUint, b: &BigUint) -> (r: BigUint)
    requires
        big_nat(*b) > 0,
    ensures
        big_nat(r) == big_nat(*a) / big_nat(*b),
{
    a / b
}

/// Relies on `PartialOrd for BigUint`, which orders by the held values.
#[verifier::external_body]
pub fn big_lt(a: &BigUint, b: &BigUint) -> (r: bool)
    ensures
        r == (big_nat(*a) < big_nat(*b)),
{
    a < b
}

/// Relies on `Clone for BigUint`: the copy holds the same value.
#[verifier::external_body]
pub fn big_clone(a: &BigUint) -> (r: BigUint)
    ensures
        big_nat(r) == big_nat(*a),
{
    a.clone()
}

/// Relies on `<BigInt as From<i64>>::from`, which builds the big integer
/// with exactly the given value.
#[verifier::external_body]
pub fn int_from(n: i64) -> (r: BigInt)
    ensures
        big_val(r) == n,
{
    BigInt::from(n)
}

/// Relies on `Add for &BigInt`: addition of the held values.
#[verifier::external_body]
pub fn int_add(a: &BigInt, b: &BigInt) -> (r: BigInt)
    ensures
        big_val(r) == big_val(*a) + big_val(*b),
{
    a + b
}

/// Relies on `Mul for &BigInt`: multiplication of the held values.
#[verifier::external_body]
pub fn int_mul(a: &BigInt, b: &BigInt) -> (r: BigInt)
    ensures
        big_val(r) == big_val(*a) * big_val(*b),
{
    a * b
}

/// Relies on `Neg for &BigInt`: negation of the held value.
#[verifier::external_body]
pub fn int_neg(a: &BigInt) -> (r: BigInt)
    ensures
        big_val(r) == -big_val(*a),
{
    -a
}

/// Relies on `Clone for BigInt`: the copy holds the same value.
#[verifier::external_body]
pub fn int_clone(a: &BigInt) -> (r: BigInt)
    ensures
        big_val(r) == big_val(*a),
{
    a.clone()
}

} // verus!
