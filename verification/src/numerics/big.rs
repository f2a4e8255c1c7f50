//! Arithmetic on the arbitrary-precision unsigned integers of `num`. A
//! `BigUint` is known here by its digits in base 2^32, least significant
//! first, and by the number that they write; what the arithmetic of `num`
//! does to that number is taken on trust, each operation in one function.

use vstd::prelude::*;
use num::BigUint;

verus! {

/// `num::BigUint`, an unsigned integer of any size. Nothing inside it is
/// seen here.
#[verifier::external_type_specification]
#[verifier::external_body]
pub struct ExBigUint(num::BigUint);

/// The digits of a `BigUint` in base 2^32, least significant first, as
/// `BigUint::to_u32_digits` gives them.
pub uninterp spec fn big_digits(n: BigUint) -> Seq<u32>;

/// The number that digits in base 2^32 write, least significant first.
pub open spec fn digits_value(digits: Seq<u32>) -> nat
    decreases digits.len(),
{
    if digits.len() == 0 {
        0
    } else {
        digits[0] as nat + 0x1_0000_0000 * digits_value(digits.drop_first())
    }
}

/// The number that a `BigUint` holds.
pub open spec fn big_nat(n: BigUint) -> nat {
    digits_value(big_digits(n))
}

/// `num::Zero::zero` for `BigUint`: the number 0.
#[verifier::external_body]
pub(crate) fn big_zero() -> (zero: BigUint)
    ensures
        digits_value(big_digits(zero)) == 0,
{
    num::Zero::zero()
}

/// `num::One::one` for `BigUint`: the number 1.
#[verifier::external_body]
pub(crate) fn big_one() -> (one: BigUint)
    ensures
        digits_value(big_digits(one)) == 1,
{
    num::One::one()
}

/// `==` on `BigUint`: whether the two hold the same number.
#[verifier::external_body]
pub(crate) fn big_eq(a: &BigUint, b: &BigUint) -> (same: bool)
    ensures
        same == (digits_value(big_digits(*a)) == digits_value(big_digits(*b))),
{
    a == b
}

/// `Clone::clone` on `BigUint`: a `BigUint` with the same digits.
#[verifier::external_body]
pub(crate) fn big_clone(a: &BigUint) -> (copy: BigUint)
    ensures
        big_digits(copy) == big_digits(*a),
{
    a.clone()
}

/// `+` on `BigUint`: the sum of the two numbers.
#[verifier::external_body]
pub(crate) fn big_add(a: &BigUint, b: &BigUint) -> (sum: BigUint)
    ensures
        digits_value(big_digits(sum)) == digits_value(big_digits(*a)) + digits_value(
            big_digits(*b),
        ),
{
    a + b
}

/// `-` on `BigUint`: the difference of the two numbers. The operator panics
/// where the second is greater than the first.
#[verifier::external_body]
pub(crate) fn big_sub(a: &BigUint, b: &BigUint) -> (difference: BigUint)
    requires
        digits_value(big_digits(*b)) <= digits_value(big_digits(*a)),
    ensures
        digits_value(big_digits(difference)) == digits_value(big_digits(*a)) - digits_value(
            big_digits(*b),
        ),
{
    a - b
}

/// `*` on `BigUint`: the product of the two numbers.
#[verifier::external_body]
pub(crate) fn big_mul(a: &BigUint, b: &BigUint) -> (product: BigUint)
    ensures
        digits_value(big_digits(product)) == digits_value(big_digits(*a)) * digits_value(
            big_digits(*b),
        ),
{
    a * b
}

/// `*` of a `BigUint` and a `u8`: the product of the two numbers.
#[verifier::external_body]
pub(crate) fn big_mul_small(a: &BigUint, b: u8) -> (product: BigUint)
    ensures
        digits_value(big_digits(product)) == digits_value(big_digits(*a)) * b,
{
    a * b
}

/// `/` of a `BigUint` by a `u8`: the quotient of the two numbers, rounded
/// down. The operator panics on a division by zero.
#[verifier::external_body]
pub(crate) fn big_div_small(a: &BigUint, b: u8) -> (quotient: BigUint)
    requires
        b != 0,
    ensures
        digits_value(big_digits(quotient)) == digits_value(big_digits(*a)) / (b as nat),
{
    a / b
}

/// `%` of a `BigUint` by a `u8`: the remainder of the division of the two
/// numbers. The operator panics on a division by zero.
#[verifier::external_body]
pub(crate) fn big_rem_small(a: &BigUint, b: u8) -> (remainder: BigUint)
    requires
        b != 0,
    ensures
        digits_value(big_digits(remainder)) == digits_value(big_digits(*a)) % (b as nat),
{
    a % b
}

} // verus!
