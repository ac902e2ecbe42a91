//! The fixed-point number the interest kernel computes with.
//!
//! A [`Fix`] is an unsigned 128-bit integer read with eighteen decimals. Its
//! arithmetic never wraps: every operation yields a value that fits in 128
//! bits, reports why it could not, or saturates where it says so. Products
//! and quotients are formed without loss in 256 bits and truncate toward
//! zero. The power squares and multiplies along the bits of the exponent,
//! lowest first: with truncating products its value depends on that order,
//! which is the one of `sp_arithmetic`'s fixed-point numbers.

use crate::wide::mul_div_floor;
use vstd::prelude::*;

verus! {

/// Inner units per whole: a number with inner value `x` stands for `x / DIV`.
pub const DIV: u128 = 1_000_000_000_000_000_000;

/// Why an arithmetic step could not produce a value.
#[derive(Clone, Copy, PartialEq, Eq, Structural, Debug)]
pub enum ArithmeticError {
    /// The result would lie below zero.
    Underflow,
    /// The result would not fit in 128 bits.
    Overflow,
    /// The divisor was zero.
    DivisionByZero,
}

/// An unsigned fixed-point number with eighteen decimals, stored as the
/// 128-bit integer `value * DIV`.
#[derive(Clone, Copy, PartialEq, Eq, Structural, Debug)]
pub struct Fix {
    inner: u128,
}

impl View for Fix {
    type V = u128;

    /// The inner value: the number times `DIV`.
    closed spec fn view(&self) -> u128 {
        self.inner
    }
}

/// The sum of two numbers by their inner values: an overflow where it does
/// not fit.
pub open spec fn add_value(a: u128, b: u128) -> Result<u128, ArithmeticError> {
    if a + b <= u128::MAX {
        Ok((a + b) as u128)
    } else {
        Err(ArithmeticError::Overflow)
    }
}

/// The difference of two numbers by their inner values: an underflow where
/// it would be negative.
pub open spec fn sub_value(a: u128, b: u128) -> Result<u128, ArithmeticError> {
    if a >= b {
        Ok((a - b) as u128)
    } else {
        Err(ArithmeticError::Underflow)
    }
}

/// The product of two numbers by their inner values, truncated toward zero:
/// an overflow where it does not fit.
pub open spec fn mul_value(a: u128, b: u128) -> Result<u128, ArithmeticError> {
    let q = (a * b) / (DIV as int);
    if q <= u128::MAX {
        Ok(q as u128)
    } else {
        Err(ArithmeticError::Overflow)
    }
}

/// The quotient of two numbers by their inner values, truncated toward zero:
/// a division by zero where the divisor is zero, an overflow where the
/// quotient does not fit.
pub open spec fn div_value(a: u128, b: u128) -> Result<u128, ArithmeticError> {
    let q = (a * DIV) / (b as int);
    if b == 0 {
        Err(ArithmeticError::DivisionByZero)
    } else if q <= u128::MAX {
        Ok(q as u128)
    } else {
        Err(ArithmeticError::Overflow)
    }
}

/// The product of two numbers by their inner values, truncated toward zero
/// and clamped to the largest number.
pub open spec fn saturating_mul_value(a: u128, b: u128) -> u128 {
    let q = (a * b) / (DIV as int);
    if q <= u128::MAX {
        q as u128
    } else {
        u128::MAX
    }
}

/// `acc` times `square ^ exp`, every product saturating: along the bits of
/// `exp`, lowest first, `acc` takes up the current square wherever the bit is
/// set, and the square is squared again.
pub open spec fn power_from(acc: u128, square: u128, exp: nat) -> u128
    decreases exp,
{
    if exp == 0 {
        acc
    } else {
        let taken = if exp % 2 == 1 {
            saturating_mul_value(acc, square)
        } else {
            acc
        };
        power_from(taken, saturating_mul_value(square, square), exp / 2)
    }
}

/// `base ^ exp` by their inner values, every product truncated toward zero
/// and clamped to the largest number.
///
/// Truncation makes the value depend on the order of the products: they are
/// taken as [`power_from`] takes them, starting from one.
pub open spec fn saturating_pow_value(base: u128, exp: nat) -> u128 {
    power_from(DIV, base, exp)
}

/// The view of a number, or the error in its place.
pub open spec fn result_view(r: Result<Fix, ArithmeticError>) -> Result<u128, ArithmeticError> {
    match r {
        Ok(x) => Ok(x@),
        Err(e) => Err(e),
    }
}

impl Fix {
    /// The number whose inner value is `inner`; the argument is taken as
    /// already scaled.
    pub fn from_inner(inner: u128) -> (r: Fix)
        ensures
            r@ == inner,
    {
        Fix { inner }
    }

    /// The inner value, without the implicit denominator.
    pub fn into_inner(self) -> (r: u128)
        ensures
            r == self@,
    {
        self.inner
    }

    /// The number one.
    pub fn one() -> (r: Fix)
        ensures
            r@ == DIV,
    {
        Fix { inner: DIV }
    }

    /// The whole number `n`, or the largest number where `n` is too large.
    pub fn saturating_from_integer(n: u128) -> (r: Fix)
        ensures
            n * DIV <= u128::MAX ==> r@ == n * DIV,
            n * DIV > u128::MAX ==> r@ == u128::MAX,
    {
        match n.checked_mul(DIV) {
            Some(inner) => Fix { inner },
            None => Fix { inner: u128::MAX },
        }
    }

    /// The sum, or an overflow where it does not fit.
    pub fn ensure_add(self, rhs: Fix) -> (r: Result<Fix, ArithmeticError>)
        ensures
            result_view(r) == add_value(self@, rhs@),
    {
        match self.inner.checked_add(rhs.inner) {
            Some(inner) => Ok(Fix { inner }),
            None => Err(ArithmeticError::Overflow),
        }
    }

    /// The difference, or an underflow where `rhs` is the larger.
    pub fn ensure_sub(self, rhs: Fix) -> (r: Result<Fix, ArithmeticError>)
        ensures
            result_view(r) == sub_value(self@, rhs@),
    {
        match self.inner.checked_sub(rhs.inner) {
            Some(inner) => Ok(Fix { inner }),
            None => Err(ArithmeticError::Underflow),
        }
    }

    /// The product truncated toward zero, or an overflow where it does not
    /// fit.
    pub fn ensure_mul(self, rhs: Fix) -> (r: Result<Fix, ArithmeticError>)
        ensures
            result_view(r) == mul_value(self@, rhs@),
    {
        match mul_div_floor(self.inner, rhs.inner, DIV) {
            Some(inner) => Ok(Fix { inner }),
            None => Err(ArithmeticError::Overflow),
        }
    }

    /// The quotient truncated toward zero; a division by zero where `rhs` is
    /// zero, an overflow where the quotient does not fit.
    pub fn ensure_div(self, rhs: Fix) -> (r: Result<Fix, ArithmeticError>)
        ensures
            result_view(r) == div_value(self@, rhs@),
    {
        if rhs.inner == 0 {
            return Err(ArithmeticError::DivisionByZero);
        }
        match mul_div_floor(self.inner, DIV, rhs.inner) {
            Some(inner) => Ok(Fix { inner }),
            None => Err(ArithmeticError::Overflow),
        }
    }

    /// The product truncated toward zero, or the largest number where it
    /// does not fit.
    pub fn saturating_mul(self, rhs: Fix) -> (r: Fix)
        ensures
            r@ == saturating_mul_value(self@, rhs@),
    {
        match mul_div_floor(self.inner, rhs.inner, DIV) {
            Some(inner) => Fix { inner },
            None => Fix { inner: u128::MAX },
        }
    }

    /// The number raised to `exp`, every product clamped to the largest
    /// number instead of overflowing.
    pub fn saturating_pow(self, exp: u64) -> (r: Fix)
        ensures
            r@ == saturating_pow_value(self@, exp as nat),
    {
        let mut result = Fix::one();
        let mut square = self;
        let mut rest: u64 = exp;
        while rest > 0
            invariant
                power_from(result@, square@, rest as nat) == saturating_pow_value(
                    self@,
                    exp as nat,
                ),
            decreases rest,
        {
            if rest % 2 == 1 {
                result = result.saturating_mul(square);
            }
            square = square.saturating_mul(square);
            rest = rest / 2;
        }
        result
    }
}

} // verus!
