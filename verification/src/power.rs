//! What holds of the saturating product and of the saturating power: both
//! grow with their arguments, and one is neutral.

use crate::fixed::{power_from, saturating_mul_value, saturating_pow_value, DIV};
use vstd::arithmetic::div_mod::lemma_div_is_ordered;
use vstd::prelude::*;

verus! {

/// The saturating product grows with each of its factors.
pub proof fn lemma_mul_monotone(a: u128, b: u128, c: u128, d: u128)
    requires
        a <= c,
        b <= d,
    ensures
        saturating_mul_value(a, b) <= saturating_mul_value(c, d),
{
    assert(a * b <= c * d) by (nonlinear_arith)
        requires
            0 <= a <= c,
            0 <= b <= d,
    ;
    lemma_div_is_ordered(a * b, c * d, DIV as int);
}

/// One is neutral for the saturating product, on either side.
pub proof fn lemma_mul_by_one(a: u128)
    ensures
        saturating_mul_value(a, DIV) == a,
        saturating_mul_value(DIV, a) == a,
{
    assert((a * DIV) / (DIV as int) == a);
    assert((DIV * a) / (DIV as int) == a);
}

/// A factor of at least one never lowers the saturating product.
pub proof fn lemma_mul_by_at_least_one(a: u128, b: u128)
    requires
        b >= DIV,
    ensures
        saturating_mul_value(a, b) >= a,
        saturating_mul_value(b, a) >= a,
{
    lemma_mul_by_one(a);
    lemma_mul_monotone(a, DIV, a, b);
    lemma_mul_monotone(DIV, a, b, a);
}

/// The running power grows with what it starts from and with the square it
/// takes up.
pub proof fn lemma_power_from_monotone(
    acc: u128,
    square: u128,
    larger_acc: u128,
    larger_square: u128,
    exp: nat,
)
    requires
        acc <= larger_acc,
        square <= larger_square,
    ensures
        power_from(acc, square, exp) <= power_from(larger_acc, larger_square, exp),
    decreases exp,
{
    if exp > 0 {
        lemma_mul_monotone(acc, square, larger_acc, larger_square);
        lemma_mul_monotone(square, square, larger_square, larger_square);
        let taken = if exp % 2 == 1 {
            saturating_mul_value(acc, square)
        } else {
            acc
        };
        let larger_taken = if exp % 2 == 1 {
            saturating_mul_value(larger_acc, larger_square)
        } else {
            larger_acc
        };
        lemma_power_from_monotone(
            taken,
            saturating_mul_value(square, square),
            larger_taken,
            saturating_mul_value(larger_square, larger_square),
            exp / 2,
        );
    }
}

/// Raising the exponent by one never lowers the running power, as long as
/// what has been taken up so far is no more than the current square: the
/// squares taken up below a carry are together no more than the square the
/// carry lands on.
pub proof fn lemma_power_from_next(acc: u128, square: u128, exp: nat)
    requires
        acc <= square,
        square >= DIV,
    ensures
        power_from(acc, square, exp) <= power_from(DIV, square, exp + 1),
    decreases exp,
{
    let squared = saturating_mul_value(square, square);
    lemma_mul_by_one(square);
    if exp % 2 == 0 {
        assert((exp + 1) / 2 == exp / 2);
        assert(power_from(DIV, square, exp + 1) == power_from(square, squared, exp / 2));
        if exp > 0 {
            lemma_power_from_monotone(acc, squared, square, squared, exp / 2);
        }
    } else {
        assert((exp + 1) / 2 == exp / 2 + 1);
        assert(power_from(DIV, square, exp + 1) == power_from(DIV, squared, exp / 2 + 1));
        lemma_mul_monotone(acc, square, square, square);
        lemma_mul_by_at_least_one(square, square);
        lemma_power_from_next(saturating_mul_value(acc, square), squared, exp / 2);
    }
}

/// Any power of one is one.
pub proof fn lemma_pow_of_one(exp: nat)
    ensures
        saturating_pow_value(DIV, exp) == DIV,
    decreases exp,
{
    lemma_mul_by_one(DIV);
    if exp > 0 {
        lemma_pow_of_one(exp / 2);
    }
}

/// The power of a base of at least one grows with the exponent.
pub proof fn lemma_pow_monotone_in_exponent(base: u128, smaller: nat, larger: nat)
    requires
        base >= DIV,
        smaller <= larger,
    ensures
        saturating_pow_value(base, smaller) <= saturating_pow_value(base, larger),
    decreases larger - smaller,
{
    if smaller < larger {
        lemma_pow_monotone_in_exponent(base, smaller, (larger - 1) as nat);
        lemma_power_from_next(DIV, base, (larger - 1) as nat);
    }
}

/// The power grows with the base.
pub proof fn lemma_pow_monotone_in_base(smaller: u128, larger: u128, exp: nat)
    requires
        smaller <= larger,
    ensures
        saturating_pow_value(smaller, exp) <= saturating_pow_value(larger, exp),
{
    lemma_power_from_monotone(DIV, smaller, DIV, larger, exp);
}

/// The power of a base of at least one is at least one.
pub proof fn lemma_pow_at_least_one(base: u128, exp: nat)
    requires
        base >= DIV,
    ensures
        saturating_pow_value(base, exp) >= DIV,
{
    lemma_pow_monotone_in_exponent(base, 0, exp);
}

} // verus!
