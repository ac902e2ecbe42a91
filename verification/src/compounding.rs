//! Compound interest on a balance, and the growth of a position's debt
//! between two accruals.
//!
//! A balance grows by the factor `(1 + rate) ^ period`. The factor is a
//! fixed-point power that saturates; the balance times the factor must fit,
//! and a result at the 128-bit ceiling counts as an overflow.
//!
//! A position's debt follows two coefficients: the one of its collateral
//! type, which every accrual advances, and the position's own snapshot of it.
//! The debt grows by the ratio of the advanced coefficient to the snapshot.

use crate::fixed::{
    add_value, div_value, mul_value, saturating_pow_value, sub_value, ArithmeticError, Fix, DIV,
};
use crate::power::{
    lemma_pow_at_least_one, lemma_pow_monotone_in_base, lemma_pow_monotone_in_exponent,
    lemma_pow_of_one,
};
use vstd::arithmetic::div_mod::lemma_div_is_ordered;
use vstd::prelude::*;

verus! {

/// A token amount in its smallest indivisible unit.
pub type Balance = u128;

/// A principal times a growth factor: the truncated product, or an overflow
/// where the product does not fit or lands on the 128-bit ceiling.
pub open spec fn grown_balance(principal: u128, factor: u128) -> Result<u128, ArithmeticError> {
    match mul_value(principal, factor) {
        Ok(amount) => if amount == u128::MAX {
            Err(ArithmeticError::Overflow)
        } else {
            Ok(amount)
        },
        Err(e) => Err(e),
    }
}

/// A principal after `period` seconds at `rate` per second: grown by the
/// saturating power `(1 + rate) ^ period`, or an overflow where `1 + rate`
/// does not fit.
pub open spec fn compound_value(
    principal: u128,
    rate: u128,
    period: u64,
) -> Result<u128, ArithmeticError> {
    match add_value(DIV, rate) {
        Ok(base) => grown_balance(principal, saturating_pow_value(base, period as nat)),
        Err(e) => Err(e),
    }
}

/// An interest coefficient advanced from `last_fee_update_time` to `now` at
/// `rate` per second: an underflow where `now` is the earlier, else the
/// coefficient compounded over the time between.
pub open spec fn coefficient_value(
    last_fee_update_time: u64,
    now: u64,
    coefficient: u128,
    rate: u128,
) -> Result<u128, ArithmeticError> {
    if now < last_fee_update_time {
        Err(ArithmeticError::Underflow)
    } else {
        compound_value(coefficient, rate, (now - last_fee_update_time) as u64)
    }
}

/// A debt rescaled from the coefficient it was last normalized at to a new
/// one: `debt * ((new - snapshot) / snapshot + 1)`, each step truncated.
///
/// An underflow where the new coefficient is below the snapshot, a division
/// by zero where the snapshot is zero, an overflow where the ratio or the
/// ratio plus one does not fit, and an underflow where the final product
/// does not fit.
pub open spec fn rescaled_debt(
    new_coefficient: u128,
    snapshot: u128,
    debt: u128,
) -> Result<u128, ArithmeticError> {
    match sub_value(new_coefficient, snapshot) {
        Ok(growth) => match div_value(growth, snapshot) {
            Ok(interest) => match add_value(interest, DIV) {
                Ok(scale) => match mul_value(debt, scale) {
                    Ok(amount) => Ok(amount),
                    Err(_) => Err(ArithmeticError::Underflow),
                },
                Err(e) => Err(e),
            },
            Err(e) => Err(e),
        },
        Err(e) => Err(e),
    }
}

/// The debt of a position after accrual: the collateral's coefficient is
/// advanced to `now`, and the debt rescaled from the position's snapshot to
/// it.
pub open spec fn new_debt_value(
    last_fee_update_time: u64,
    now: u64,
    collateral_coefficient: u128,
    snapshot: u128,
    rate: u128,
    debt: u128,
) -> Result<u128, ArithmeticError> {
    match coefficient_value(last_fee_update_time, now, collateral_coefficient, rate) {
        Ok(new_coefficient) => rescaled_debt(new_coefficient, snapshot, debt),
        Err(e) => Err(e),
    }
}

/// Growing by the factor one leaves every balance below the ceiling as it
/// is, and turns the ceiling itself into an overflow.
pub proof fn lemma_growth_by_one(principal: u128)
    ensures
        principal < u128::MAX
            ==> grown_balance(principal, DIV) == Ok::<Balance, ArithmeticError>(principal),
        principal == u128::MAX
            ==> grown_balance(principal, DIV) == Err::<Balance, ArithmeticError>(
            ArithmeticError::Overflow,
        ),
{
    assert((principal * DIV) / (DIV as int) == principal);
}

/// Nothing grows out of a zero balance, whatever the factor.
pub proof fn lemma_growth_of_zero(factor: u128)
    ensures
        grown_balance(0, factor) == Ok::<Balance, ArithmeticError>(0),
{
    assert(0u128 * factor == 0) by (nonlinear_arith);
}

/// A balance at the 128-bit ceiling overflows under every factor of at least
/// one.
pub proof fn lemma_growth_at_ceiling(factor: u128)
    requires
        factor >= DIV,
    ensures
        grown_balance(u128::MAX, factor) == Err::<Balance, ArithmeticError>(
            ArithmeticError::Overflow,
        ),
{
    let top = u128::MAX as int;
    let unit = DIV as int;
    assert(top * factor >= top * unit) by (nonlinear_arith)
        requires
            factor >= unit,
            top >= 0,
    ;
    assert((top * factor) / unit >= top) by (nonlinear_arith)
        requires
            top * factor >= top * unit,
            unit > 0,
    ;
}

/// A larger factor never gives less: where a balance fits under the larger
/// of two factors, it fits under the smaller and grows to no more there.
pub proof fn lemma_growth_monotone_in_factor(principal: u128, smaller: u128, larger: u128)
    requires
        smaller <= larger,
    ensures
        grown_balance(principal, larger) is Ok ==> grown_balance(principal, smaller) is Ok,
        grown_balance(principal, smaller) is Ok && grown_balance(principal, larger) is Ok
            ==> grown_balance(principal, smaller)->Ok_0 <= grown_balance(principal, larger)->Ok_0,
{
    assert(principal * smaller <= principal * larger) by (nonlinear_arith)
        requires
            smaller <= larger,
    ;
    lemma_div_is_ordered(principal * smaller, principal * larger, DIV as int);
}

/// Rescaling never lowers a debt: the scale is the interest plus one.
pub proof fn lemma_rescaled_not_below_debt(new_coefficient: u128, snapshot: u128, debt: u128)
    ensures
        rescaled_debt(new_coefficient, snapshot, debt) matches Ok(amount) ==> amount >= debt,
{
    if rescaled_debt(new_coefficient, snapshot, debt) is Ok {
        let growth = sub_value(new_coefficient, snapshot)->Ok_0;
        let interest = div_value(growth, snapshot)->Ok_0;
        let scale = add_value(interest, DIV)->Ok_0;
        assert(debt * scale >= debt * DIV) by (nonlinear_arith)
            requires
                scale >= DIV,
        ;
        lemma_div_is_ordered(debt * DIV, debt * scale, DIV as int);
        assert((debt * DIV) / (DIV as int) == debt);
    }
}

/// A debt keeps its amount where the coefficient has not moved from a
/// nonzero snapshot.
pub proof fn lemma_rescale_at_snapshot(snapshot: u128, debt: u128)
    requires
        snapshot > 0,
    ensures
        rescaled_debt(snapshot, snapshot, debt) == Ok::<Balance, ArithmeticError>(debt),
{
    assert((0u128 * DIV) / (snapshot as int) == 0) by (nonlinear_arith)
        requires
            snapshot > 0,
    ;
    assert((debt * DIV) / (DIV as int) == debt);
}

/// Compounding grows with the period: where a principal fits after the
/// longer of two periods, it fits after the shorter and has grown to no more
/// there.
pub proof fn lemma_compound_monotone_in_period(
    principal: u128,
    rate: u128,
    shorter: u64,
    longer: u64,
)
    requires
        shorter <= longer,
    ensures
        compound_value(principal, rate, longer) is Ok
            ==> compound_value(principal, rate, shorter) is Ok,
        compound_value(principal, rate, shorter) is Ok
            && compound_value(principal, rate, longer) is Ok
            ==> compound_value(principal, rate, shorter)->Ok_0
                <= compound_value(principal, rate, longer)->Ok_0,
{
    if add_value(DIV, rate) is Ok {
        let base = add_value(DIV, rate)->Ok_0;
        lemma_pow_monotone_in_exponent(base, shorter as nat, longer as nat);
        lemma_growth_monotone_in_factor(
            principal,
            saturating_pow_value(base, shorter as nat),
            saturating_pow_value(base, longer as nat),
        );
    }
}

/// Compounding grows with the rate: where a principal fits at the higher of
/// two rates, it fits at the lower and has grown to no more there.
pub proof fn lemma_compound_monotone_in_rate(
    principal: u128,
    lower: u128,
    higher: u128,
    period: u64,
)
    requires
        lower <= higher,
    ensures
        compound_value(principal, higher, period) is Ok
            ==> compound_value(principal, lower, period) is Ok,
        compound_value(principal, lower, period) is Ok
            && compound_value(principal, higher, period) is Ok
            ==> compound_value(principal, lower, period)->Ok_0
                <= compound_value(principal, higher, period)->Ok_0,
{
    if add_value(DIV, higher) is Ok {
        let higher_base = add_value(DIV, higher)->Ok_0;
        let lower_base = add_value(DIV, lower)->Ok_0;
        lemma_pow_monotone_in_base(lower_base, higher_base, period as nat);
        lemma_growth_monotone_in_factor(
            principal,
            saturating_pow_value(lower_base, period as nat),
            saturating_pow_value(higher_base, period as nat),
        );
    }
}

/// Grows `principal` by `factor`: the product truncated toward zero, or an
/// overflow where it does not fit below the 128-bit ceiling.
pub fn apply_growth(principal: Balance, factor: Fix) -> (r: Result<Balance, ArithmeticError>)
    ensures
        r == grown_balance(principal, factor@),
{
    let amount: u128 = Fix::from_inner(principal).ensure_mul(factor)?.into_inner();
    if amount == Balance::MAX {
        Err(ArithmeticError::Overflow)
    } else {
        Ok(amount)
    }
}

/// Per-second compounding: `principal * (1 + rate_per_second) ^ period`.
///
/// `principal` and the result are balances in the same smallest unit;
/// `period` is the time passed, in the unit the rate was derived for.
///
/// At rate zero, and over no time, a balance below the ceiling stays as it
/// is. A zero balance stays zero. A balance at the ceiling overflows. No
/// balance comes out smaller than it went in, and none comes out at the
/// ceiling.
pub fn compound(
    principal: Balance,
    rate_per_second: &Fix,
    period: u64,
) -> (r: Result<Balance, ArithmeticError>)
    ensures
        r == compound_value(principal, rate_per_second@, period),
        rate_per_second@ == 0 && principal < u128::MAX
            ==> r == Ok::<Balance, ArithmeticError>(principal),
        period == 0 && rate_per_second@ + DIV <= u128::MAX && principal < u128::MAX
            ==> r == Ok::<Balance, ArithmeticError>(principal),
        principal == 0 && rate_per_second@ + DIV <= u128::MAX
            ==> r == Ok::<Balance, ArithmeticError>(0),
        principal == u128::MAX
            ==> r == Err::<Balance, ArithmeticError>(ArithmeticError::Overflow),
        r matches Ok(amount) ==> principal <= amount < u128::MAX,
{
    let base = Fix::one().ensure_add(*rate_per_second)?;
    let factor = base.saturating_pow(period);
    proof {
        lemma_pow_of_one(period as nat);
        lemma_pow_at_least_one(base@, period as nat);
        lemma_growth_by_one(principal);
        lemma_growth_of_zero(factor@);
        lemma_growth_at_ceiling(factor@);
        lemma_growth_monotone_in_factor(principal, DIV, factor@);
    }
    apply_growth(principal, factor)
}

/// Advances a collateral type's interest coefficient from
/// `last_fee_update_time` to `now`.
///
/// The result is the inner value of the new coefficient. Time running
/// backwards is an underflow; a coefficient never comes out smaller.
pub fn calculate_collateral_interest_coefficient(
    last_fee_update_time: u64,
    now: u64,
    collateral_interest_coefficient: &Fix,
    stability_fee_rate: &Fix,
) -> (r: Result<Balance, ArithmeticError>)
    ensures
        r == coefficient_value(
            last_fee_update_time,
            now,
            collateral_interest_coefficient@,
            stability_fee_rate@,
        ),
        now < last_fee_update_time
            ==> r == Err::<Balance, ArithmeticError>(ArithmeticError::Underflow),
        now >= last_fee_update_time && stability_fee_rate@ == 0
            && collateral_interest_coefficient@ < u128::MAX
            ==> r == Ok::<Balance, ArithmeticError>(collateral_interest_coefficient@),
        r matches Ok(coefficient)
            ==> collateral_interest_coefficient@ <= coefficient < u128::MAX,
{
    let time_passed: u64 = match now.checked_sub(last_fee_update_time) {
        Some(t) => t,
        None => return Err(ArithmeticError::Underflow),
    };
    compound(collateral_interest_coefficient.into_inner(), stability_fee_rate, time_passed)
}

/// Rescales a position's debt from the coefficient it was last normalized
/// at, `cdp_interest_coefficient`, to `new_coefficient`.
///
/// A failure of the final product is reported as an underflow. A debt never
/// comes out smaller.
pub fn rescale_debt(
    new_coefficient: Fix,
    cdp_interest_coefficient: &Fix,
    cdp_debt: Balance,
) -> (r: Result<Balance, ArithmeticError>)
    ensures
        r == rescaled_debt(new_coefficient@, cdp_interest_coefficient@, cdp_debt),
        r matches Ok(debt) ==> debt >= cdp_debt,
{
    proof {
        lemma_rescaled_not_below_debt(new_coefficient@, cdp_interest_coefficient@, cdp_debt);
    }
    let interest_percent = new_coefficient.ensure_sub(*cdp_interest_coefficient)?.ensure_div(
        *cdp_interest_coefficient,
    )?;
    let scale = interest_percent.ensure_add(Fix::one())?;
    match Fix::from_inner(cdp_debt).ensure_mul(scale) {
        Ok(amount) => Ok(amount.into_inner()),
        Err(_) => Err(ArithmeticError::Underflow),
    }
}

/// The debt of a position after the interest accrued between
/// `last_fee_update_time` and `now`.
///
/// Time running backwards is an underflow. A zero snapshot is a division by
/// zero, once the coefficient has been advanced. Where the rate is zero and
/// the snapshot is the collateral's coefficient, the debt stays as it is.
pub fn calculate_new_debt(
    last_fee_update_time: u64,
    now: u64,
    collateral_interest_coefficient: &Fix,
    cdp_interest_coefficient: &Fix,
    stability_fee_rate: &Fix,
    cdp_debt: Balance,
) -> (r: Result<Balance, ArithmeticError>)
    ensures
        r == new_debt_value(
            last_fee_update_time,
            now,
            collateral_interest_coefficient@,
            cdp_interest_coefficient@,
            stability_fee_rate@,
            cdp_debt,
        ),
        now < last_fee_update_time
            ==> r == Err::<Balance, ArithmeticError>(ArithmeticError::Underflow),
        cdp_interest_coefficient@ == 0 && coefficient_value(
            last_fee_update_time,
            now,
            collateral_interest_coefficient@,
            stability_fee_rate@,
        ) is Ok ==> r == Err::<Balance, ArithmeticError>(ArithmeticError::DivisionByZero),
        now >= last_fee_update_time && stability_fee_rate@ == 0
            && collateral_interest_coefficient@ == cdp_interest_coefficient@
            && 0 < cdp_interest_coefficient@ < u128::MAX
            ==> r == Ok::<Balance, ArithmeticError>(cdp_debt),
        r matches Ok(debt) ==> debt >= cdp_debt,
{
    proof {
        if cdp_interest_coefficient@ > 0 {
            lemma_rescale_at_snapshot(cdp_interest_coefficient@, cdp_debt);
        }
    }
    let new_coefficient = Fix::from_inner(
        calculate_collateral_interest_coefficient(
            last_fee_update_time,
            now,
            collateral_interest_coefficient,
            stability_fee_rate,
        )?,
    );
    rescale_debt(new_coefficient, cdp_interest_coefficient, cdp_debt)
}

} // verus!
