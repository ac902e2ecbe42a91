use cdp_interest::compounding::{calculate_new_debt, compound};
use cdp_interest::fixed::{ArithmeticError, Fix, DIV};
use sp_arithmetic::traits::{
    CheckedAdd, CheckedDiv, CheckedMul, CheckedSub, EnsureAdd, EnsureMul, One, Saturating,
};
use sp_arithmetic::FixedU128;

// the same accruals computed with `sp_arithmetic`'s fixed-point numbers

fn error_of(e: sp_arithmetic::ArithmeticError) -> ArithmeticError {
    match e {
        sp_arithmetic::ArithmeticError::Underflow => ArithmeticError::Underflow,
        sp_arithmetic::ArithmeticError::Overflow => ArithmeticError::Overflow,
        sp_arithmetic::ArithmeticError::DivisionByZero => ArithmeticError::DivisionByZero,
    }
}

fn compound_with_sp(principal: u128, rate: u128, period: u32) -> Result<u128, ArithmeticError> {
    let factor = FixedU128::one()
        .ensure_add(FixedU128::from_inner(rate))
        .map_err(error_of)?
        .saturating_pow(period as usize);
    let res = FixedU128::from_inner(principal).ensure_mul(factor).map_err(error_of)?.into_inner();
    if res == u128::MAX {
        Err(ArithmeticError::Overflow)
    } else {
        Ok(res)
    }
}

fn new_debt_with_sp(
    period: u32,
    collateral: u128,
    snapshot: u128,
    rate: u128,
    debt: u128,
) -> Option<u128> {
    let advanced = FixedU128::from_inner(compound_with_sp(collateral, rate, period).ok()?);
    let snapshot = FixedU128::from_inner(snapshot);
    let interest = advanced.checked_sub(&snapshot)?.checked_div(&snapshot)?;
    let scale = interest.checked_add(&FixedU128::one())?;
    Some(FixedU128::from_inner(debt).checked_mul(&scale)?.into_inner())
}

fn amounts() -> [u128; 12] {
    [
        0,
        1,
        999,
        DIV - 1,
        DIV,
        1_001_518_439_410_635_392,
        1_006_807_347_309_888_384,
        150_284_321_817_308_397_568,
        10_000 * DIV,
        u128::MAX / DIV,
        u128::MAX - 1,
        u128::MAX,
    ]
}

fn rates() -> [u128; 10] {
    [
        0,
        1,
        7,
        315_313_331,
        4_431_822_130,
        DIV / 1_000_000,
        DIV / 100,
        DIV,
        u128::MAX - DIV,
        u128::MAX - DIV + 1,
    ]
}

fn periods() -> [u32; 12] {
    [0, 1, 2, 3, 60, 3_600, 86_400, 18_823_630, 31_556_952, 0x7fff_ffff, 0x8000_0001, u32::MAX]
}

#[test]
fn compound_agrees_with_sp_arithmetic() {
    for principal in amounts() {
        for rate in rates() {
            for period in periods() {
                assert_eq!(
                    compound(principal, &Fix::from_inner(rate), period as u64),
                    compound_with_sp(principal, rate, period)
                );
            }
        }
    }
}

#[test]
fn new_debt_agrees_with_sp_arithmetic() {
    let snapshots = [0, 1, DIV / 2, DIV, 1_006_807_347_309_888_384, 3 * DIV, u128::MAX];
    let debts = [0, 1, 150_284_321_817_308_397_568, u128::MAX / 3, u128::MAX];
    for collateral in amounts() {
        for snapshot in snapshots {
            for rate in rates() {
                for period in periods() {
                    for debt in debts {
                        assert_eq!(
                            calculate_new_debt(
                                1_713_444_654_000,
                                1_713_444_654_000 + period as u64,
                                &Fix::from_inner(collateral),
                                &Fix::from_inner(snapshot),
                                &Fix::from_inner(rate),
                                debt,
                            )
                            .ok(),
                            new_debt_with_sp(period, collateral, snapshot, rate, debt)
                        );
                    }
                }
            }
        }
    }
}

#[test]
fn longer_exponents_part_from_sp_arithmetic() {
    // `sp_arithmetic` reads the exponent in 32 bits, so 2^32 counts as zero there
    let base = DIV + 1;
    let wrapped = FixedU128::from_inner(base).saturating_pow((1u64 << 32) as usize);
    assert_eq!(wrapped, FixedU128::one());
    assert_eq!(
        Fix::from_inner(base).saturating_pow(1 << 32).into_inner(),
        1_000_000_004_294_967_302
    );
    assert_eq!(
        compound(DIV, &Fix::from_inner(1), 1 << 32),
        Ok(1_000_000_004_294_967_302)
    );
}
