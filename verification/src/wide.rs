//! The exact quotient `a * b / c` of 128-bit integers.
//!
//! The product is formed in 256 bits from 64-bit limbs and divided bit by
//! bit, so nothing is lost before the final truncation.

use vstd::arithmetic::div_mod::lemma_fundamental_div_mod_converse;
use vstd::arithmetic::power2::{lemma2_to64, lemma_pow2_adds, lemma_pow2_unfold, pow2};
use vstd::prelude::*;

verus! {

/// The weight of the upper of two 64-bit limbs, `2^64`.
const LIMB: u128 = 0x1_0000_0000_0000_0000;

/// The weight of the top bit of a 128-bit word, `2^127`.
const TOP_BIT: u128 = 0x8000_0000_0000_0000_0000_0000_0000_0000;

/// The weight of the upper of two 128-bit words, `2^128`.
spec fn word() -> int {
    u128::MAX + 1
}

/// `a * b / c` rounded down, where `c` is not zero and the quotient fits in
/// 128 bits.
pub open spec fn mul_div_value(a: u128, b: u128, c: u128) -> Option<u128> {
    let q = (a * b) / (c as int);
    if c != 0 && q <= u128::MAX {
        Some(q as u128)
    } else {
        None
    }
}

/// The product of two 64-bit limbs fits in a word.
proof fn lemma_limb_product(x: u128, y: u128)
    requires
        x < LIMB,
        y < LIMB,
    ensures
        x * y <= (LIMB - 1) * (LIMB - 1),
        x * y <= u128::MAX,
{
    assert(x * y <= (LIMB - 1) * (LIMB - 1)) by (nonlinear_arith)
        requires
            x <= LIMB - 1,
            y <= LIMB - 1,
    ;
}

/// The powers of two that the division counts with, as numbers.
proof fn lemma_word_powers()
    ensures
        pow2(0) == 1,
        pow2(127) == TOP_BIT,
        pow2(128) == word(),
{
    lemma2_to64();
    lemma_pow2_adds(64, 64);
    lemma_pow2_unfold(128);
}

/// The 256-bit product of two words, as its upper and lower word.
fn wide_mul(a: u128, b: u128) -> (r: (u128, u128))
    ensures
        r.0 * word() + r.1 == a * b,
{
    let a0: u128 = a % LIMB;
    let a1: u128 = a / LIMB;
    let b0: u128 = b % LIMB;
    let b1: u128 = b / LIMB;
    proof {
        lemma_limb_product(a0, b0);
        lemma_limb_product(a0, b1);
        lemma_limb_product(a1, b0);
        lemma_limb_product(a1, b1);
    }
    let p00: u128 = a0 * b0;
    let p01: u128 = a0 * b1;
    let p10: u128 = a1 * b0;
    let p11: u128 = a1 * b1;
    let middle: u128 = p00 / LIMB + p01 % LIMB + p10 % LIMB;
    let lo: u128 = p00 % LIMB + (middle % LIMB) * LIMB;
    let hi: u128 = p11 + p01 / LIMB + p10 / LIMB + middle / LIMB;
    proof {
        let l = LIMB as int;
        assert(a * b == (p11 * l) * l + (p01 + p10) * l + p00) by (nonlinear_arith)
            requires
                a == a1 * l + a0,
                b == b1 * l + b0,
                p00 == a0 * b0,
                p01 == a0 * b1,
                p10 == a1 * b0,
                p11 == a1 * b1,
        ;
        assert((p11 * 0x1_0000_0000_0000_0000) * 0x1_0000_0000_0000_0000 == p11
            * 0x1_0000_0000_0000_0000_0000_0000_0000_0000int);
        assert(hi * 0x1_0000_0000_0000_0000_0000_0000_0000_0000int + lo == p11
            * 0x1_0000_0000_0000_0000_0000_0000_0000_0000int + (p01 + p10) * 0x1_0000_0000_0000_0000
            + p00);
        assert(hi * word() == hi * 0x1_0000_0000_0000_0000_0000_0000_0000_0000int);
    }
    (hi, lo)
}

/// The quotient of the 256-bit number `hi * 2^128 + lo` by `divisor`, which
/// fits in a word because `hi` is below the divisor.
fn wide_div(hi: u128, lo: u128, divisor: u128) -> (q: u128)
    requires
        hi < divisor,
    ensures
        q == (hi * word() + lo) / (divisor as int),
{
    let ghost total: int = hi * word() + lo;
    let ghost mut low: int = lo as int;
    let mut quotient: u128 = 0;
    let mut rem: u128 = hi;
    let mut rest: u128 = lo;
    let mut i: u32 = 0;
    proof {
        lemma_word_powers();
        assert(low * 1 == low);
    }
    while i < 128
        invariant
            i <= 128,
            rem < divisor,
            0 <= low < pow2((128 - i) as nat),
            rest == low * pow2(i as nat),
            quotient < pow2(i as nat),
            total == (quotient * divisor + rem) * pow2((128 - i) as nat) + low,
        decreases 128 - i,
    {
        let ghost scale: int = pow2(i as nat) as int;
        let ghost weight: int = pow2((127 - i) as nat) as int;
        proof {
            lemma_word_powers();
            lemma_pow2_unfold((128 - i) as nat);
            lemma_pow2_unfold((i + 1) as nat);
            lemma_pow2_adds(i as nat, (127 - i) as nat);
            assert(scale * weight == TOP_BIT);
            assert(scale >= 1 && weight >= 1 && scale <= TOP_BIT) by (nonlinear_arith)
                requires
                    scale * weight == TOP_BIT,
                    scale >= 0,
                    weight >= 0,
            ;
            assert((rest >= TOP_BIT) == (low >= weight)) by (nonlinear_arith)
                requires
                    rest == low * scale,
                    TOP_BIT == scale * weight,
                    scale >= 1,
            ;
        }
        let ghost rest_before: int = rest as int;
        let ghost rem_before: int = rem as int;
        // the next bit of the dividend, and the remainder doubled with it
        let mut bit: u128 = 0;
        if rest >= TOP_BIT {
            bit = 1;
            rest = (rest - TOP_BIT) * 2;
        } else {
            rest = rest * 2;
        }
        let mut taken: u128 = 0;
        if rem >= TOP_BIT {
            // the doubled remainder exceeds a word, so it exceeds the divisor
            taken = 1;
            rem = rem - (divisor - rem) + bit;
        } else {
            rem = rem * 2 + bit;
            if rem >= divisor {
                taken = 1;
                rem = rem - divisor;
            }
        }
        proof {
            let before = low;
            low = low - bit * weight;
            assert(rest == low * (2 * scale)) by (nonlinear_arith)
                requires
                    rest == 2 * (rest_before - bit * TOP_BIT),
                    rest_before == before * scale,
                    TOP_BIT == scale * weight,
                    low == before - bit * weight,
            ;
            let q0 = quotient as int;
            let r1 = rem as int;
            let d = divisor as int;
            assert(total == ((2 * q0 + taken) * d + r1) * weight + low) by (nonlinear_arith)
                requires
                    total == (q0 * d + rem_before) * (2 * weight) + before,
                    r1 == 2 * rem_before + bit - taken * d,
                    low == before - bit * weight,
            ;
        }
        quotient = quotient * 2 + taken;
        i = i + 1;
    }
    proof {
        lemma_word_powers();
        let unit = pow2((128 - i) as nat) as int;
        assert(total == quotient * divisor + rem) by (nonlinear_arith)
            requires
                total == (quotient * divisor + rem) * unit + low,
                unit == 1,
                low == 0,
        ;
        lemma_fundamental_div_mod_converse(total, divisor as int, quotient as int, rem as int);
    }
    quotient
}

/// `a * b / c` rounded down, or `None` where `c` is zero or the quotient
/// does not fit in 128 bits.
pub fn mul_div_floor(a: u128, b: u128, c: u128) -> (r: Option<u128>)
    ensures
        r == mul_div_value(a, b, c),
{
    if c == 0 {
        return None;
    }
    let (hi, lo): (u128, u128) = wide_mul(a, b);
    if hi >= c {
        proof {
            let n = a * b;
            let d = c as int;
            assert(hi * word() >= d * word()) by (nonlinear_arith)
                requires
                    hi >= d,
            ;
            assert(n / d >= word()) by (nonlinear_arith)
                requires
                    n >= d * word(),
                    d > 0,
            ;
        }
        None
    } else {
        Some(wide_div(hi, lo, c))
    }
}

} // verus!
