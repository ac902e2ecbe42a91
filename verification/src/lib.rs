//! Per-second compound interest and debt accrual for collateralized debt
//! positions, over unsigned 128-bit fixed-point numbers with eighteen decimals.
//!
//! - [`fixed`]: the fixed-point number and its arithmetic;
//! - [`wide`]: the exact 256-bit product and quotient beneath it;
//! - [`power`]: what holds of the saturating product and power;
//! - [`compounding`]: compounding of a balance, and the accrual of a
//!   position's debt.

pub mod compounding;
pub mod fixed;
pub mod power;
pub mod wide;
