//! Accounting core of a stablecoin lending market: interest accrual over a
//! global index, projection of borrower debt, and the borrow and repay
//! transitions, on eighteen-place fixed-point numbers.

pub mod borrow;
pub mod decimal;
pub mod error;
pub mod query;
pub mod state;
