use vstd::prelude::*;

use crate::decimal::{Decimal, DECIMAL_FRACTIONAL};

verus! {

/// The pool-wide ledger.
#[derive(Clone, Copy, Debug, PartialEq, Eq, Structural)]
pub struct State {
    /// Outstanding principal plus accrued interest over all borrowers.
    pub total_liabilities: Decimal,
    /// The protocol's retained share of accrued interest.
    pub total_reserves: Decimal,
    /// Cumulative interest growth since the pool was created.
    pub global_interest_index: Decimal,
    /// Block height of the last accrual.
    pub last_interest_updated: u64,
}

/// A borrower's debt snapshot, valid at the index stored beside it.
#[derive(Clone, Copy, Debug, PartialEq, Eq, Structural)]
pub struct Liability {
    pub interest_index: Decimal,
    pub loan_amount: u128,
}

impl State {
    /// A fresh pool: nothing owed, nothing reserved, index one.
    pub fn new(block_height: u64) -> (r: State)
        ensures
            r.total_liabilities.atomics == 0,
            r.total_reserves.atomics == 0,
            r.global_interest_index.atomics == DECIMAL_FRACTIONAL,
            r.last_interest_updated == block_height,
    {
        State {
            total_liabilities: Decimal::zero(),
            total_reserves: Decimal::zero(),
            global_interest_index: Decimal::one(),
            last_interest_updated: block_height,
        }
    }
}

impl Liability {
    /// The record of a borrower seen for the first time: no debt, index one.
    pub fn new() -> (r: Liability)
        ensures
            r.loan_amount == 0,
            r.interest_index.atomics == DECIMAL_FRACTIONAL,
    {
        Liability { interest_index: Decimal::one(), loan_amount: 0 }
    }
}

} // verus!
