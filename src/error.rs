use vstd::prelude::*;

verus! {

/// Every way a market operation can fail.
#[derive(Clone, Copy, Debug, PartialEq, Eq, Structural)]
pub enum MarketError {
    /// A zero (or otherwise disallowed) amount was tendered.
    InvalidAmount,
    /// The requested total debt exceeds the borrower's limit.
    BorrowLimitExceeded,
    /// The caller is not the controller allowed to run the operation.
    Unauthorized,
    /// A fixed-point result does not fit in 128 bits.
    ArithmeticOverflow,
    /// A fixed-point division by zero.
    DivisionByZero,
    /// A strict subtraction whose subtrahend exceeds the minuend.
    Underflow,
}

} // verus!
