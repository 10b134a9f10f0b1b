use vstd::prelude::*;

use crate::decimal::{
    decimal_division, decimal_multiplication, decimal_subtraction, div_floor, fits, frac,
    lemma_div_floor_self, lemma_mul_floor_monotone, lemma_mul_floor_unit, mul_floor, sub_clamped, strict_subtraction, Decimal,
    DECIMAL_FRACTIONAL,
};
use crate::error::MarketError;
use crate::state::{Liability, State};

verus! {

/// Blocks since the last accrual; a height below it counts as none.
pub open spec fn elapsed(s: State, block_height: u64) -> int {
    if block_height >= s.last_interest_updated {
        block_height - s.last_interest_updated
    } else {
        0
    }
}

/// Interest per unit of debt over the elapsed blocks: `elapsed * rate`.
pub open spec fn interest_factor(s: State, rate: Decimal, block_height: u64) -> int {
    mul_floor(elapsed(s, block_height) * frac(), rate.atomics as int)
}

/// The ledger brought up to `block_height` at `rate`, with `reserve_factor` of
/// the new interest set aside; `None` where a value does not fit.
pub open spec fn accrual(s: State, rate: Decimal, reserve_factor: Decimal, block_height: u64) -> Option<
    State,
> {
    let factor = interest_factor(s, rate, block_height);
    let accrued = mul_floor(s.total_liabilities.atomics as int, factor);
    let growth = frac() + factor;
    let index = mul_floor(s.global_interest_index.atomics as int, growth);
    let liabilities = s.total_liabilities.atomics + accrued;
    let skim = mul_floor(accrued, reserve_factor.atomics as int);
    let reserves = s.total_reserves.atomics + skim;
    if fits(factor) && fits(accrued) && fits(growth) && fits(index) && fits(liabilities) && fits(
        skim,
    ) && fits(reserves) {
        Some(
            State {
                total_liabilities: Decimal { atomics: liabilities as u128 },
                total_reserves: Decimal { atomics: reserves as u128 },
                global_interest_index: Decimal { atomics: index as u128 },
                last_interest_updated: if block_height >= s.last_interest_updated {
                    block_height
                } else {
                    s.last_interest_updated
                },
            },
        )
    } else {
        None
    }
}

/// The record rescaled to the ledger's index:
/// `loan_amount * (global_index / record_index)`.
pub open spec fn projection(s: State, l: Liability) -> Result<Liability, MarketError> {
    let global = s.global_interest_index.atomics as int;
    let own = l.interest_index.atomics as int;
    if own == 0 {
        Err(MarketError::DivisionByZero)
    } else if !fits(div_floor(global, own)) {
        Err(MarketError::ArithmeticOverflow)
    } else if !fits(mul_floor(l.loan_amount as int, div_floor(global, own))) {
        Err(MarketError::ArithmeticOverflow)
    } else {
        Ok(
            Liability {
                interest_index: s.global_interest_index,
                loan_amount: mul_floor(l.loan_amount as int, div_floor(global, own)) as u128,
            },
        )
    }
}

/// Bring `state` up to `block_height`: grow the index by `1 + elapsed * rate`,
/// add the interest on all liabilities to them, and set aside `reserve_factor`
/// of it as reserves. Nothing changes on failure.
pub fn compute_interest(
    state: &mut State,
    reserve_factor: Decimal,
    borrow_rate: Decimal,
    block_height: u64,
) -> (r: Result<(), MarketError>)
    ensures
        match accrual(*old(state), borrow_rate, reserve_factor, block_height) {
            Some(s) => r is Ok && *final(state) == s,
            None => r == Err::<(), MarketError>(MarketError::ArithmeticOverflow) && *final(state)
                == *old(state),
        },
{
    let ghost s0 = *state;
    let passed_blocks: u64 = if block_height >= state.last_interest_updated {
        block_height - state.last_interest_updated
    } else {
        0
    };
    proof {
        assert(passed_blocks * frac() <= u128::MAX) by (nonlinear_arith)
            requires passed_blocks <= u64::MAX, frac() == 1_000_000_000_000_000_000int;
        assert(0 <= passed_blocks * frac()) by (nonlinear_arith)
            requires 0 <= passed_blocks, frac() > 0;
    }
    let passed = Decimal { atomics: passed_blocks as u128 * DECIMAL_FRACTIONAL };
    let factor = match decimal_multiplication(passed, borrow_rate) {
        Ok(d) => d,
        Err(e) => return Err(e),
    };
    proof {
        lemma_mul_floor_monotone(0, state.total_liabilities.atomics as int, 0, factor.atomics as int);
    }
    let accrued = match decimal_multiplication(state.total_liabilities, factor) {
        Ok(d) => d,
        Err(e) => return Err(e),
    };
    let growth = match Decimal::one().checked_add(factor) {
        Ok(d) => d,
        Err(e) => return Err(e),
    };
    let index = match decimal_multiplication(state.global_interest_index, growth) {
        Ok(d) => d,
        Err(e) => return Err(e),
    };
    let liabilities = match state.total_liabilities.checked_add(accrued) {
        Ok(d) => d,
        Err(e) => return Err(e),
    };
    proof {
        lemma_mul_floor_monotone(0, accrued.atomics as int, 0, reserve_factor.atomics as int);
    }
    let skim = match decimal_multiplication(accrued, reserve_factor) {
        Ok(d) => d,
        Err(e) => return Err(e),
    };
    let reserves = match state.total_reserves.checked_add(skim) {
        Ok(d) => d,
        Err(e) => return Err(e),
    };
    state.global_interest_index = index;
    state.total_liabilities = liabilities;
    state.total_reserves = reserves;
    if block_height >= state.last_interest_updated {
        state.last_interest_updated = block_height;
    }
    Ok(())
}

/// Rescale `liability` to the ledger's current index. Nothing changes on failure.
pub fn compute_loan(state: &State, liability: &mut Liability) -> (r: Result<(), MarketError>)
    ensures
        match projection(*state, *old(liability)) {
            Ok(l) => r is Ok && *final(liability) == l,
            Err(e) => r == Err::<(), MarketError>(e) && *final(liability) == *old(liability),
        },
{
    let ratio = match decimal_division(state.global_interest_index, liability.interest_index) {
        Ok(d) => d,
        Err(e) => return Err(e),
    };
    let amount = match crate::decimal::checked_mul_floor(liability.loan_amount, ratio.atomics) {
        Ok(v) => v,
        Err(e) => return Err(e),
    };
    liability.loan_amount = amount;
    liability.interest_index = state.global_interest_index;
    Ok(())
}

/// A borrow of `amount` against a synced ledger and record, under `borrow_limit`.
pub open spec fn borrow_step(s: State, l: Liability, borrow_limit: u128, amount: u128) -> Result<
    (State, Liability),
    MarketError,
> {
    let liabilities = s.total_liabilities.atomics + amount * frac();
    if l.loan_amount + amount > borrow_limit {
        Err(MarketError::BorrowLimitExceeded)
    } else if !fits(liabilities) {
        Err(MarketError::ArithmeticOverflow)
    } else {
        Ok(
            (
                State { total_liabilities: Decimal { atomics: liabilities as u128 }, ..s },
                Liability { loan_amount: (l.loan_amount + amount) as u128, ..l },
            ),
        )
    }
}

/// The part of `tendered` that pays off debt: at most what is owed.
pub open spec fn repaid(l: Liability, tendered: u128) -> int {
    if tendered > l.loan_amount {
        l.loan_amount as int
    } else {
        tendered as int
    }
}

/// A repayment of `tendered` against a synced ledger and record; the last
/// component is what goes back to the payer.
pub open spec fn repay_step(s: State, l: Liability, tendered: u128) -> (State, Liability, u128) {
    let paid = repaid(l, tendered);
    (
        State {
            total_liabilities: Decimal {
                atomics: sub_clamped(s.total_liabilities.atomics as int, paid * frac()) as u128,
            },
            ..s
        },
        Liability { loan_amount: (l.loan_amount - paid) as u128, ..l },
        (tendered - paid) as u128,
    )
}

/// Accrue, sync the borrower's record, and lend `borrow_amount` if the
/// borrower's total debt stays within `borrow_limit`; returns the amount to
/// send. A zero amount is accepted and lends nothing. On failure neither
/// record changes.
pub fn borrow_stable(
    state: &mut State,
    liability: &mut Liability,
    reserve_factor: Decimal,
    borrow_rate: Decimal,
    block_height: u64,
    borrow_limit: u128,
    borrow_amount: u128,
) -> (r: Result<u128, MarketError>)
    ensures
        match accrual(*old(state), borrow_rate, reserve_factor, block_height) {
            None => r == Err::<u128, MarketError>(MarketError::ArithmeticOverflow),
            Some(s1) => match projection(s1, *old(liability)) {
                Err(e) => r == Err::<u128, MarketError>(e),
                Ok(l1) => match borrow_step(s1, l1, borrow_limit, borrow_amount) {
                    Err(e) => r == Err::<u128, MarketError>(e),
                    Ok((s2, l2)) => r == Ok::<u128, MarketError>(borrow_amount) && *final(state)
                        == s2 && *final(liability) == l2,
                },
            },
        },
        r is Err ==> *final(state) == *old(state) && *final(liability) == *old(liability),
{
    let mut s = *state;
    let mut l = *liability;
    match compute_interest(&mut s, reserve_factor, borrow_rate, block_height) {
        Ok(()) => {},
        Err(e) => return Err(e),
    }
    match compute_loan(&s, &mut l) {
        Ok(()) => {},
        Err(e) => return Err(e),
    }
    if borrow_limit < borrow_amount || borrow_limit - borrow_amount < l.loan_amount {
        return Err(MarketError::BorrowLimitExceeded);
    }
    let added = match Decimal::from_integer(borrow_amount) {
        Ok(d) => d,
        Err(e) => return Err(e),
    };
    let liabilities = match s.total_liabilities.checked_add(added) {
        Ok(d) => d,
        Err(e) => return Err(e),
    };
    l.loan_amount = l.loan_amount + borrow_amount;
    s.total_liabilities = liabilities;
    *state = s;
    *liability = l;
    Ok(borrow_amount)
}

/// Accrue, sync the borrower's record, and apply `amount` to the debt; what
/// exceeds the debt is returned as the refund. Zero is refused. On failure
/// neither record changes.
pub fn repay_stable(
    state: &mut State,
    liability: &mut Liability,
    reserve_factor: Decimal,
    borrow_rate: Decimal,
    block_height: u64,
    amount: u128,
) -> (r: Result<u128, MarketError>)
    ensures
        amount == 0 ==> r == Err::<u128, MarketError>(MarketError::InvalidAmount),
        amount != 0 ==> match accrual(*old(state), borrow_rate, reserve_factor, block_height) {
            None => r == Err::<u128, MarketError>(MarketError::ArithmeticOverflow),
            Some(s1) => match projection(s1, *old(liability)) {
                Err(e) => r == Err::<u128, MarketError>(e),
                Ok(l1) => {
                    let (s2, l2, refund) = repay_step(s1, l1, amount);
                    r == Ok::<u128, MarketError>(refund) && *final(state) == s2 && *final(liability)
                        == l2
                },
            },
        },
        r is Err ==> *final(state) == *old(state) && *final(liability) == *old(liability),
{
    if amount == 0 {
        return Err(MarketError::InvalidAmount);
    }
    let mut s = *state;
    let mut l = *liability;
    match compute_interest(&mut s, reserve_factor, borrow_rate, block_height) {
        Ok(()) => {},
        Err(e) => return Err(e),
    }
    match compute_loan(&s, &mut l) {
        Ok(()) => {},
        Err(e) => return Err(e),
    }
    let repay_amount: u128 = if l.loan_amount < amount {
        l.loan_amount
    } else {
        amount
    };
    let refund: u128 = amount - repay_amount;
    l.loan_amount = l.loan_amount - repay_amount;
    s.total_liabilities = match Decimal::from_integer(repay_amount) {
        Ok(d) => decimal_subtraction(s.total_liabilities, d),
        Err(_) => Decimal::zero(),
    };
    *state = s;
    *liability = l;
    Ok(refund)
}

/// Whether two canonical addresses are the same bytes.
pub fn same_address(a: &[u8], b: &[u8]) -> (r: bool)
    ensures
        r == (a@ == b@),
{
    if a.len() != b.len() {
        return false;
    }
    let mut i: usize = 0;
    while i < a.len()
        invariant
            a@.len() == b@.len(),
            0 <= i <= a@.len(),
            forall|j: int| 0 <= j < i ==> a@[j] == b@[j],
        decreases a@.len() - i,
    {
        if a[i] != b[i] {
            return false;
        }
        i = i + 1;
    }
    proof {
        assert(a@ =~= b@);
    }
    true
}

/// A repayment made by the overseer on behalf of a liquidated borrower: the
/// amount is what the market's balance gained since `prev_balance`. Only the
/// overseer may call it. On failure neither record changes.
pub fn repay_stable_from_liquidation(
    state: &mut State,
    liability: &mut Liability,
    reserve_factor: Decimal,
    borrow_rate: Decimal,
    block_height: u64,
    sender: &[u8],
    overseer: &[u8],
    cur_balance: u128,
    prev_balance: u128,
) -> (r: Result<u128, MarketError>)
    ensures
        sender@ != overseer@ ==> r == Err::<u128, MarketError>(MarketError::Unauthorized),
        sender@ == overseer@ && cur_balance < prev_balance ==> r == Err::<u128, MarketError>(
            MarketError::Underflow,
        ),
        sender@ == overseer@ && cur_balance >= prev_balance ==> {
            let amount = (cur_balance - prev_balance) as u128;
            &&& amount == 0 ==> r == Err::<u128, MarketError>(MarketError::InvalidAmount)
            &&& amount != 0 ==> match accrual(
                *old(state),
                borrow_rate,
                reserve_factor,
                block_height,
            ) {
                None => r == Err::<u128, MarketError>(MarketError::ArithmeticOverflow),
                Some(s1) => match projection(s1, *old(liability)) {
                    Err(e) => r == Err::<u128, MarketError>(e),
                    Ok(l1) => {
                        let (s2, l2, refund) = repay_step(s1, l1, amount);
                        r == Ok::<u128, MarketError>(refund) && *final(state) == s2
                            && *final(liability) == l2
                    },
                },
            }
        },
        r is Err ==> *final(state) == *old(state) && *final(liability) == *old(liability),
{
    if !same_address(sender, overseer) {
        return Err(MarketError::Unauthorized);
    }
    let amount = match strict_subtraction(cur_balance, prev_balance) {
        Ok(v) => v,
        Err(e) => return Err(e),
    };
    repay_stable(state, liability, reserve_factor, borrow_rate, block_height, amount)
}

/// What the borrower would owe at `block_height`, computed on copies: nothing
/// is stored.
pub fn query_loan_amount(
    state: &State,
    liability: &Liability,
    reserve_factor: Decimal,
    borrow_rate: Decimal,
    block_height: u64,
) -> (r: Result<u128, MarketError>)
    ensures
        match accrual(*state, borrow_rate, reserve_factor, block_height) {
            None => r == Err::<u128, MarketError>(MarketError::ArithmeticOverflow),
            Some(s1) => match projection(s1, *liability) {
                Err(e) => r == Err::<u128, MarketError>(e),
                Ok(l1) => r == Ok::<u128, MarketError>(l1.loan_amount),
            },
        },
{
    let mut s = *state;
    let mut l = *liability;
    match compute_interest(&mut s, reserve_factor, borrow_rate, block_height) {
        Ok(()) => {},
        Err(e) => return Err(e),
    }
    match compute_loan(&s, &mut l) {
        Ok(()) => {},
        Err(e) => return Err(e),
    }
    Ok(l.loan_amount)
}

/// Accrual over a run of `(rate, block_height)` steps, one after another;
/// `None` where any step overflows.
pub open spec fn accrue_steps(s: State, reserve_factor: Decimal, steps: Seq<(Decimal, u64)>) -> Option<
    State,
>
    decreases steps.len(),
{
    if steps.len() == 0 {
        Some(s)
    } else {
        match accrual(s, steps[0].0, reserve_factor, steps[0].1) {
            None => None,
            Some(s1) => accrue_steps(s1, reserve_factor, steps.drop_first()),
        }
    }
}

/// One accrual never lowers the index, the liabilities, the reserves or the
/// height of the last update.
pub proof fn lemma_accrual_monotone(s: State, rate: Decimal, reserve_factor: Decimal, block_height: u64)
    requires
        accrual(s, rate, reserve_factor, block_height) is Some,
    ensures
        ({
            let s1 = accrual(s, rate, reserve_factor, block_height).unwrap();
            &&& s1.global_interest_index.atomics >= s.global_interest_index.atomics
            &&& s1.total_liabilities.atomics >= s.total_liabilities.atomics
            &&& s1.total_reserves.atomics >= s.total_reserves.atomics
            &&& s1.last_interest_updated >= s.last_interest_updated
        }),
{
    let factor = interest_factor(s, rate, block_height);
    let idx = s.global_interest_index.atomics as int;
    assert(elapsed(s, block_height) * frac() >= 0) by (nonlinear_arith)
        requires elapsed(s, block_height) >= 0, frac() > 0;
    lemma_mul_floor_monotone(0, elapsed(s, block_height) * frac(), 0, rate.atomics as int);
    lemma_mul_floor_unit(0);
    lemma_mul_floor_unit(idx);
    lemma_mul_floor_monotone(idx, idx, frac(), frac() + factor);
    lemma_mul_floor_monotone(0, s.total_liabilities.atomics as int, 0, factor);
    let accrued = mul_floor(s.total_liabilities.atomics as int, factor);
    lemma_mul_floor_monotone(0, accrued, 0, reserve_factor.atomics as int);
}

/// Over any run of accruals that all succeed, the index, the liabilities, the
/// reserves and the height of the last update never go down.
pub proof fn lemma_accrual_run_monotone(s: State, reserve_factor: Decimal, steps: Seq<(Decimal, u64)>)
    requires
        accrue_steps(s, reserve_factor, steps) is Some,
    ensures
        ({
            let s1 = accrue_steps(s, reserve_factor, steps).unwrap();
            &&& s1.global_interest_index.atomics >= s.global_interest_index.atomics
            &&& s1.total_liabilities.atomics >= s.total_liabilities.atomics
            &&& s1.total_reserves.atomics >= s.total_reserves.atomics
            &&& s1.last_interest_updated >= s.last_interest_updated
        }),
    decreases steps.len(),
{
    if steps.len() > 0 {
        lemma_accrual_monotone(s, steps[0].0, reserve_factor, steps[0].1);
        let s1 = accrual(s, steps[0].0, reserve_factor, steps[0].1).unwrap();
        lemma_accrual_run_monotone(s1, reserve_factor, steps.drop_first());
    }
}

/// A second accrual at the same height, at any rate, changes nothing.
pub proof fn lemma_accrual_idempotent(
    s: State,
    rate: Decimal,
    reserve_factor: Decimal,
    block_height: u64,
    rate2: Decimal,
    reserve_factor2: Decimal,
)
    requires
        accrual(s, rate, reserve_factor, block_height) is Some,
    ensures
        ({
            let s1 = accrual(s, rate, reserve_factor, block_height).unwrap();
            accrual(s1, rate2, reserve_factor2, block_height) == Some(s1)
        }),
{
    let s1 = accrual(s, rate, reserve_factor, block_height).unwrap();
    assert(elapsed(s1, block_height) == 0);
    lemma_mul_floor_unit(rate2.atomics as int);
    lemma_mul_floor_unit(s1.total_liabilities.atomics as int);
    lemma_mul_floor_unit(reserve_factor2.atomics as int);
    lemma_mul_floor_unit(s1.global_interest_index.atomics as int);
    assert(interest_factor(s1, rate2, block_height) == 0);
}

/// A record synced at a positive index `I1` with debt `D`, projected against a
/// ledger index `I2 >= I1`, owes `D * (I2 / I1)` at index `I2` (when that fits),
/// and projecting the result again changes nothing.
pub proof fn lemma_projection_consistent(s: State, l: Liability)
    requires
        0 < l.interest_index.atomics <= s.global_interest_index.atomics,
        fits(div_floor(s.global_interest_index.atomics as int, l.interest_index.atomics as int)),
        fits(
            mul_floor(
                l.loan_amount as int,
                div_floor(
                    s.global_interest_index.atomics as int,
                    l.interest_index.atomics as int,
                ),
            ),
        ),
    ensures
        projection(s, l) == Ok::<Liability, MarketError>(
            Liability {
                interest_index: s.global_interest_index,
                loan_amount: mul_floor(
                    l.loan_amount as int,
                    div_floor(
                        s.global_interest_index.atomics as int,
                        l.interest_index.atomics as int,
                    ),
                ) as u128,
            },
        ),
        projection(s, projection(s, l).unwrap()) == projection(s, l),
{
    let l1 = projection(s, l).unwrap();
    lemma_div_floor_self(s.global_interest_index.atomics as int);
    lemma_mul_floor_unit(l1.loan_amount as int);
}

/// Tendering more than is owed clears the debt, lowers the liabilities by the
/// debt (to no less than zero), and refunds the excess.
pub proof fn lemma_repay_overpayment(s: State, l: Liability, tendered: u128)
    requires
        tendered > l.loan_amount,
    ensures
        ({
            let (s2, l2, refund) = repay_step(s, l, tendered);
            &&& l2.loan_amount == 0
            &&& l2.interest_index == l.interest_index
            &&& refund == tendered - l.loan_amount
            &&& s2.total_liabilities.atomics == sub_clamped(
                s.total_liabilities.atomics as int,
                l.loan_amount * frac(),
            )
            &&& s.total_liabilities.atomics >= l.loan_amount * frac()
                ==> s2.total_liabilities.atomics == s.total_liabilities.atomics - l.loan_amount
                * frac()
        }),
{
}

/// A repayment clamps the liabilities at zero: they become
/// `max(total - paid, 0)`, never more than before and never below zero, and the
/// rest of the ledger is untouched.
pub proof fn lemma_repay_clamped(s: State, l: Liability, tendered: u128)
    ensures
        ({
            let (s2, l2, refund) = repay_step(s, l, tendered);
            &&& s2.total_liabilities.atomics as int == sub_clamped(
                s.total_liabilities.atomics as int,
                repaid(l, tendered) * frac(),
            )
            &&& 0 <= s2.total_liabilities.atomics <= s.total_liabilities.atomics
            &&& s2.total_reserves == s.total_reserves
            &&& s2.global_interest_index == s.global_interest_index
        }),
{
    assert(repaid(l, tendered) * frac() >= 0) by (nonlinear_arith)
        requires repaid(l, tendered) >= 0, frac() > 0;
}

/// Repayments of `tenders`, one after another, against a synced record.
pub open spec fn repay_run(s: State, l: Liability, tenders: Seq<u128>) -> (State, Liability)
    decreases tenders.len(),
{
    if tenders.len() == 0 {
        (s, l)
    } else {
        let (s1, l1, _) = repay_step(s, l, tenders[0]);
        repay_run(s1, l1, tenders.drop_first())
    }
}

/// Any run of repayments pays off at most the debt, and leaves the liabilities
/// at `max(total - paid, 0)` for the whole amount paid: each clamp at zero
/// composes with the next, so no repayment fails on the subtraction and the
/// liabilities never go below zero.
pub proof fn lemma_repay_run_clamped(s: State, l: Liability, tenders: Seq<u128>)
    ensures
        ({
            let (s2, l2) = repay_run(s, l, tenders);
            &&& l2.loan_amount <= l.loan_amount
            &&& l2.interest_index == l.interest_index
            &&& s2.total_liabilities.atomics as int == sub_clamped(
                s.total_liabilities.atomics as int,
                (l.loan_amount - l2.loan_amount) * frac(),
            )
            &&& s2.total_reserves == s.total_reserves
            &&& s2.global_interest_index == s.global_interest_index
            &&& s2.last_interest_updated == s.last_interest_updated
        }),
    decreases tenders.len(),
{
    if tenders.len() == 0 {
        assert((l.loan_amount - l.loan_amount) * frac() == 0) by (nonlinear_arith);
    } else {
        let (s1, l1, _) = repay_step(s, l, tenders[0]);
        lemma_repay_clamped(s, l, tenders[0]);
        lemma_repay_run_clamped(s1, l1, tenders.drop_first());
        let (s2, l2) = repay_run(s1, l1, tenders.drop_first());
        let a = repaid(l, tenders[0]);
        let b = l1.loan_amount - l2.loan_amount;
        assert(a * frac() + b * frac() == (l.loan_amount - l2.loan_amount) * frac())
            by (nonlinear_arith)
            requires a + b == l.loan_amount - l2.loan_amount;
        assert(a * frac() >= 0 && b * frac() >= 0) by (nonlinear_arith)
            requires a >= 0, b >= 0, frac() > 0;
    }
}

} // verus!
