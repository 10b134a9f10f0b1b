use market::borrow::{
    borrow_stable, compute_interest, compute_loan, query_loan_amount, repay_stable,
    repay_stable_from_liquidation, same_address,
};
use market::decimal::{Decimal, DECIMAL_FRACTIONAL};
use market::error::MarketError;
use market::state::{Liability, State};

const ONE: u128 = DECIMAL_FRACTIONAL;

fn dec(atomics: u128) -> Decimal {
    Decimal { atomics }
}

fn percent(p: u128) -> Decimal {
    dec(p * ONE / 100)
}

#[test]
fn lending_cycle_scenario() {
    let mut state = State::new(100);
    let mut liability = Liability::new();
    let rate = percent(1);
    let reserve_factor = dec(0);

    let sent = borrow_stable(&mut state, &mut liability, reserve_factor, rate, 100, 2_000_000, 1_000_000);
    assert_eq!(sent, Ok(1_000_000));
    assert_eq!(liability.loan_amount, 1_000_000);
    assert_eq!(state.total_liabilities, dec(1_000_000 * ONE));
    assert_eq!(state.global_interest_index, dec(ONE));

    assert_eq!(compute_interest(&mut state, reserve_factor, rate, 200), Ok(()));
    assert_eq!(state.global_interest_index, dec(2 * ONE));
    assert_eq!(state.total_liabilities, dec(2_000_000 * ONE));
    assert_eq!(state.last_interest_updated, 200);

    assert_eq!(query_loan_amount(&state, &liability, reserve_factor, rate, 200), Ok(2_000_000));

    let refund = repay_stable(&mut state, &mut liability, reserve_factor, rate, 200, 2_500_000);
    assert_eq!(refund, Ok(500_000));
    assert_eq!(liability.loan_amount, 0);
    assert_eq!(liability.interest_index, dec(2 * ONE));
    assert_eq!(state.total_liabilities, dec(0));
}

#[test]
fn accrual_sets_aside_reserves() {
    let mut state = State::new(100);
    state.total_liabilities = dec(1_000_000 * ONE);
    assert_eq!(compute_interest(&mut state, percent(5), percent(1), 200), Ok(()));
    assert_eq!(state.total_liabilities, dec(2_000_000 * ONE));
    assert_eq!(state.total_reserves, dec(50_000 * ONE));
    assert_eq!(state.global_interest_index, dec(2 * ONE));
}

#[test]
fn accrual_twice_at_same_height_is_noop() {
    let mut state = State::new(10);
    state.total_liabilities = dec(123_456 * ONE);
    assert_eq!(compute_interest(&mut state, percent(10), dec(ONE / 1000), 17), Ok(()));
    let after_first = state;
    assert_eq!(compute_interest(&mut state, percent(20), percent(50), 17), Ok(()));
    assert_eq!(state, after_first);
}

#[test]
fn accrual_is_monotone() {
    let mut state = State::new(0);
    state.total_liabilities = dec(1_000 * ONE);
    let mut prev = state;
    for height in [3u64, 3, 9, 40, 41] {
        assert_eq!(compute_interest(&mut state, percent(10), dec(ONE / 7), height), Ok(()));
        assert!(state.global_interest_index.atomics >= prev.global_interest_index.atomics);
        assert!(state.total_liabilities.atomics >= prev.total_liabilities.atomics);
        assert!(state.total_reserves.atomics >= prev.total_reserves.atomics);
        assert!(state.last_interest_updated >= prev.last_interest_updated);
        prev = state;
    }
    assert!(state.global_interest_index.atomics > ONE);
}

#[test]
fn accrual_at_earlier_height_changes_nothing() {
    let mut state = State::new(50);
    state.total_liabilities = dec(7 * ONE);
    let before = state;
    assert_eq!(compute_interest(&mut state, percent(1), percent(1), 20), Ok(()));
    assert_eq!(state, before);
}

#[test]
fn accrual_overflow_leaves_state() {
    let mut state = State::new(0);
    state.total_liabilities = dec(u128::MAX / 2);
    let before = state;
    assert_eq!(
        compute_interest(&mut state, dec(0), dec(ONE), 5),
        Err(MarketError::ArithmeticOverflow)
    );
    assert_eq!(state, before);
}

#[test]
fn projection_scales_by_index_ratio() {
    let mut state = State::new(0);
    state.global_interest_index = dec(3 * ONE);
    let mut liability = Liability { interest_index: dec(2 * ONE), loan_amount: 1_000 };
    assert_eq!(compute_loan(&state, &mut liability), Ok(()));
    assert_eq!(liability.loan_amount, 1_500);
    assert_eq!(liability.interest_index, dec(3 * ONE));
    let synced = liability;
    assert_eq!(compute_loan(&state, &mut liability), Ok(()));
    assert_eq!(liability, synced);
}

#[test]
fn projection_truncates() {
    let mut state = State::new(0);
    state.global_interest_index = dec(ONE + ONE / 3);
    let mut liability = Liability { interest_index: dec(ONE), loan_amount: 10 };
    assert_eq!(compute_loan(&state, &mut liability), Ok(()));
    assert_eq!(liability.loan_amount, 13);
}

#[test]
fn projection_of_zero_index_fails() {
    let state = State::new(0);
    let mut liability = Liability { interest_index: dec(0), loan_amount: 5 };
    assert_eq!(compute_loan(&state, &mut liability), Err(MarketError::DivisionByZero));
    assert_eq!(liability.loan_amount, 5);
}

#[test]
fn borrow_over_limit_changes_nothing() {
    let mut state = State::new(0);
    state.total_liabilities = dec(100 * ONE);
    let mut liability = Liability { interest_index: dec(ONE), loan_amount: 100 };
    let (s0, l0) = (state, liability);
    assert_eq!(
        borrow_stable(&mut state, &mut liability, dec(0), percent(1), 0, 150, 51),
        Err(MarketError::BorrowLimitExceeded)
    );
    assert_eq!(state, s0);
    assert_eq!(liability, l0);
    assert_eq!(borrow_stable(&mut state, &mut liability, dec(0), percent(1), 0, 150, 50), Ok(50));
    assert_eq!(liability.loan_amount, 150);
    assert_eq!(state.total_liabilities, dec(150 * ONE));
}

#[test]
fn borrow_limit_counts_accrued_interest() {
    let mut state = State::new(0);
    let mut liability = Liability::new();
    assert_eq!(borrow_stable(&mut state, &mut liability, dec(0), percent(1), 0, 1_000, 1_000), Ok(1_000));
    // Ten blocks at one percent: the debt is now 1100.
    let (s0, l0) = (state, liability);
    assert_eq!(
        borrow_stable(&mut state, &mut liability, dec(0), percent(1), 10, 1_150, 100),
        Err(MarketError::BorrowLimitExceeded)
    );
    assert_eq!((state, liability), (s0, l0));
    assert_eq!(borrow_stable(&mut state, &mut liability, dec(0), percent(1), 10, 1_150, 50), Ok(50));
    assert_eq!(liability.loan_amount, 1_150);
}

#[test]
fn borrow_overflow_changes_nothing() {
    let mut state = State::new(0);
    let mut liability = Liability::new();
    let (s0, l0) = (state, liability);
    assert_eq!(
        borrow_stable(&mut state, &mut liability, dec(0), percent(1), 0, u128::MAX, u128::MAX / 2),
        Err(MarketError::ArithmeticOverflow)
    );
    assert_eq!((state, liability), (s0, l0));
}

#[test]
fn borrow_of_zero_only_syncs() {
    let mut state = State::new(0);
    let mut liability = Liability::new();
    assert_eq!(borrow_stable(&mut state, &mut liability, dec(0), percent(1), 0, 0, 0), Ok(0));
    assert_eq!(liability.loan_amount, 0);
    assert_eq!(state.total_liabilities, dec(0));
}

#[test]
fn repay_zero_is_refused() {
    let mut state = State::new(0);
    let mut liability = Liability::new();
    assert_eq!(
        repay_stable(&mut state, &mut liability, dec(0), percent(1), 0, 0),
        Err(MarketError::InvalidAmount)
    );
}

#[test]
fn partial_repay_keeps_rest_of_debt() {
    let mut state = State::new(0);
    state.total_liabilities = dec(500 * ONE);
    let mut liability = Liability { interest_index: dec(ONE), loan_amount: 300 };
    assert_eq!(repay_stable(&mut state, &mut liability, dec(0), percent(1), 0, 120), Ok(0));
    assert_eq!(liability.loan_amount, 180);
    assert_eq!(state.total_liabilities, dec(380 * ONE));
}

#[test]
fn repay_clamps_liabilities_at_zero() {
    let mut state = State::new(0);
    state.total_liabilities = dec(ONE / 2);
    let mut liability = Liability { interest_index: dec(ONE), loan_amount: 3 };
    assert_eq!(repay_stable(&mut state, &mut liability, dec(0), percent(1), 0, 1), Ok(0));
    assert_eq!(state.total_liabilities, dec(0));
    assert_eq!(repay_stable(&mut state, &mut liability, dec(0), percent(1), 0, 5), Ok(3));
    assert_eq!(state.total_liabilities, dec(0));
    assert_eq!(liability.loan_amount, 0);
}

#[test]
fn liquidation_repay_checks_caller() {
    let mut state = State::new(0);
    state.total_liabilities = dec(100 * ONE);
    let mut liability = Liability { interest_index: dec(ONE), loan_amount: 100 };
    let overseer = b"overseer".to_vec();
    let (s0, l0) = (state, liability);
    assert_eq!(
        repay_stable_from_liquidation(&mut state, &mut liability, dec(0), percent(1), 0, b"addr0000", &overseer, 200, 100),
        Err(MarketError::Unauthorized)
    );
    assert_eq!(
        repay_stable_from_liquidation(&mut state, &mut liability, dec(0), percent(1), 0, &overseer, &overseer, 50, 100),
        Err(MarketError::Underflow)
    );
    assert_eq!(
        repay_stable_from_liquidation(&mut state, &mut liability, dec(0), percent(1), 0, &overseer, &overseer, 100, 100),
        Err(MarketError::InvalidAmount)
    );
    assert_eq!((state, liability), (s0, l0));
    assert_eq!(
        repay_stable_from_liquidation(&mut state, &mut liability, dec(0), percent(1), 0, &overseer, &overseer, 160, 100),
        Ok(0)
    );
    assert_eq!(liability.loan_amount, 40);
    assert_eq!(state.total_liabilities, dec(40 * ONE));
}

#[test]
fn query_loan_amount_stores_nothing() {
    let mut state = State::new(0);
    state.total_liabilities = dec(1_000 * ONE);
    let liability = Liability { interest_index: dec(ONE), loan_amount: 1_000 };
    let before = state;
    assert_eq!(query_loan_amount(&state, &liability, dec(0), percent(1), 50), Ok(1_500));
    assert_eq!(state, before);
}

#[test]
fn addresses_compare_bytewise() {
    assert!(same_address(b"abc", b"abc"));
    assert!(!same_address(b"abc", b"abd"));
    assert!(!same_address(b"abc", b"ab"));
    assert!(same_address(b"", b""));
}

#[test]
fn projection_against_a_large_index() {
    let mut state = State::new(0);
    state.global_interest_index = dec(1000 * ONE);
    let mut liability = Liability { interest_index: dec(ONE), loan_amount: 5 };
    assert_eq!(compute_loan(&state, &mut liability), Ok(()));
    assert_eq!(liability.loan_amount, 5000);
    assert_eq!(liability.interest_index, dec(1000 * ONE));

    let mut empty = Liability::new();
    assert_eq!(compute_loan(&state, &mut empty), Ok(()));
    assert_eq!(empty.loan_amount, 0);
    assert_eq!(empty.interest_index, dec(1000 * ONE));
}

#[test]
fn repay_against_a_large_index() {
    let mut state = State::new(0);
    state.global_interest_index = dec(1000 * ONE);
    state.total_liabilities = dec(5000 * ONE);
    let mut liability = Liability { interest_index: dec(ONE), loan_amount: 5 };
    assert_eq!(repay_stable(&mut state, &mut liability, dec(0), percent(1), 0, 1), Ok(0));
    assert_eq!(liability.loan_amount, 4999);
    assert_eq!(state.total_liabilities, dec(4999 * ONE));
}

#[test]
fn many_small_repayments_stay_clamped() {
    let mut state = State::new(0);
    state.total_liabilities = dec(10 * ONE - 3);
    let mut liability = Liability { interest_index: dec(ONE), loan_amount: 12 };
    let mut height: u64 = 0;
    for _ in 0..11 {
        height += 1;
        assert_eq!(repay_stable(&mut state, &mut liability, dec(0), dec(1), height, 1), Ok(0));
    }
    assert_eq!(state.total_liabilities, dec(0));
    assert_eq!(repay_stable(&mut state, &mut liability, dec(0), dec(1), height, 5), Ok(4));
    assert_eq!(liability.loan_amount, 0);
    assert_eq!(state.total_liabilities, dec(0));
}
