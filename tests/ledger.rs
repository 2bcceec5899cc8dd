use clob_core::book::Book;
use clob_core::engine::execute;
use clob_core::ledger::{Asset, CancelError, LedgerError, State, SubmitError};
use clob_core::types::{
    ActorId, Completion, ExecutionReport, IncomingOrder, MatchError, OrderKind, Side,
};
use clob_core::u256::U256;

const P: u128 = 1_000_000_000_000_000_000_000_000_000_000;

fn u(x: u64) -> U256 {
    U256::from(x)
}

fn actor(x: u64) -> ActorId {
    ActorId::from_u64(x)
}

fn state() -> State {
    State::new(actor(1), actor(2), actor(3), [1u8; 20], [2u8; 20], 100, 1_000)
}

fn order(id: u64, owner: u64, side: Side, kind: OrderKind, limit: U256, base: u64, max_quote: u64) -> IncomingOrder {
    IncomingOrder {
        id,
        owner: actor(owner),
        side,
        kind,
        limit_price: limit,
        amount_base: u(base),
        max_quote: u(max_quote),
    }
}

/// Locks, matches and settles one order the way the boundary does.
fn submit(st: &mut State, o: &IncomingOrder) -> ExecutionReport {
    let (lb, lq) = st.lock_taker_funds(o).unwrap();
    let limits = st.limits;
    let rep = execute(&mut st.book, o, limits).unwrap();
    st.settle_execution(o, &rep, lb, lq).unwrap();
    rep
}

#[test]
fn deposit_lock_unlock_withdraw() {
    let mut st = state();
    let a = actor(7);
    st.deposit(&a, Asset::Base, u(100)).unwrap();
    st.lock(&a, Asset::Base, u(30)).unwrap();
    let b = st.balance_of(&a);
    assert_eq!(b.base, u(70));
    assert_eq!(b.base_locked, u(30));
    st.unlock(&a, Asset::Base, u(10)).unwrap();
    st.withdraw(&a, Asset::Base, u(80)).unwrap();
    let b = st.balance_of(&a);
    assert_eq!(b.base, U256::zero());
    assert_eq!(b.base_locked, u(20));
    assert_eq!(b.quote, U256::zero());
}

#[test]
fn ledger_errors_leave_balances() {
    let mut st = state();
    let a = actor(7);
    st.deposit(&a, Asset::Quote, u(5)).unwrap();
    assert_eq!(st.lock(&a, Asset::Quote, u(6)), Err(LedgerError::InsufficientBalance));
    assert_eq!(st.unlock(&a, Asset::Quote, u(1)), Err(LedgerError::InsufficientLocked));
    assert_eq!(st.withdraw(&a, Asset::Quote, u(6)), Err(LedgerError::InsufficientBalance));
    let max = U256 { w0: u64::MAX, w1: u64::MAX, w2: u64::MAX, w3: u64::MAX };
    assert_eq!(st.deposit(&a, Asset::Quote, max), Err(LedgerError::Overflow));
    assert_eq!(st.balance_of(&a).quote, u(5));
    assert_eq!(st.balance_of(&actor(8)).quote, U256::zero());
}

#[test]
fn alloc_order_id_counts_up() {
    let mut st = state();
    assert_eq!(st.alloc_order_id(), 1);
    assert_eq!(st.alloc_order_id(), 2);
    st.next_order_id = u64::MAX;
    assert_eq!(st.alloc_order_id(), u64::MAX);
    assert_eq!(st.next_order_id, u64::MAX);
}

#[test]
fn limit_buy_locks_ceiling_quote() {
    let mut st = state();
    let a = actor(7);
    st.deposit(&a, Asset::Quote, u(100)).unwrap();
    let o = order(1, 7, Side::Buy, OrderKind::Limit, U256::from_u128(3 * P / 2), 3, 0);
    assert_eq!(st.lock_taker_funds(&o), Ok((U256::zero(), u(5))));
    assert_eq!(st.balance_of(&a).quote, u(95));
    assert_eq!(st.balance_of(&a).quote_locked, u(5));
}

#[test]
fn taker_lock_fails_without_funds() {
    let mut st = state();
    let o = order(1, 7, Side::Sell, OrderKind::Limit, u(10), 3, 0);
    assert_eq!(st.lock_taker_funds(&o), Err(LedgerError::InsufficientBalance));
    assert_eq!(st.balance_of(&actor(7)).base, U256::zero());
}

#[test]
fn strict_market_buy_refunds_unused_budget() {
    // One base unit is 10 atoms; 2000 quote atoms per unit is 200 per atom.
    let price = U256::from_u128(200 * P);
    let mut st = state();
    let seller = actor(5);
    let buyer = actor(6);
    st.deposit(&seller, Asset::Base, u(5)).unwrap();
    st.deposit(&buyer, Asset::Quote, u(1_000)).unwrap();

    let ask = order(1, 5, Side::Sell, OrderKind::Limit, price, 5, 0);
    let rep = submit(&mut st, &ask);
    assert!(rep.trades.is_empty());

    let spend = 4 * 200;
    let buy = order(2, 6, Side::Buy, OrderKind::Market, U256::zero(), 4, spend + 50);
    let rep = submit(&mut st, &buy);
    assert_eq!(rep.trades.len(), 1);
    assert_eq!(rep.trades[0].amount_quote, u(spend));
    assert_eq!(rep.completion, Completion::Filled);

    let b = st.balance_of(&buyer);
    assert_eq!(b.quote, u(1_000 - spend));
    assert_eq!(b.quote_locked, U256::zero());
    assert_eq!(b.base, u(4));
    let s = st.balance_of(&seller);
    assert_eq!(s.quote, u(spend));
    assert_eq!(s.base, U256::zero());
    assert_eq!(st.book.peek_order(1).unwrap().remaining_base, u(1));
}

#[test]
fn fok_rejection_restores_balances() {
    let mut st = state();
    let seller = actor(5);
    let buyer = actor(6);
    st.deposit(&seller, Asset::Base, u(5)).unwrap();
    st.deposit(&buyer, Asset::Quote, u(1_000)).unwrap();
    submit(&mut st, &order(1, 5, Side::Sell, OrderKind::Limit, U256::from_u128(P), 5, 0));

    let fok = order(2, 6, Side::Buy, OrderKind::FillOrKill, U256::from_u128(P), 8, 0);
    let rep = submit(&mut st, &fok);
    assert_eq!(rep.completion, Completion::Rejected);
    assert!(rep.trades.is_empty());
    let b = st.balance_of(&buyer);
    assert_eq!(b.quote, u(1_000));
    assert_eq!(b.quote_locked, U256::zero());
    assert_eq!(st.book.peek_order(1).unwrap().remaining_base, u(5));
}

#[test]
fn ioc_remainder_returns_to_free() {
    let mut st = state();
    let seller = actor(5);
    let buyer = actor(6);
    st.deposit(&seller, Asset::Base, u(5)).unwrap();
    st.deposit(&buyer, Asset::Quote, u(1_000)).unwrap();
    submit(&mut st, &order(1, 5, Side::Sell, OrderKind::Limit, U256::from_u128(P), 5, 0));

    let ioc = order(2, 6, Side::Buy, OrderKind::ImmediateOrCancel, U256::from_u128(P), 8, 0);
    let rep = submit(&mut st, &ioc);
    assert_eq!(rep.completion, Completion::Cancelled { remaining_base: u(3) });
    let b = st.balance_of(&buyer);
    assert_eq!(b.quote, u(995));
    assert_eq!(b.quote_locked, U256::zero());
    assert_eq!(b.base, u(5));
    assert_eq!(st.book.best_price(Side::Buy), None);
}

#[test]
fn cancel_round_trip_restores_owner() {
    let mut st = state();
    let a = actor(7);
    st.deposit(&a, Asset::Quote, u(100)).unwrap();
    let o = order(1, 7, Side::Buy, OrderKind::Limit, U256::from_u128(3 * P / 2), 3, 0);
    let rep = submit(&mut st, &o);
    assert_eq!(
        rep.completion,
        Completion::Placed {
            remaining_base: u(3),
            remaining_quote: u(5)
        }
    );
    assert_eq!(st.balance_of(&a).quote, u(95));
    assert_eq!(st.balance_of(&a).quote_locked, U256::zero());

    let m = st.book.cancel(1).unwrap();
    st.deposit(&a, Asset::Quote, m.reserved_quote).unwrap();
    assert_eq!(st.balance_of(&a).quote, u(100));
}

#[test]
fn settle_placed_sell_hands_base_to_book() {
    let mut st = state();
    let a = actor(7);
    st.deposit(&a, Asset::Base, u(10)).unwrap();
    let o = order(1, 7, Side::Sell, OrderKind::Limit, u(50), 4, 0);
    let rep = submit(&mut st, &o);
    assert_eq!(
        rep.completion,
        Completion::Placed {
            remaining_base: u(4),
            remaining_quote: U256::zero()
        }
    );
    let b = st.balance_of(&a);
    assert_eq!(b.base, u(6));
    assert_eq!(b.base_locked, U256::zero());
}

#[test]
fn settle_failure_changes_nothing() {
    let mut st = state();
    let a = actor(7);
    st.deposit(&a, Asset::Quote, u(10)).unwrap();
    let o = order(1, 7, Side::Buy, OrderKind::Limit, u(50), 4, 0);
    let rep = ExecutionReport {
        trades: Vec::new(),
        completion: Completion::Rejected,
    };
    assert_eq!(
        st.settle_execution(&o, &rep, U256::zero(), u(3)),
        Err(LedgerError::InsufficientLocked)
    );
    assert_eq!(st.balance_of(&a).quote, u(10));
}

fn trade(n: u64) -> clob_core::types::Trade {
    clob_core::types::Trade {
        maker_order_id: n,
        taker_order_id: 1000 + n,
        maker: actor(1),
        taker: actor(2),
        price: U256::from_u128(u128::MAX).checked_add(u(n)).unwrap(),
        amount_base: u(n),
        amount_quote: u(2 * n),
        maker_refund_quote: U256::zero(),
    }
}

#[test]
fn history_keeps_low_bits_and_bound() {
    let mut st = state();
    let trades: Vec<_> = (1..=3).map(trade).collect();
    st.append_executed_trades(&trades);
    assert_eq!(st.executed_trades.len(), 3);
    assert_eq!(st.executed_trades[0].seq, 1);
    assert_eq!(st.executed_trades[2].seq, 3);
    // 2^128 - 1 + 3 keeps 2 in its low 128 bits
    assert_eq!(st.executed_trades[2].price, 2);
    assert_eq!(st.executed_trades[2].amount_quote, 6);
    assert_eq!(st.next_trade_seq, 4);

    let too_many: Vec<_> = (1..=33).map(trade).collect();
    st.append_executed_trades(&too_many);
    assert_eq!(st.executed_trades.len(), 3);

    let batch: Vec<_> = (1..=32).map(trade).collect();
    for _ in 0..20 {
        st.append_executed_trades(&batch);
    }
    assert_eq!(st.executed_trades.len(), 512);
    assert_eq!(st.executed_trades[511].seq, 643);
    assert_eq!(st.executed_trades[0].seq, 132);
}

#[test]
fn submit_then_cancel_by_owner() {
    let mut st = state();
    let a = actor(7);
    st.deposit(&a, Asset::Quote, u(100)).unwrap();
    let (id, rep) = st
        .submit_order(&a, Side::Buy, OrderKind::Limit, U256::from_u128(3 * P / 2), u(3), U256::zero())
        .unwrap();
    assert_eq!(id, 1);
    assert!(rep.trades.is_empty());
    assert_eq!(st.balance_of(&a).quote, u(95));
    assert_eq!(st.book.best_price(Side::Buy), Some(U256::from_u128(3 * P / 2)));

    assert_eq!(st.cancel_order(&actor(8), id).unwrap_err(), CancelError::NotOwner);
    let m = st.cancel_order(&a, id).unwrap();
    assert_eq!(m.reserved_quote, u(5));
    assert_eq!(st.balance_of(&a).quote, u(100));
    assert_eq!(st.book.best_price(Side::Buy), None);
    assert_eq!(st.cancel_order(&a, id).unwrap_err(), CancelError::NotFound);
}

#[test]
fn submit_failure_releases_lock() {
    let mut st = state();
    let seller = actor(5);
    let buyer = actor(6);
    st.deposit(&seller, Asset::Base, u(10)).unwrap();
    st.deposit(&buyer, Asset::Quote, u(100)).unwrap();
    st.submit_order(&seller, Side::Sell, OrderKind::Limit, U256::from_u128(2 * P), u(10), U256::zero())
        .unwrap();

    let err = st
        .submit_order(&buyer, Side::Buy, OrderKind::Market, U256::zero(), u(4), u(7))
        .unwrap_err();
    assert_eq!(err, SubmitError::Match(MatchError::MarketBuyMaxQuoteExceeded));
    let b = st.balance_of(&buyer);
    assert_eq!(b.quote, u(100));
    assert_eq!(b.quote_locked, U256::zero());

    let err = st
        .submit_order(&buyer, Side::Buy, OrderKind::Market, U256::zero(), u(4), u(500))
        .unwrap_err();
    assert_eq!(err, SubmitError::Ledger(LedgerError::InsufficientBalance));
    assert_eq!(st.balance_of(&buyer).quote, u(100));
}

#[test]
fn submit_limit_sell_crosses_and_settles_both_sides() {
    let mut st = state();
    let buyer = actor(5);
    let seller = actor(6);
    st.deposit(&buyer, Asset::Quote, u(100)).unwrap();
    st.deposit(&seller, Asset::Base, u(10)).unwrap();
    st.submit_order(&buyer, Side::Buy, OrderKind::Limit, U256::from_u128(3 * P), u(5), U256::zero())
        .unwrap();
    // the bid escrows 15 quote
    assert_eq!(st.balance_of(&buyer).quote, u(85));

    let (_, rep) = st
        .submit_order(&seller, Side::Sell, OrderKind::Limit, U256::from_u128(2 * P), u(8), U256::zero())
        .unwrap();
    assert_eq!(rep.trades.len(), 1);
    assert_eq!(rep.trades[0].price, U256::from_u128(3 * P));
    assert_eq!(rep.trades[0].amount_quote, u(15));
    assert_eq!(
        rep.completion,
        Completion::Placed {
            remaining_base: u(3),
            remaining_quote: U256::zero()
        }
    );
    assert_eq!(st.balance_of(&buyer).base, u(5));
    let s = st.balance_of(&seller);
    assert_eq!(s.quote, u(15));
    assert_eq!(s.base, u(2));
    assert_eq!(s.base_locked, U256::zero());
    assert_eq!(st.book.best_price(Side::Sell), Some(U256::from_u128(2 * P)));
    assert_eq!(st.book.best_price(Side::Buy), None);
}

#[test]
fn filled_buy_maker_gets_escrow_leftover_back() {
    let mut st = state();
    let buyer = actor(5);
    let seller = actor(6);
    st.deposit(&buyer, Asset::Quote, u(100)).unwrap();
    st.deposit(&seller, Asset::Base, u(3)).unwrap();
    // 3 at 1.5 locks ceil(4.5) = 5
    st.submit_order(&buyer, Side::Buy, OrderKind::Limit, U256::from_u128(3 * P / 2), u(3), U256::zero())
        .unwrap();
    assert_eq!(st.balance_of(&buyer).quote, u(95));
    let (_, rep) = st
        .submit_order(&seller, Side::Sell, OrderKind::Market, U256::zero(), u(3), U256::zero())
        .unwrap();
    // the fill costs floor(4.5) = 4; the leftover 1 goes back to the buyer
    assert_eq!(rep.trades[0].amount_quote, u(4));
    assert_eq!(rep.trades[0].maker_refund_quote, u(1));
    let b = st.balance_of(&buyer);
    assert_eq!(b.quote, u(96));
    assert_eq!(b.base, u(3));
    assert_eq!(st.balance_of(&seller).quote, u(4));
    assert!(st.book.peek_order(1).is_none());
}

#[test]
fn settle_overflow_puts_book_and_balances_back() {
    let mut st = state();
    let seller = actor(5);
    let buyer = actor(6);
    let max = U256 { w0: u64::MAX, w1: u64::MAX, w2: u64::MAX, w3: u64::MAX };
    st.deposit(&seller, Asset::Base, u(5)).unwrap();
    st.deposit(&seller, Asset::Quote, max).unwrap();
    st.deposit(&buyer, Asset::Quote, u(100)).unwrap();
    st.submit_order(&seller, Side::Sell, OrderKind::Limit, U256::from_u128(P), u(5), U256::zero())
        .unwrap();

    let err = st
        .submit_order(&buyer, Side::Buy, OrderKind::Limit, U256::from_u128(P), u(5), U256::zero())
        .unwrap_err();
    assert_eq!(err, SubmitError::Settle(LedgerError::Overflow));
    let b = st.balance_of(&buyer);
    assert_eq!(b.quote, u(100));
    assert_eq!(b.quote_locked, U256::zero());
    assert_eq!(b.base, U256::zero());
    assert_eq!(st.book.peek_order(1).unwrap().remaining_base, u(5));
    assert_eq!(st.book.best_price(Side::Buy), None);
}
