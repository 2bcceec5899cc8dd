use clob_core::book::Book;
use clob_core::engine::{execute, preview_fillable, preview_market_buy_budget_strict};
use clob_core::math::{calc_quote_ceil, calc_quote_floor};
use clob_core::orderbook::OrderBook;
use clob_core::types::{
    ActorId, Completion, EngineLimits, IncomingOrder, InvalidOrderReason, MakerView, MatchError,
    OrderKind, Side,
};
use clob_core::u256::U256;

fn u(x: u64) -> U256 {
    U256::from(x)
}

fn maker(id: u64, side: Side, price: u64, base: u64, owner: u64) -> MakerView {
    let reserved_quote = if side == Side::Buy {
        // reserve uses ceil (up)
        calc_quote_ceil(u(base), u(price)).unwrap()
    } else {
        U256::zero()
    };
    MakerView {
        id,
        owner: ActorId::from_u64(owner),
        side,
        price: u(price),
        remaining_base: u(base),
        reserved_quote,
    }
}

fn taker(
    id: u64,
    side: Side,
    kind: OrderKind,
    limit_price: u64,
    base: u64,
    owner: u64,
    max_quote: u64,
) -> IncomingOrder {
    IncomingOrder {
        id,
        owner: ActorId::from_u64(owner),
        side,
        kind,
        limit_price: u(limit_price),
        amount_base: u(base),
        max_quote: u(max_quote),
    }
}

fn maker_remaining_at_head(book: &OrderBook, side: Side, price: u64) -> Option<U256> {
    book.level_head(side, u(price))
        .and_then(|h| book.get_maker(h))
        .map(|m| m.remaining_base)
}

fn level_is_empty(book: &OrderBook, side: Side, price: u64) -> bool {
    book.level_head(side, u(price)).is_none()
}

#[test]
fn limit_no_cross_places_remainder() {
    let mut book = OrderBook::new();
    // best ask = 100
    book.push_maker(maker(1, Side::Sell, 100, 10, 1));

    let limits = EngineLimits {
        max_trades: 100,
        max_preview_scans: 1_000,
    };
    let order = taker(10, Side::Buy, OrderKind::Limit, 90, 7, 9, 0);

    let rep = execute(&mut book, &order, limits).unwrap();
    assert!(rep.trades.is_empty());

    match rep.completion {
        Completion::Placed { remaining_base, .. } => assert_eq!(remaining_base, u(7)),
        x => panic!("unexpected completion: {:?}", x),
    }

    // remainder should appear as resting bid at 90
    assert_eq!(maker_remaining_at_head(&book, Side::Buy, 90), Some(u(7)));
}

#[test]
fn limit_cross_partially_then_place_remainder() {
    let mut book = OrderBook::new();
    book.push_maker(maker(1, Side::Sell, 100, 5, 1));

    let limits = EngineLimits {
        max_trades: 100,
        max_preview_scans: 1_000,
    };
    let order = taker(10, Side::Buy, OrderKind::Limit, 100, 8, 9, 0);

    let rep = execute(&mut book, &order, limits).unwrap();
    assert_eq!(rep.trades.len(), 1);
    assert_eq!(rep.trades[0].price, u(100));
    assert_eq!(rep.trades[0].amount_base, u(5));

    match rep.completion {
        Completion::Placed { remaining_base, .. } => assert_eq!(remaining_base, u(3)),
        x => panic!("unexpected completion: {:?}", x),
    }

    // ask(100) consumed, remainder placed on bid(100)
    assert!(level_is_empty(&book, Side::Sell, 100));
    assert_eq!(maker_remaining_at_head(&book, Side::Buy, 100), Some(u(3)));
}

#[test]
fn ioc_cross_partially_then_cancel_remainder() {
    let mut book = OrderBook::new();
    book.push_maker(maker(1, Side::Sell, 100, 5, 1));

    let limits = EngineLimits {
        max_trades: 100,
        max_preview_scans: 1_000,
    };
    let order = taker(10, Side::Buy, OrderKind::ImmediateOrCancel, 100, 8, 9, 0);

    let rep = execute(&mut book, &order, limits).unwrap();
    assert_eq!(rep.trades.len(), 1);

    match rep.completion {
        Completion::Cancelled { remaining_base } => assert_eq!(remaining_base, u(3)),
        x => panic!("unexpected completion: {:?}", x),
    }

    // no resting order should be inserted
    assert!(level_is_empty(&book, Side::Buy, 100));
}

#[test]
fn market_sell_consumes_best_bids_in_order() {
    let mut book = OrderBook::new();
    book.push_maker(maker(1, Side::Buy, 99, 10, 1));
    book.push_maker(maker(2, Side::Buy, 98, 10, 2));

    let limits = EngineLimits {
        max_trades: 100,
        max_preview_scans: 1_000,
    };
    let order = taker(10, Side::Sell, OrderKind::Market, 0, 15, 9, 0);

    let rep = execute(&mut book, &order, limits).unwrap();
    assert_eq!(rep.trades.len(), 2);

    // first trade at best bid 99
    assert_eq!(rep.trades[0].price, u(99));
    assert_eq!(rep.trades[0].amount_base, u(10));
    // second trade at 98
    assert_eq!(rep.trades[1].price, u(98));
    assert_eq!(rep.trades[1].amount_base, u(5));

    match rep.completion {
        Completion::Filled => {}
        x => panic!("unexpected completion: {:?}", x),
    }

    // bid(99) removed, bid(98) left with 5
    assert!(level_is_empty(&book, Side::Buy, 99));
    assert_eq!(maker_remaining_at_head(&book, Side::Buy, 98), Some(u(5)));
}

#[test]
fn fok_rejects_without_mutating_book() {
    let mut book = OrderBook::new();
    book.push_maker(maker(1, Side::Sell, 100, 5, 1));

    let limits = EngineLimits {
        max_trades: 100,
        max_preview_scans: 10_000,
    };
    let order = taker(10, Side::Buy, OrderKind::FillOrKill, 100, 8, 9, 0);

    let rep = execute(&mut book, &order, limits).unwrap();
    assert!(rep.trades.is_empty());
    assert!(matches!(rep.completion, Completion::Rejected));

    // book unchanged
    assert_eq!(maker_remaining_at_head(&book, Side::Sell, 100), Some(u(5)));
}

#[test]
fn fok_fills_across_levels() {
    let mut book = OrderBook::new();
    book.push_maker(maker(1, Side::Sell, 100, 5, 1));
    book.push_maker(maker(2, Side::Sell, 101, 5, 2));

    let limits = EngineLimits {
        max_trades: 100,
        max_preview_scans: 10_000,
    };
    let order = taker(10, Side::Buy, OrderKind::FillOrKill, 101, 8, 9, 0);

    let rep = execute(&mut book, &order, limits).unwrap();
    assert_eq!(rep.trades.len(), 2);
    assert_eq!(rep.trades[0].price, u(100));
    assert_eq!(rep.trades[0].amount_base, u(5));
    assert_eq!(rep.trades[1].price, u(101));
    assert_eq!(rep.trades[1].amount_base, u(3));

    assert!(matches!(rep.completion, Completion::Filled));

    // ask(100) removed, ask(101) left with 2
    assert!(level_is_empty(&book, Side::Sell, 100));
    assert_eq!(maker_remaining_at_head(&book, Side::Sell, 101), Some(u(2)));
}

#[test]
fn fifo_same_price_consumes_in_order() {
    let mut book = OrderBook::new();
    book.push_maker(maker(1, Side::Sell, 100, 3, 1));
    book.push_maker(maker(2, Side::Sell, 100, 3, 2));

    let limits = EngineLimits {
        max_trades: 100,
        max_preview_scans: 10_000,
    };
    let order = taker(10, Side::Buy, OrderKind::Market, 0, 4, 9, 1_000_000);

    let rep = execute(&mut book, &order, limits).unwrap();
    assert_eq!(rep.trades.len(), 2);

    assert_eq!(rep.trades[0].maker_order_id, 1);
    assert_eq!(rep.trades[0].amount_base, u(3));
    assert_eq!(rep.trades[1].maker_order_id, 2);
    assert_eq!(rep.trades[1].amount_base, u(1));

    // maker(2) now has 2 remaining at same price
    assert_eq!(maker_remaining_at_head(&book, Side::Sell, 100), Some(u(2)));
}

#[test]
fn preview_scan_limit_hits() {
    let mut book = OrderBook::new();
    for i in 0..20u64 {
        book.push_maker(maker(100 + i, Side::Sell, 100, 1, 1));
    }

    let order = taker(10, Side::Buy, OrderKind::FillOrKill, 100, 20, 9, 0);

    let err = preview_fillable(&book, &order, 5).unwrap_err();
    assert!(matches!(err, MatchError::ScanLimitReached { .. }));
}

#[test]
fn quote_is_floor_like_engine() {
    let mut book = OrderBook::new();
    book.push_maker(maker(1, Side::Sell, 123, 10, 1));

    let limits = EngineLimits {
        max_trades: 100,
        max_preview_scans: 1_000,
    };
    let order = taker(10, Side::Buy, OrderKind::Market, 0, 7, 9, 1_000_000);

    let rep = execute(&mut book, &order, limits).unwrap();
    assert_eq!(rep.trades.len(), 1);

    let t = &rep.trades[0];
    let expected = calc_quote_floor(t.amount_base, t.price).unwrap();
    assert_eq!(t.amount_quote, expected);
}

#[test]
fn invalid_zero_amount_is_rejected() {
    let mut book = OrderBook::new();
    let limits = EngineLimits {
        max_trades: 100,
        max_preview_scans: 1_000,
    };

    let order = taker(1, Side::Buy, OrderKind::Market, 0, 0, 9, 1_000_000);
    let err = execute(&mut book, &order, limits).unwrap_err();
    assert!(matches!(err, MatchError::InvalidOrder(_)));
}

#[test]
fn invalid_non_market_zero_limit_price() {
    let mut book = OrderBook::new();
    let limits = EngineLimits {
        max_trades: 100,
        max_preview_scans: 1_000,
    };

    let order = taker(1, Side::Buy, OrderKind::Limit, 0, 10, 9, 0);
    let err = execute(&mut book, &order, limits).unwrap_err();
    assert!(matches!(err, MatchError::InvalidOrder(_)));
}

#[test]
fn limit_buy_does_not_take_worse_than_limit() {
    let mut book = OrderBook::new();
    book.push_maker(maker(1, Side::Sell, 101, 10, 1)); // worse than limit
    book.push_maker(maker(2, Side::Sell, 100, 2, 2)); // equal to limit

    let limits = EngineLimits {
        max_trades: 100,
        max_preview_scans: 1_000,
    };
    let order = taker(10, Side::Buy, OrderKind::Limit, 100, 5, 9, 0);

    let rep = execute(&mut book, &order, limits).unwrap();
    assert_eq!(rep.trades.len(), 1);
    assert_eq!(rep.trades[0].price, u(100));
    assert_eq!(rep.trades[0].amount_base, u(2));

    // ask 101 untouched
    assert_eq!(maker_remaining_at_head(&book, Side::Sell, 101), Some(u(10)));
}

#[test]
fn trade_limit_reached() {
    let mut book = OrderBook::new();
    for i in 0..10u64 {
        book.push_maker(maker(100 + i, Side::Sell, 100, 1, 1));
    }

    let limits = EngineLimits {
        max_trades: 3,
        max_preview_scans: 1_000,
    };
    let order = taker(10, Side::Buy, OrderKind::Market, 0, 10, 9, 1_000_000);

    let err = execute(&mut book, &order, limits).unwrap_err();
    assert!(matches!(err, MatchError::TradeLimitReached { .. }));
}

#[test]
fn trade_prices_monotonic_for_buy() {
    let mut book = OrderBook::new();
    book.push_maker(maker(1, Side::Sell, 100, 3, 1));
    book.push_maker(maker(2, Side::Sell, 101, 3, 2));
    book.push_maker(maker(3, Side::Sell, 102, 3, 3));

    let limits = EngineLimits {
        max_trades: 100,
        max_preview_scans: 1_000,
    };
    let order = taker(10, Side::Buy, OrderKind::Market, 0, 7, 9, 1_000_000);

    let rep = execute(&mut book, &order, limits).unwrap();
    for w in rep.trades.windows(2) {
        assert!(w[0].price.le(&w[1].price));
    }
}

#[test]
fn trade_prices_monotonic_for_sell() {
    let mut book = OrderBook::new();
    book.push_maker(maker(1, Side::Buy, 105, 3, 1));
    book.push_maker(maker(2, Side::Buy, 104, 3, 2));
    book.push_maker(maker(3, Side::Buy, 103, 3, 3));

    let limits = EngineLimits {
        max_trades: 100,
        max_preview_scans: 1_000,
    };
    let order = taker(10, Side::Sell, OrderKind::Market, 0, 7, 9, 0);

    let rep = execute(&mut book, &order, limits).unwrap();
    for w in rep.trades.windows(2) {
        assert!(w[1].price.le(&w[0].price));
    }
}

// Precision-scale prices: 10^30 is one quote atom per base atom.
const P: u128 = 1_000_000_000_000_000_000_000_000_000_000;

fn big(x: u128) -> U256 {
    U256::from_u128(x)
}

fn limits() -> EngineLimits {
    EngineLimits {
        max_trades: 100,
        max_preview_scans: 1_000,
    }
}

#[test]
fn limit_buy_remainder_keeps_ceiling_quote() {
    let mut book = OrderBook::new();
    let mut ask = maker(1, Side::Sell, 0, 5, 1);
    ask.price = big(3 * P / 2);
    book.push_maker(ask);

    let mut order = taker(10, Side::Buy, OrderKind::Limit, 0, 8, 9, 0);
    order.limit_price = big(3 * P / 2);
    let rep = execute(&mut book, &order, limits()).unwrap();
    // 5 at 1.5 costs floor(7.5) = 7; ceil(8 * 1.5) = 12 was locked, so 5 stays reserved.
    assert_eq!(rep.trades.len(), 1);
    assert_eq!(rep.trades[0].amount_quote, u(7));
    assert_eq!(
        rep.completion,
        Completion::Placed {
            remaining_base: u(3),
            remaining_quote: u(5)
        }
    );
    let bid = book.get_maker(book.level_head(Side::Buy, big(3 * P / 2)).unwrap()).unwrap();
    assert_eq!(bid.reserved_quote, u(5));
    assert_eq!(bid.id, 10);
}

#[test]
fn market_buy_budget_exceeded_leaves_book() {
    let mut book = OrderBook::new();
    let mut ask = maker(1, Side::Sell, 0, 10, 1);
    ask.price = big(2 * P);
    book.push_maker(ask);

    let order = taker(10, Side::Buy, OrderKind::Market, 0, 4, 9, 7);
    assert_eq!(
        preview_market_buy_budget_strict(&book, &order, limits()),
        Err(MatchError::MarketBuyMaxQuoteExceeded)
    );
    let err = execute(&mut book, &order, limits()).unwrap_err();
    assert_eq!(err, MatchError::MarketBuyMaxQuoteExceeded);
    assert_eq!(book.peek_order(1).unwrap().remaining_base, u(10));
}

#[test]
fn market_buy_insufficient_liquidity() {
    let mut book = OrderBook::new();
    book.push_maker(maker(1, Side::Sell, 100, 2, 1));
    let order = taker(10, Side::Buy, OrderKind::Market, 0, 4, 9, 1_000);
    let err = execute(&mut book, &order, limits()).unwrap_err();
    assert_eq!(err, MatchError::MarketBuyInsufficientLiquidity);
    assert_eq!(maker_remaining_at_head(&book, Side::Sell, 100), Some(u(2)));
}

#[test]
fn preview_requires_market_buy() {
    let book = OrderBook::new();
    let order = taker(10, Side::Sell, OrderKind::Market, 0, 4, 9, 0);
    assert_eq!(
        preview_market_buy_budget_strict(&book, &order, limits()),
        Err(MatchError::InvalidOrder(
            InvalidOrderReason::PreviewOnlyForMarketBuyBudget
        ))
    );
    let fok = taker(10, Side::Buy, OrderKind::Limit, 100, 4, 9, 0);
    assert_eq!(
        preview_fillable(&book, &fok, 10),
        Err(MatchError::InvalidOrder(InvalidOrderReason::PreviewOnlyForFok))
    );
}

#[test]
fn validation_reasons_in_order() {
    let mut book = OrderBook::new();
    let cases = [
        (
            taker(1, Side::Buy, OrderKind::Market, 0, 5, 9, 0),
            InvalidOrderReason::ZeroMaxQuoteForMarketBuy,
        ),
        (
            taker(1, Side::Sell, OrderKind::Market, 0, 5, 9, 3),
            InvalidOrderReason::MaxQuoteOnlyForMarketBuy,
        ),
        (
            taker(1, Side::Buy, OrderKind::Limit, 10, 5, 9, 3),
            InvalidOrderReason::MaxQuoteOnlyForMarketBuy,
        ),
        (
            taker(1, Side::Sell, OrderKind::ImmediateOrCancel, 0, 5, 9, 0),
            InvalidOrderReason::ZeroLimitPriceForNonMarket,
        ),
        (
            taker(1, Side::Sell, OrderKind::Limit, 10, 0, 9, 0),
            InvalidOrderReason::ZeroAmountBase,
        ),
    ];
    for (order, reason) in cases.iter() {
        assert_eq!(
            execute(&mut book, order, limits()).unwrap_err(),
            MatchError::InvalidOrder(*reason)
        );
    }
}

#[test]
fn sell_limit_crossing_bids_takes_maker_prices() {
    let mut book = OrderBook::new();
    book.push_maker(maker(1, Side::Buy, 105, 2, 1));
    book.push_maker(maker(2, Side::Buy, 100, 2, 2));
    book.push_maker(maker(3, Side::Buy, 95, 2, 3));
    let order = taker(10, Side::Sell, OrderKind::Limit, 100, 5, 9, 0);
    let rep = execute(&mut book, &order, limits()).unwrap();
    assert_eq!(rep.trades.len(), 2);
    assert_eq!(rep.trades[0].price, u(105));
    assert_eq!(rep.trades[1].price, u(100));
    assert_eq!(
        rep.completion,
        Completion::Placed {
            remaining_base: u(1),
            remaining_quote: U256::zero()
        }
    );
    assert_eq!(book.best_price(Side::Sell), Some(u(100)));
    assert_eq!(book.best_price(Side::Buy), Some(u(95)));
}

#[test]
fn cancel_and_peek_by_id() {
    let mut book = OrderBook::new();
    book.push_maker(maker(1, Side::Sell, 100, 3, 1));
    book.push_maker(maker(2, Side::Sell, 100, 4, 2));
    book.push_maker(maker(3, Side::Sell, 110, 5, 3));
    assert_eq!(book.peek_order(2).unwrap().remaining_base, u(4));
    assert_eq!(book.cancel(2).unwrap().id, 2);
    assert!(book.peek_order(2).is_none());
    assert!(book.cancel(2).is_none());
    assert_eq!(book.cancel(1).unwrap().id, 1);
    assert!(level_is_empty(&book, Side::Sell, 100));
    assert_eq!(book.best_price(Side::Sell), Some(u(110)));
    assert_eq!(book.next_price(Side::Sell, u(100)), Some(u(110)));
    assert_eq!(book.next_price(Side::Sell, u(110)), None);
}
