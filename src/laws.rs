use vstd::prelude::*;

use crate::arena::{Arena, Index};
use crate::book::{better, ladder_ok, next_price_spec, Book};
use crate::math::quote_floor;
use crate::engine::{crosses_spec, fills, min_nat, sum, trade_bases, trade_of, trade_quotes};
use crate::ledger::{
    apply_trade, apply_trades, credit, finish, lock_spec, paid_asset, settle_spec, spend_locked, taker_lock, unlock_spec, Asset,
    LedgerView,
};
use crate::book::maker_of;
use crate::engine::exec_ok;
use crate::ledger::{held_amount, held_asset};
use crate::types::{Completion, EngineLimits, IncomingOrder, MakerView, OrderKind, RestingOrder, Side, Trade};
use crate::u256::{fits_u256, U256};

verus! {

/// Every price level of a well-formed book holds at least one maker, and every maker has base
/// left.
pub proof fn lemma_no_empty_levels<B: Book>(book: &B, side: Side)
    requires
        book.wf(),
    ensures
        forall|li: int|
            0 <= li < book.levels(side).len() ==> (#[trigger] book.levels(side)[li]).len() > 0
                && book.levels(side)[li][0].remaining_base.value() > 0,
{
    book.lemma_wf();
    let lv = book.levels(side);
    assert(ladder_ok(side, lv, book.handles(side))) by {
        match side {
            Side::Buy => {},
            Side::Sell => {},
        }
    }
    assert forall|li: int| 0 <= li < lv.len() implies (#[trigger] lv[li]).len() > 0 && lv[li][0].remaining_base.value() > 0 by {
        assert(lv[li].len() > 0);
        assert(lv[li][0].remaining_base.value() > 0);
    }
}

/// The best price of a side is the lowest ask or the highest bid of the whole ladder.
pub proof fn lemma_best_is_extreme<B: Book>(book: &B, side: Side)
    requires
        book.wf(),
        book.levels(side).len() > 0,
    ensures
        forall|li: int, k: int|
            0 <= li < book.levels(side).len() && 0 <= k < book.levels(side)[li].len() ==> match side {
                Side::Sell => book.levels(side)[0][0].price.value() <= (
                #[trigger] book.levels(side)[li][k]).price.value(),
                Side::Buy => book.levels(side)[0][0].price.value() >= book.levels(side)[li][k].price.value(),
            },
{
    book.lemma_wf();
    let lv = book.levels(side);
    assert(ladder_ok(side, lv, book.handles(side))) by {
        match side {
            Side::Buy => {},
            Side::Sell => {},
        }
    }
    assert forall|li: int, k: int| 0 <= li < lv.len() && 0 <= k < lv[li].len() implies match side {
        Side::Sell => lv[0][0].price.value() <= (#[trigger] lv[li][k]).price.value(),
        Side::Buy => lv[0][0].price.value() >= lv[li][k].price.value(),
    } by {
        assert(lv[li][k].price == lv[li][0].price);
        if li > 0 {
            assert(better(side, lv[0][0].price, lv[li][0].price));
        }
    }
}

/// The next price strictly advances towards worse prices.
pub proof fn lemma_next_price_advances(levels: Seq<Seq<MakerView>>, side: Side, price: U256)
    ensures
        next_price_spec(levels, side, price) matches Some(p) ==> better(side, price, p),
    decreases levels.len(),
{
    if levels.len() > 0 && !better(side, price, levels[0][0].price) {
        lemma_next_price_advances(levels.drop_first(), side, price);
    }
}

/// Every fill of an order that is not a Market order is at a maker price that crosses its
/// limit.
pub proof fn lemma_fills_cross(ms: Seq<MakerView>, o: IncomingOrder, rem: nat)
    ensures
        fills(ms, o, rem).len() <= ms.len(),
        forall|i: int|
            0 <= i < fills(ms, o, rem).len() ==> (o.kind != OrderKind::Market ==> crosses_spec(
                o.side,
                o.limit_price,
                #[trigger] ms[i].price,
            )),
    decreases ms.len(),
{
    reveal(fills);
    if !(rem == 0 || ms.len() == 0 || (o.kind != OrderKind::Market && !crosses_spec(o.side, o.limit_price, ms[0].price))) {
        let f = min_nat(rem, ms[0].remaining_base.value());
        let tail = fills(ms.drop_first(), o, (rem - f) as nat);
        assert(fills(ms, o, rem) == seq![f] + tail);
        lemma_fills_cross(ms.drop_first(), o, (rem - f) as nat);
        assert forall|i: int| 0 <= i < fills(ms, o, rem).len() implies (o.kind != OrderKind::Market ==> crosses_spec(
            o.side,
            o.limit_price,
            #[trigger] ms[i].price,
        )) by {
            if i > 0 {
                assert(ms.drop_first()[i - 1] == ms[i]);
            }
        }
    }
}

/// Taker price bound: every trade of a non-Market taker is at a price no worse than its limit.
pub proof fn lemma_taker_price_bound(ms: Seq<MakerView>, o: IncomingOrder, trades: Seq<Trade>)
    requires
        trades.len() == fills(ms, o, o.amount_base.value()).len(),
        forall|i: int|
            0 <= i < trades.len() ==> trade_of(
                #[trigger] trades[i],
                ms[i],
                o,
                fills(ms, o, o.amount_base.value())[i],
            ),
        o.kind != OrderKind::Market,
    ensures
        forall|i: int|
            0 <= i < trades.len() ==> match o.side {
                Side::Buy => (#[trigger] trades[i]).price.value() <= o.limit_price.value(),
                Side::Sell => trades[i].price.value() >= o.limit_price.value(),
            },
{
    lemma_fills_cross(ms, o, o.amount_base.value());
    assert forall|i: int| 0 <= i < trades.len() implies match o.side {
        Side::Buy => (#[trigger] trades[i]).price.value() <= o.limit_price.value(),
        Side::Sell => trades[i].price.value() >= o.limit_price.value(),
    } by {
        assert(trade_of(trades[i], ms[i], o, fills(ms, o, o.amount_base.value())[i]));
        assert(crosses_spec(o.side, o.limit_price, ms[i].price));
    }
}

/// Entry `i` of a flattened ladder comes from level `l`, position `k`, for some `l` and `k`.
proof fn lemma_flatten_entry(levels: Seq<Seq<MakerView>>, i: int) -> (r: (int, int))
    requires
        0 <= i < levels.flatten().len(),
    ensures
        0 <= r.0 < levels.len(),
        0 <= r.1 < levels[r.0].len(),
        levels.flatten()[i] == levels[r.0][r.1],
    decreases levels.len(),
{
    let first = levels[0];
    let rest = levels.drop_first();
    assert(levels.flatten() == first + rest.flatten());
    if i < first.len() {
        (0, i)
    } else {
        let r = lemma_flatten_entry(rest, i - first.len());
        assert(rest[r.0] == levels[r.0 + 1]);
        (r.0 + 1, r.1)
    }
}

/// Positions in a flattened ladder are in rank order: a later maker never ranks ahead of an
/// earlier one.
proof fn lemma_flatten_ordered(side: Side, levels: Seq<Seq<MakerView>>, handles: Seq<Seq<Index>>, i: int, j: int)
    requires
        ladder_ok(side, levels, handles),
        0 <= i < j < levels.flatten().len(),
    ensures
        !better(side, levels.flatten()[j].price, levels.flatten()[i].price),
    decreases levels.len(),
{
    let first = levels[0];
    let rest = levels.drop_first();
    let hrest = handles.drop_first();
    assert(levels.flatten() == first + rest.flatten());
    if j < first.len() {
        assert(levels.flatten()[i] == first[i]);
        assert(levels.flatten()[j] == first[j]);
    } else if i < first.len() {
        let r = lemma_flatten_entry(rest, j - first.len());
        assert(rest[r.0] == levels[r.0 + 1]);
        assert(levels.flatten()[i] == first[i]);
        assert(better(side, levels[0][0].price, levels[r.0 + 1][0].price));
        assert(levels[r.0 + 1][r.1].price == levels[r.0 + 1][0].price);
    } else {
        assert(ladder_ok(side, rest, hrest)) by {
            assert forall|li: int| 0 <= li < rest.len() implies (#[trigger] rest[li]).len() > 0 && rest[li].len()
                == hrest[li].len() by {
                assert(rest[li] == levels[li + 1]);
            }
            assert forall|li: int, k: int| 0 <= li < rest.len() && 0 <= k < rest[li].len() implies {
                let m = #[trigger] rest[li][k];
                &&& m.side == side
                &&& m.price == rest[li][0].price
                &&& m.remaining_base.value() > 0
            } by {
                assert(rest[li] == levels[li + 1]);
            }
            assert forall|a: int, b: int| 0 <= a < b < rest.len() implies better(side, rest[a][0].price, rest[b][0].price) by {
                assert(rest[a] == levels[a + 1]);
                assert(rest[b] == levels[b + 1]);
            }
            assert forall|l1: int, k1: int, l2: int, k2: int|
                crate::book::at(hrest, l1, k1) && crate::book::at(hrest, l2, k2) && (l1 != l2 || k1 != k2) implies (
                #[trigger] hrest[l1][k1])@ != (#[trigger] hrest[l2][k2])@ by {
                assert(hrest[l1] == handles[l1 + 1]);
                assert(hrest[l2] == handles[l2 + 1]);
                assert(crate::book::at(handles, l1 + 1, k1));
                assert(crate::book::at(handles, l2 + 1, k2));
            }
        }
        lemma_flatten_ordered(side, rest, hrest, i - first.len(), j - first.len());
        assert(levels.flatten()[i] == rest.flatten()[i - first.len()]);
        assert(levels.flatten()[j] == rest.flatten()[j - first.len()]);
    }
}

/// Price-time priority: the trades of one execution follow the opposite ladder from its best
/// maker, level by level and oldest first within a level, so their prices never improve for the
/// taker.
pub proof fn lemma_price_priority(levels: Seq<Seq<MakerView>>, handles: Seq<Seq<Index>>, o: IncomingOrder, trades: Seq<Trade>)
    requires
        ladder_ok(o.side.opposite_spec(), levels, handles),
        trades.len() == fills(levels.flatten(), o, o.amount_base.value()).len(),
        forall|i: int|
            0 <= i < trades.len() ==> trade_of(
                #[trigger] trades[i],
                levels.flatten()[i],
                o,
                fills(levels.flatten(), o, o.amount_base.value())[i],
            ),
    ensures
        forall|i: int| 0 <= i < trades.len() ==> (#[trigger] trades[i]).maker_order_id == levels.flatten()[i].id,
        forall|i: int, j: int|
            0 <= i < j < trades.len() ==> match o.side {
                Side::Buy => (#[trigger] trades[i]).price.value() <= (#[trigger] trades[j]).price.value(),
                Side::Sell => trades[i].price.value() >= trades[j].price.value(),
            },
{
    let ms = levels.flatten();
    lemma_fills_cross(ms, o, o.amount_base.value());
    assert forall|i: int, j: int| 0 <= i < j < trades.len() implies match o.side {
        Side::Buy => (#[trigger] trades[i]).price.value() <= (#[trigger] trades[j]).price.value(),
        Side::Sell => trades[i].price.value() >= trades[j].price.value(),
    } by {
        assert(trade_of(trades[i], ms[i], o, fills(ms, o, o.amount_base.value())[i]));
        assert(trade_of(trades[j], ms[j], o, fills(ms, o, o.amount_base.value())[j]));
        lemma_flatten_ordered(o.side.opposite_spec(), levels, handles, i, j);
    }
}

/// Value moves, it is not made: in one trade between two accounts, what the taker pays leaves its
/// locked balance and reaches the maker's free balance, and what the taker receives is what
/// the maker gave up (its base left in the book, or its escrowed quote); the escrow a Buy maker
/// has left when the trade fills it completely goes back to its free balance.
pub proof fn lemma_trade_moves_value(l: LedgerView, side: Side, t: Trade)
    requires
        forall|k: (Seq<u8>, Asset)| #[trigger] l.contains_key(k),
        t.taker@ != t.maker@,
        apply_trade(l, side, t) is Some,
    ensures
        ({
            let l2 = apply_trade(l, side, t)->Some_0;
            let (paid, got, p_amt, g_amt) = match side {
                Side::Buy => (Asset::Quote, Asset::Base, t.amount_quote.value(), t.amount_base.value()),
                Side::Sell => (Asset::Base, Asset::Quote, t.amount_base.value(), t.amount_quote.value()),
            };
            &&& l2[(t.taker@, paid)].1 + p_amt == l[(t.taker@, paid)].1
            &&& l2[(t.taker@, paid)].0 == l[(t.taker@, paid)].0
            &&& l2[(t.maker@, paid)].0 == l[(t.maker@, paid)].0 + p_amt
            &&& l2[(t.maker@, paid)].1 == l[(t.maker@, paid)].1
            &&& l2[(t.taker@, got)].0 == l[(t.taker@, got)].0 + g_amt
            &&& l2[(t.taker@, got)].1 == l[(t.taker@, got)].1
            &&& l2[(t.maker@, got)].0 == l[(t.maker@, got)].0 + match side {
                Side::Buy => 0,
                Side::Sell => t.maker_refund_quote.value(),
            }
            &&& l2[(t.maker@, got)].1 == l[(t.maker@, got)].1
            &&& forall|w: Seq<u8>, a: Asset| w != t.taker@ && w != t.maker@ ==> #[trigger] l2[(w, a)] == l[(w, a)]
        }),
{
    let tk = t.taker@;
    let mk = t.maker@;
    match side {
        Side::Buy => {
            let l1 = spend_locked(l, tk, Asset::Quote, t.amount_quote.value())->Some_0;
            assert(spend_locked(l, tk, Asset::Quote, t.amount_quote.value()) is Some);
            let c1 = credit(l1, tk, Asset::Base, t.amount_base.value());
            assert(c1 is Some);
            let c2 = credit(c1->Some_0, mk, Asset::Quote, t.amount_quote.value());
            assert(c2 is Some);
            assert(apply_trade(l, side, t) == c2);
        },
        Side::Sell => {
            let l1 = spend_locked(l, tk, Asset::Base, t.amount_base.value())->Some_0;
            assert(spend_locked(l, tk, Asset::Base, t.amount_base.value()) is Some);
            let c1 = credit(l1, tk, Asset::Quote, t.amount_quote.value());
            assert(c1 is Some);
            let c2 = credit(c1->Some_0, mk, Asset::Base, t.amount_base.value());
            assert(c2 is Some);
            let c3 = credit(c2->Some_0, mk, Asset::Quote, t.maker_refund_quote.value());
            assert(c3 is Some);
            assert(apply_trade(l, side, t) == c3);
        },
    }
}

/// What a taker on `side` pays in trade `t`.
pub open spec fn paid_in(side: Side, t: Trade) -> nat {
    match side {
        Side::Buy => t.amount_quote.value(),
        Side::Sell => t.amount_base.value(),
    }
}

pub open spec fn total_paid(side: Side, ts: Seq<Trade>) -> nat
    decreases ts.len(),
{
    if ts.len() == 0 {
        0
    } else {
        total_paid(side, ts.drop_last()) + paid_in(side, ts.last())
    }
}

/// Applying trades of one taker takes exactly what it paid out of its locked balance.
proof fn lemma_trades_spend_locked(l: LedgerView, side: Side, ts: Seq<Trade>, who: Seq<u8>)
    requires
        forall|i: int| 0 <= i < ts.len() ==> (#[trigger] ts[i]).taker@ == who,
        apply_trades(l, side, ts) is Some,
    ensures
        apply_trades(l, side, ts)->Some_0[(who, paid_asset(side))].1 + total_paid(side, ts) == l[(who, paid_asset(side))].1,
    decreases ts.len(),
{
    if ts.len() > 0 {
        let init = ts.drop_last();
        assert forall|i: int| 0 <= i < init.len() implies (#[trigger] init[i]).taker@ == who by {
            assert(init[i] == ts[i]);
        }
        let prev = apply_trades(l, side, init);
        if prev is None {
            assert(apply_trades(l, side, ts) is None);
        }
        lemma_trades_spend_locked(l, side, init, who);
        let l1 = prev->Some_0;
        let t = ts.last();
        assert(t == ts[ts.len() - 1]);
        match side {
            Side::Buy => {
                let a = spend_locked(l1, who, Asset::Quote, t.amount_quote.value());
                assert(a is Some);
                let c1 = credit(a->Some_0, who, Asset::Base, t.amount_base.value());
                assert(c1 is Some);
                let c2 = credit(c1->Some_0, t.maker@, Asset::Quote, t.amount_quote.value());
                assert(c2 is Some);
                assert(apply_trade(l1, side, t) == c2);
            },
            Side::Sell => {
                let a = spend_locked(l1, who, Asset::Base, t.amount_base.value());
                assert(a is Some);
                let c1 = credit(a->Some_0, who, Asset::Quote, t.amount_quote.value());
                assert(c1 is Some);
                let c2 = credit(c1->Some_0, t.maker@, Asset::Base, t.amount_base.value());
                assert(c2 is Some);
                let c3 = credit(c2->Some_0, t.maker@, Asset::Quote, t.maker_refund_quote.value());
                assert(c3 is Some);
                assert(apply_trade(l1, side, t) == c3);
            },
        }
    }
}

proof fn lemma_total_paid_quotes(ts: Seq<Trade>)
    ensures
        total_paid(Side::Buy, ts) == sum(trade_quotes(ts)),
    decreases ts.len(),
{
    if ts.len() > 0 {
        lemma_total_paid_quotes(ts.drop_last());
        assert(trade_quotes(ts).drop_last() =~= trade_quotes(ts.drop_last()));
    }
}

proof fn lemma_total_paid_bases(ts: Seq<Trade>)
    ensures
        total_paid(Side::Sell, ts) == sum(trade_bases(ts)),
    decreases ts.len(),
{
    if ts.len() > 0 {
        lemma_total_paid_bases(ts.drop_last());
        assert(trade_bases(ts).drop_last() =~= trade_bases(ts.drop_last()));
    }
}

/// Nothing stays stuck in the taker's locked balance: once an execution is settled, the locked
/// balance of the asset the taker pays with is back where it was before the order's lock.
/// Everything that was locked has been paid to makers, handed to the resting remainder, or
/// released to the taker's free balance.
pub proof fn lemma_settle_releases_lock(l: LedgerView, o: IncomingOrder, trades: Seq<Trade>, c: Completion)
    requires
        forall|k: (Seq<u8>, Asset)| #[trigger] l.contains_key(k) && fits_u256(l[k].0) && fits_u256(l[k].1),
        forall|i: int| 0 <= i < trades.len() ==> (#[trigger] trades[i]).taker@ == o.owner@,
        c == Completion::Rejected ==> trades.len() == 0,
        o.side == Side::Sell ==> match c {
            Completion::Filled => sum(trade_bases(trades)) == o.amount_base.value(),
            Completion::Cancelled { remaining_base } => sum(trade_bases(trades)) + remaining_base.value()
                == o.amount_base.value(),
            Completion::Placed { remaining_base, remaining_quote } => sum(trade_bases(trades))
                + remaining_base.value() == o.amount_base.value(),
            Completion::Rejected => true,
        },
        lock_spec(l, o.owner@, paid_asset(o.side), taker_lock(o).0 + taker_lock(o).1) is Some,
        settle_spec(
            lock_spec(l, o.owner@, paid_asset(o.side), taker_lock(o).0 + taker_lock(o).1)->Some_0,
            o,
            trades,
            c,
            taker_lock(o).0,
            taker_lock(o).1,
        ) is Some,
    ensures
        settle_spec(
            lock_spec(l, o.owner@, paid_asset(o.side), taker_lock(o).0 + taker_lock(o).1)->Some_0,
            o,
            trades,
            c,
            taker_lock(o).0,
            taker_lock(o).1,
        )->Some_0[(o.owner@, paid_asset(o.side))].1 == l[(o.owner@, paid_asset(o.side))].1,
{
    let who = o.owner@;
    let a = paid_asset(o.side);
    let (lb, lq) = taker_lock(o);
    let l1 = lock_spec(l, who, a, lb + lq)->Some_0;
    assert(l.contains_key((who, a)));
    assert(l1[(who, a)].1 == l[(who, a)].1 + lb + lq);
    let at = apply_trades(l1, o.side, trades);
    assert(at is Some);
    lemma_trades_spend_locked(l1, o.side, trades, who);
    lemma_total_paid_quotes(trades);
    lemma_total_paid_bases(trades);
    let l2 = at->Some_0;
    let f = finish(l2, o, c, trades, lb, lq);
    assert(f is Some);
    assert(trades.len() == 0 ==> apply_trades(l1, o.side, trades) == Some(l1));
}

/// A Buy maker's escrow is paid out whole when it is filled completely: what it pays the taker
/// and what it gets back add up to what it held.
pub proof fn lemma_escrow_paid_out(t: Trade, m: MakerView, o: IncomingOrder, f: nat)
    requires
        trade_of(t, m, o, f),
        m.side == Side::Buy,
        f == m.remaining_base.value(),
        m.reserved_quote.value() >= quote_floor(f, m.price.value()),
    ensures
        t.amount_quote.value() + t.maker_refund_quote.value() == m.reserved_quote.value(),
{
}

/// A rejected fill-or-kill order gives back exactly what was locked for it: the ledger is as it
/// was before the lock.
pub proof fn lemma_rejected_restores(l: LedgerView, o: IncomingOrder)
    requires
        forall|k: (Seq<u8>, Asset)| #[trigger] l.contains_key(k) && fits_u256(l[k].0) && fits_u256(l[k].1),
        lock_spec(l, o.owner@, paid_asset(o.side), taker_lock(o).0 + taker_lock(o).1) is Some,
    ensures
        settle_spec(
            lock_spec(l, o.owner@, paid_asset(o.side), taker_lock(o).0 + taker_lock(o).1)->Some_0,
            o,
            Seq::empty(),
            Completion::Rejected,
            taker_lock(o).0,
            taker_lock(o).1,
        ) == Some(l),
{
    let who = o.owner@;
    let (lb, lq) = taker_lock(o);
    let l1 = lock_spec(l, who, paid_asset(o.side), lb + lq)->Some_0;
    assert(l.contains_key((who, Asset::Base)));
    assert(l.contains_key((who, Asset::Quote)));
    assert(apply_trades(l1, o.side, Seq::<Trade>::empty()) == Some(l1));
    let u1 = unlock_spec(l1, who, Asset::Base, lb);
    assert(u1 is Some);
    let l2 = u1->Some_0;
    let u2 = unlock_spec(l2, who, Asset::Quote, lq);
    assert(u2 is Some);
    assert(u2->Some_0 =~= l);
    assert(finish(l1, o, Completion::Rejected, Seq::empty(), lb, lq) == u2);
}

/// A Limit order that rested without trading and is then cancelled, with its resting amount
/// credited back, leaves its owner's balances as they were before it was submitted.
pub proof fn lemma_cancel_round_trip(l: LedgerView, o: IncomingOrder, remaining_quote: U256)
    requires
        forall|k: (Seq<u8>, Asset)| #[trigger] l.contains_key(k) && fits_u256(l[k].0) && fits_u256(l[k].1),
        o.kind == OrderKind::Limit,
        lock_spec(l, o.owner@, paid_asset(o.side), taker_lock(o).0 + taker_lock(o).1) is Some,
        remaining_quote.value() == taker_lock(o).1,
    ensures
        ({
            let l1 = lock_spec(l, o.owner@, paid_asset(o.side), taker_lock(o).0 + taker_lock(o).1)->Some_0;
            let l2 = settle_spec(
                l1,
                o,
                Seq::empty(),
                Completion::Placed { remaining_base: o.amount_base, remaining_quote },
                taker_lock(o).0,
                taker_lock(o).1,
            );
            let refund = match o.side {
                Side::Buy => remaining_quote.value(),
                Side::Sell => o.amount_base.value(),
            };
            &&& l2 is Some
            &&& credit(l2->Some_0, o.owner@, paid_asset(o.side), refund) == Some(l)
        }),
{
    let who = o.owner@;
    let a = paid_asset(o.side);
    let (lb, lq) = taker_lock(o);
    assert(l.contains_key((who, a)));
    let l1 = lock_spec(l, who, a, lb + lq)->Some_0;
    assert(apply_trades(l1, o.side, Seq::<Trade>::empty()) == Some(l1));
    assert(sum(trade_quotes(Seq::<Trade>::empty())) == 0) by {
        assert(trade_quotes(Seq::<Trade>::empty()) =~= Seq::<nat>::empty());
    }
    let c = Completion::Placed { remaining_base: o.amount_base, remaining_quote };
    let refund = match o.side {
        Side::Buy => remaining_quote.value(),
        Side::Sell => o.amount_base.value(),
    };
    match o.side {
        Side::Sell => {
            let s1 = spend_locked(l1, who, Asset::Base, o.amount_base.value());
            assert(s1 is Some);
            assert(finish(l1, o, c, Seq::empty(), lb, lq) == s1);
            let l2 = s1->Some_0;
            let c1 = credit(l2, who, a, refund);
            assert(c1 is Some);
            assert(c1->Some_0 =~= l);
        },
        Side::Buy => {
            let q = remaining_quote.value();
            let s1 = spend_locked(l1, who, Asset::Quote, q);
            assert(s1 is Some);
            let l2 = s1->Some_0;
            let u1 = unlock_spec(l2, who, Asset::Quote, 0);
            assert(u1 is Some);
            assert(u1->Some_0 =~= l2);
            assert(finish(l1, o, c, Seq::empty(), lb, lq) == u1);
            let c1 = credit(l2, who, a, refund);
            assert(c1 is Some);
            assert(c1->Some_0 =~= l);
        },
    }
}

/// The free list of a well-formed arena holds free slots only, each once, and every free slot;
/// `insert` takes its head and `remove` pushes onto it.
pub proof fn lemma_free_list_integrity<T>(a: &Arena<T>)
    requires
        a.wf(),
    ensures
        a.free_list().no_duplicates(),
        forall|k: int| 0 <= k < a.free_list().len() ==> !a@.contains_key(#[trigger] a.free_list()[k]),
        forall|k: int| 0 <= k < a.free_list().len() ==> #[trigger] a.free_list()[k] < a.slot_count(),
        forall|i: nat| i < a.slot_count() && !a@.contains_key(i) ==> a.free_list().contains(i),
{
    a.lemma_wf_facts();
}

/// Fill-or-kill atomicity: a submission that the engine rejects leaves both ladders as they
/// were and, once settled, gives back exactly what was locked for it.
pub proof fn lemma_fok_rejection_changes_nothing(
    l: LedgerView,
    o: IncomingOrder,
    limits: EngineLimits,
    old_opp: Seq<Seq<MakerView>>,
    old_own: Seq<Seq<MakerView>>,
    new_opp: Seq<Seq<MakerView>>,
    new_own: Seq<Seq<MakerView>>,
    trades: Seq<Trade>,
)
    requires
        forall|k: (Seq<u8>, Asset)| #[trigger] l.contains_key(k) && fits_u256(l[k].0) && fits_u256(l[k].1),
        lock_spec(l, o.owner@, paid_asset(o.side), taker_lock(o).0 + taker_lock(o).1) is Some,
        exec_ok(o, limits, old_opp, old_own, new_opp, new_own, trades, Completion::Rejected),
    ensures
        o.kind == OrderKind::FillOrKill,
        trades.len() == 0,
        new_opp == old_opp,
        new_own == old_own,
        settle_spec(
            lock_spec(l, o.owner@, paid_asset(o.side), taker_lock(o).0 + taker_lock(o).1)->Some_0,
            o,
            trades,
            Completion::Rejected,
            taker_lock(o).0,
            taker_lock(o).1,
        ) == Some(l),
{
    assert(trades =~= Seq::<Trade>::empty());
    lemma_rejected_restores(l, o);
}

/// Cancel round trip: a Limit order that rests without trading, and is then cancelled with what
/// it holds credited back to its owner, leaves the owner's balances as they were before it was
/// submitted.
pub proof fn lemma_submit_cancel_round_trip(
    l: LedgerView,
    o: IncomingOrder,
    limits: EngineLimits,
    old_opp: Seq<Seq<MakerView>>,
    old_own: Seq<Seq<MakerView>>,
    new_opp: Seq<Seq<MakerView>>,
    new_own: Seq<Seq<MakerView>>,
    c: Completion,
)
    requires
        forall|k: (Seq<u8>, Asset)| #[trigger] l.contains_key(k) && fits_u256(l[k].0) && fits_u256(l[k].1),
        o.kind == OrderKind::Limit,
        lock_spec(l, o.owner@, paid_asset(o.side), taker_lock(o).0 + taker_lock(o).1) is Some,
        exec_ok(o, limits, old_opp, old_own, new_opp, new_own, Seq::empty(), c),
        fills(old_opp.flatten(), o, o.amount_base.value()).len() == 0,
    ensures
        c is Placed,
        ({
            let m = maker_of(RestingOrder {
                id: o.id,
                owner: o.owner,
                side: o.side,
                price: o.limit_price,
                remaining_base: c->Placed_remaining_base,
                remaining_quote: c->Placed_remaining_quote,
            });
            let l1 = lock_spec(l, o.owner@, paid_asset(o.side), taker_lock(o).0 + taker_lock(o).1)->Some_0;
            let l2 = settle_spec(l1, o, Seq::empty(), c, taker_lock(o).0, taker_lock(o).1);
            &&& l2 is Some
            &&& credit(l2->Some_0, o.owner@, held_asset(o.side), held_amount(m)) == Some(l)
        }),
{
    let fs = fills(old_opp.flatten(), o, o.amount_base.value());
    assert(fs =~= Seq::<nat>::empty());
    assert(sum(fs) == 0);
    assert(sum(trade_quotes(Seq::<Trade>::empty())) == 0) by {
        assert(trade_quotes(Seq::<Trade>::empty()) =~= Seq::<nat>::empty());
    }
    let rq = c->Placed_remaining_quote;
    assert(c == Completion::Placed { remaining_base: o.amount_base, remaining_quote: rq }) by {
        crate::u256::lemma_value_injective(c->Placed_remaining_base, o.amount_base);
    }
    lemma_cancel_round_trip(l, o, rq);
}

/// What the two accounts of a trade hold of `a`, free and locked, plus what the maker holds of
/// `a` in the book (`held`).
pub open spec fn pair_total(l: LedgerView, taker: Seq<u8>, maker: Seq<u8>, a: Asset, held: nat) -> nat {
    l[(taker, a)].0 + l[(taker, a)].1 + l[(maker, a)].0 + l[(maker, a)].1 + held
}

/// Value conservation for one trade: for each asset, the free and locked balances of taker and
/// maker plus what the maker holds in the book are the same before and after the trade is
/// matched and settled.
pub proof fn lemma_trade_conserves(l: LedgerView, o: IncomingOrder, m: MakerView, f: nat, t: Trade)
    requires
        forall|k: (Seq<u8>, Asset)| #[trigger] l.contains_key(k),
        t.taker@ != t.maker@,
        trade_of(t, m, o, f),
        m.side == o.side.opposite_spec(),
        0 < f <= m.remaining_base.value(),
        m.side == Side::Buy ==> m.reserved_quote.value() >= quote_floor(f, m.price.value()),
        apply_trade(l, o.side, t) is Some,
    ensures
        ({
            let l2 = apply_trade(l, o.side, t)->Some_0;
            let q = quote_floor(f, m.price.value());
            let full = f == m.remaining_base.value();
            let (base_before, base_after, quote_before, quote_after) = match m.side {
                Side::Sell => (m.remaining_base.value(), (m.remaining_base.value() - f) as nat, 0nat, 0nat),
                Side::Buy => (
                    0nat,
                    0nat,
                    m.reserved_quote.value(),
                    if full { 0nat } else { (m.reserved_quote.value() - q) as nat },
                ),
            };
            &&& pair_total(l2, t.taker@, t.maker@, Asset::Base, base_after) == pair_total(
                l,
                t.taker@,
                t.maker@,
                Asset::Base,
                base_before,
            )
            &&& pair_total(l2, t.taker@, t.maker@, Asset::Quote, quote_after) == pair_total(
                l,
                t.taker@,
                t.maker@,
                Asset::Quote,
                quote_before,
            )
        }),
{
    lemma_trade_moves_value(l, o.side, t);
}

/// What account `w` holds of `a`, free and locked.
pub open spec fn held_total(l: LedgerView, w: Seq<u8>, a: Asset) -> nat {
    l[(w, a)].0 + l[(w, a)].1
}

/// The asset a taker on `side` receives.
pub open spec fn got_asset(side: Side) -> Asset {
    match side {
        Side::Buy => Asset::Base,
        Side::Sell => Asset::Quote,
    }
}

pub open spec fn got_in(side: Side, t: Trade) -> nat {
    match side {
        Side::Buy => t.amount_base.value(),
        Side::Sell => t.amount_quote.value(),
    }
}

pub open spec fn total_got(side: Side, ts: Seq<Trade>) -> nat
    decreases ts.len(),
{
    if ts.len() == 0 {
        0
    } else {
        total_got(side, ts.drop_last()) + got_in(side, ts.last())
    }
}

/// What a completed order hands to the book: its resting remainder's holding.
pub open spec fn to_book(side: Side, c: Completion) -> nat {
    match c {
        Completion::Placed { remaining_base, remaining_quote } => match side {
            Side::Buy => remaining_quote.value(),
            Side::Sell => remaining_base.value(),
        },
        _ => 0,
    }
}

proof fn lemma_trades_taker_totals(l: LedgerView, side: Side, ts: Seq<Trade>, who: Seq<u8>)
    requires
        forall|i: int| 0 <= i < ts.len() ==> (#[trigger] ts[i]).taker@ == who && ts[i].maker@ != who,
        apply_trades(l, side, ts) is Some,
    ensures
        held_total(apply_trades(l, side, ts)->Some_0, who, paid_asset(side)) + total_paid(side, ts) == held_total(
            l,
            who,
            paid_asset(side),
        ),
        held_total(apply_trades(l, side, ts)->Some_0, who, got_asset(side)) == held_total(l, who, got_asset(side))
            + total_got(side, ts),
    decreases ts.len(),
{
    if ts.len() > 0 {
        let init = ts.drop_last();
        assert forall|i: int| 0 <= i < init.len() implies (#[trigger] init[i]).taker@ == who && init[i].maker@ != who by {
            assert(init[i] == ts[i]);
        }
        let prev = apply_trades(l, side, init);
        if prev is None {
            assert(apply_trades(l, side, ts) is None);
        }
        lemma_trades_taker_totals(l, side, init, who);
        let l1 = prev->Some_0;
        let t = ts.last();
        assert(t == ts[ts.len() - 1]);
        match side {
            Side::Buy => {
                let a = spend_locked(l1, who, Asset::Quote, t.amount_quote.value());
                assert(a is Some);
                let c1 = credit(a->Some_0, who, Asset::Base, t.amount_base.value());
                assert(c1 is Some);
                let c2 = credit(c1->Some_0, t.maker@, Asset::Quote, t.amount_quote.value());
                assert(c2 is Some);
                assert(apply_trade(l1, side, t) == c2);
            },
            Side::Sell => {
                let a = spend_locked(l1, who, Asset::Base, t.amount_base.value());
                assert(a is Some);
                let c1 = credit(a->Some_0, who, Asset::Quote, t.amount_quote.value());
                assert(c1 is Some);
                let c2 = credit(c1->Some_0, t.maker@, Asset::Base, t.amount_base.value());
                assert(c2 is Some);
                let c3 = credit(c2->Some_0, t.maker@, Asset::Quote, t.maker_refund_quote.value());
                assert(c3 is Some);
                assert(apply_trade(l1, side, t) == c3);
            },
        }
    }
}

/// Value conservation over a whole successful submission, for the taker: what it holds of the
/// asset it pays with drops by exactly what it paid the makers and what it handed to its
/// resting remainder, and what it holds of the asset it buys rises by exactly what the makers
/// gave. With `lemma_trade_conserves` for each maker and the `taken` clause of `execute` for the
/// book, no value is made or lost.
pub proof fn lemma_submit_conserves(l: LedgerView, o: IncomingOrder, trades: Seq<Trade>, c: Completion)
    requires
        forall|k: (Seq<u8>, Asset)| #[trigger] l.contains_key(k),
        forall|i: int| 0 <= i < trades.len() ==> (#[trigger] trades[i]).taker@ == o.owner@ && trades[i].maker@ != o.owner@,
        lock_spec(l, o.owner@, paid_asset(o.side), taker_lock(o).0 + taker_lock(o).1) is Some,
        settle_spec(
            lock_spec(l, o.owner@, paid_asset(o.side), taker_lock(o).0 + taker_lock(o).1)->Some_0,
            o,
            trades,
            c,
            taker_lock(o).0,
            taker_lock(o).1,
        ) is Some,
    ensures
        ({
            let l2 = settle_spec(
                lock_spec(l, o.owner@, paid_asset(o.side), taker_lock(o).0 + taker_lock(o).1)->Some_0,
                o,
                trades,
                c,
                taker_lock(o).0,
                taker_lock(o).1,
            )->Some_0;
            let who = o.owner@;
            &&& held_total(l2, who, paid_asset(o.side)) + total_paid(o.side, trades) + to_book(o.side, c)
                == held_total(l, who, paid_asset(o.side))
            &&& held_total(l2, who, got_asset(o.side)) == held_total(l, who, got_asset(o.side)) + total_got(
                o.side,
                trades,
            )
        }),
{
    let who = o.owner@;
    let a = paid_asset(o.side);
    let (lb, lq) = taker_lock(o);
    let l1 = lock_spec(l, who, a, lb + lq)->Some_0;
    assert(l.contains_key((who, Asset::Base)));
    assert(l.contains_key((who, Asset::Quote)));
    assert(held_total(l1, who, a) == held_total(l, who, a));
    assert(held_total(l1, who, got_asset(o.side)) == held_total(l, who, got_asset(o.side)));
    let at = apply_trades(l1, o.side, trades);
    assert(at is Some);
    lemma_trades_taker_totals(l1, o.side, trades, who);
    let l2 = at->Some_0;
    let f = finish(l2, o, c, trades, lb, lq);
    assert(f is Some);
    match c {
        Completion::Rejected => {
            let u1 = unlock_spec(l2, who, Asset::Base, lb);
            assert(u1 is Some);
            let u2 = unlock_spec(u1->Some_0, who, Asset::Quote, lq);
            assert(u2 is Some);
            assert(f == u2);
        },
        Completion::Cancelled { remaining_base } => {},
        Completion::Filled => {},
        Completion::Placed { remaining_base, remaining_quote } => {
            if o.side == Side::Buy {
                let s1 = spend_locked(l2, who, Asset::Quote, remaining_quote.value());
                assert(s1 is Some);
                let u = unlock_spec(
                    s1->Some_0,
                    who,
                    Asset::Quote,
                    (lq - sum(trade_quotes(trades)) - remaining_quote.value()) as nat,
                );
                assert(u is Some);
                assert(f == u);
            }
        },
    }
}

/// Value conservation for a cancel: what the owner holds of the cancelled order's asset rises
/// by exactly what the order held in the book.
pub proof fn lemma_cancel_conserves(l: LedgerView, l2: LedgerView, who: Seq<u8>, m: MakerView)
    requires
        credit(l, who, held_asset(m.side), held_amount(m)) == Some(l2),
    ensures
        held_total(l2, who, held_asset(m.side)) == held_total(l, who, held_asset(m.side)) + held_amount(m),
        forall|w: Seq<u8>, a: Asset| (w, a) != (who, held_asset(m.side)) ==> #[trigger] l2[(w, a)] == l[(w, a)],
{
}

} // verus!
