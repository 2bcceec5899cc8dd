use vstd::prelude::*;

use crate::arena::Index;
use crate::book::{
    at, better, head_spec, ladder_ok, lemma_head_skip, lemma_next_price_skip, maker_of, next_price_spec, place,
    remove_at, Book,
};
use crate::math::{calc_quote_ceil, calc_quote_floor, quote_ceil, quote_floor};
use crate::types::{
    OrderId, BookInvariant, Completion, EngineLimits, ExecutionReport, IncomingOrder, InvalidOrderReason,
    MakerView, MatchError, OrderKind, RestingOrder, Side, Trade,
};
use crate::u256::{fits_u256, U256};

verus! {

/// A taker on `taker_side` with limit `limit` accepts a maker at `maker_price`.
pub open spec fn crosses_spec(taker_side: Side, limit: U256, maker_price: U256) -> bool {
    match taker_side {
        Side::Buy => maker_price.value() <= limit.value(),
        Side::Sell => maker_price.value() >= limit.value(),
    }
}

/// Why an incoming order is malformed, checked in this order; `None` for a valid order.
pub open spec fn validation_error(o: IncomingOrder) -> Option<InvalidOrderReason> {
    if o.amount_base.value() == 0 {
        Some(InvalidOrderReason::ZeroAmountBase)
    } else if o.kind != OrderKind::Market && o.limit_price.value() == 0 {
        Some(InvalidOrderReason::ZeroLimitPriceForNonMarket)
    } else if o.kind == OrderKind::Market && o.side == Side::Buy && o.max_quote.value() == 0 {
        Some(InvalidOrderReason::ZeroMaxQuoteForMarketBuy)
    } else if o.kind == OrderKind::Market && o.side == Side::Sell && o.max_quote.value() != 0 {
        Some(InvalidOrderReason::MaxQuoteOnlyForMarketBuy)
    } else if o.kind != OrderKind::Market && o.max_quote.value() != 0 {
        Some(InvalidOrderReason::MaxQuoteOnlyForMarketBuy)
    } else {
        None
    }
}

pub open spec fn min_nat(a: nat, b: nat) -> nat {
    if a <= b {
        a
    } else {
        b
    }
}

/// The makers `levels[li][k..]` followed by every later level.
pub open spec fn tail_from(levels: Seq<Seq<MakerView>>, li: int, k: int) -> Seq<MakerView> {
    levels[li].skip(k) + levels.skip(li + 1).flatten()
}

/// Fill-or-kill preview over the makers `ms` in priority order: whether the crossing makers
/// hold `rem`, given `scans` makers already looked at out of `max`.
#[verifier::opaque]
pub open spec fn fok_walk(ms: Seq<MakerView>, side: Side, limit: U256, rem: nat, scans: nat, max: u32) -> Result<bool, MatchError>
    decreases ms.len(),
{
    if ms.len() == 0 {
        Ok(false)
    } else if !crosses_spec(side, limit, ms[0].price) {
        Ok(false)
    } else if scans >= max {
        Err(MatchError::ScanLimitReached { max_scanned: max })
    } else if ms[0].remaining_base.value() >= rem {
        Ok(true)
    } else {
        fok_walk(ms.drop_first(), side, limit, (rem - ms[0].remaining_base.value()) as nat, scans + 1, max)
    }
}

/// Market-buy budget preview over the asks `ms` in priority order: `rem` base still to buy,
/// `spent` quote so far, `scans` makers already looked at out of `max`.
#[verifier::opaque]
pub open spec fn budget_walk(ms: Seq<MakerView>, rem: nat, spent: nat, max_quote: nat, scans: nat, max: u32) -> Result<(), MatchError>
    decreases ms.len(),
{
    if ms.len() == 0 {
        Err(MatchError::MarketBuyInsufficientLiquidity)
    } else if scans >= max {
        Err(MatchError::ScanLimitReached { max_scanned: max })
    } else {
        let fill = min_nat(rem, ms[0].remaining_base.value());
        let price = ms[0].price.value();
        let q = quote_floor(fill, price);
        if !fits_u256(fill * price) {
            Err(MatchError::MulOverflow)
        } else if !fits_u256(spent + q) {
            Err(MatchError::AddOverflow)
        } else if spent + q > max_quote {
            Err(MatchError::MarketBuyMaxQuoteExceeded)
        } else if fill == rem {
            Ok(())
        } else {
            budget_walk(ms.drop_first(), (rem - fill) as nat, spent + q, max_quote, scans + 1, max)
        }
    }
}

/// The base amounts a taker `o` with `rem` left takes from the makers `ms`, in order: it stops
/// when filled, out of makers, or (but for a Market order) at the first maker that does not
/// cross.
#[verifier::opaque]
pub open spec fn fills(ms: Seq<MakerView>, o: IncomingOrder, rem: nat) -> Seq<nat>
    decreases ms.len(),
{
    if rem == 0 || ms.len() == 0 || (o.kind != OrderKind::Market && !crosses_spec(
        o.side,
        o.limit_price,
        ms[0].price,
    )) {
        Seq::empty()
    } else {
        let f = min_nat(rem, ms[0].remaining_base.value());
        seq![f] + fills(ms.drop_first(), o, (rem - f) as nat)
    }
}

pub open spec fn sum(s: Seq<nat>) -> nat
    decreases s.len(),
{
    if s.len() == 0 {
        0
    } else {
        sum(s.drop_last()) + s.last()
    }
}

/// Trade `t` records taker `o` taking `f` base from maker `m` at the maker's price.
pub open spec fn trade_of(t: Trade, m: MakerView, o: IncomingOrder, f: nat) -> bool {
    &&& t.maker_order_id == m.id
    &&& t.taker_order_id == o.id
    &&& t.maker == m.owner
    &&& t.taker == o.owner
    &&& t.price == m.price
    &&& t.amount_base.value() == f
    &&& t.amount_quote.value() == quote_floor(f, m.price.value())
    &&& t.maker_refund_quote.value() == if m.side == Side::Buy && f == m.remaining_base.value() {
        m.reserved_quote.value() - quote_floor(f, m.price.value())
    } else {
        0
    }
}

pub open spec fn trade_bases(ts: Seq<Trade>) -> Seq<nat> {
    ts.map_values(|t: Trade| t.amount_base.value())
}

pub open spec fn trade_quotes(ts: Seq<Trade>) -> Seq<nat> {
    ts.map_values(|t: Trade| t.amount_quote.value())
}

pub proof fn lemma_sum_push(s: Seq<nat>, x: nat)
    ensures
        sum(s.push(x)) == sum(s) + x,
{
    assert(s.push(x).drop_last() =~= s);
}

/// A prefix of a sequence of naturals sums to no more than a longer prefix.
pub proof fn lemma_sum_prefix_mono(s: Seq<nat>, n: int, i: int)
    requires
        0 <= i <= n <= s.len(),
    ensures
        sum(s.take(i)) <= sum(s.take(n)),
    decreases n - i,
{
    if i < n {
        assert(s.take(n).drop_last() =~= s.take(n - 1));
        lemma_sum_prefix_mono(s, n - 1, i);
    }
}

proof fn lemma_flatten_unfold(levels: Seq<Seq<MakerView>>, li: int)
    requires
        0 <= li < levels.len(),
    ensures
        levels.skip(li).flatten() == tail_from(levels, li, 0),
{
    let s = levels.skip(li);
    assert(s.len() > 0);
    assert(s.first() == levels[li]);
    assert(s.drop_first() =~= levels.skip(li + 1));
    assert(levels[li].skip(0) =~= levels[li]);
}

proof fn lemma_tail_step(levels: Seq<Seq<MakerView>>, li: int, k: int)
    requires
        0 <= li < levels.len(),
        0 <= k < levels[li].len(),
    ensures
        tail_from(levels, li, k).len() > 0,
        tail_from(levels, li, k)[0] == levels[li][k],
        tail_from(levels, li, k).drop_first() == levels[li].skip(k + 1) + levels.skip(li + 1).flatten(),
{
    let a = levels[li].skip(k);
    let r = levels.skip(li + 1).flatten();
    assert((a + r).drop_first() =~= levels[li].skip(k + 1) + r);
}

proof fn lemma_level_end(levels: Seq<Seq<MakerView>>, li: int)
    requires
        0 <= li < levels.len(),
    ensures
        levels[li].skip(levels[li].len() as int) + levels.skip(li + 1).flatten() == levels.skip(li + 1).flatten(),
        li + 1 < levels.len() ==> levels.skip(li + 1).flatten() == tail_from(levels, li + 1, 0),
        li + 1 == levels.len() ==> levels.skip(li + 1).flatten().len() == 0,
{
    assert(levels[li].skip(levels[li].len() as int) + levels.skip(li + 1).flatten() =~= levels.skip(li + 1).flatten());
    if li + 1 < levels.len() {
        lemma_flatten_unfold(levels, li + 1);
    } else {
        assert(levels.skip(li + 1).len() == 0);
    }
}

/// Facts on the first maker of a ladder and on the ladder after it leaves or changes.
proof fn lemma_flatten_first(levels: Seq<Seq<MakerView>>, m: MakerView)
    requires
        levels.len() > 0,
        levels[0].len() > 0,
    ensures
        levels.flatten().len() > 0,
        levels.flatten()[0] == levels[0][0],
        remove_at(levels, 0, 0).flatten() == levels.flatten().drop_first(),
        levels.update(0, levels[0].update(0, m)).flatten() == levels.flatten().update(0, m),
{
    let r = levels.drop_first().flatten();
    assert(levels.flatten() == levels[0] + r);
    if levels[0].len() == 1 {
        assert(levels.remove(0) =~= levels.drop_first());
        assert((levels[0] + r).drop_first() =~= r);
    } else {
        let l2 = levels.update(0, levels[0].remove(0));
        assert(l2.drop_first() =~= levels.drop_first());
        assert(l2.flatten() == l2[0] + l2.drop_first().flatten());
        assert((levels[0] + r).drop_first() =~= levels[0].remove(0) + r);
    }
    let l3 = levels.update(0, levels[0].update(0, m));
    assert(l3.drop_first() =~= levels.drop_first());
    assert(l3.flatten() == l3[0] + l3.drop_first().flatten());
    assert((levels[0] + r).update(0, m) =~= levels[0].update(0, m) + r);
}

fn crosses(taker_side: Side, taker_limit: U256, maker_price: U256) -> (r: bool)
    ensures
        r == crosses_spec(taker_side, taker_limit, maker_price),
{
    match taker_side {
        Side::Buy => maker_price.le(&taker_limit),
        Side::Sell => taker_limit.le(&maker_price),
    }
}

fn validate(order: &IncomingOrder) -> (r: Result<(), MatchError>)
    ensures
        r == match validation_error(*order) {
            Some(reason) => Err(MatchError::InvalidOrder(reason)),
            None => Ok(()),
        },
{
    if order.amount_base.is_zero() {
        return Err(MatchError::InvalidOrder(InvalidOrderReason::ZeroAmountBase));
    }
    if order.kind != OrderKind::Market && order.limit_price.is_zero() {
        return Err(MatchError::InvalidOrder(InvalidOrderReason::ZeroLimitPriceForNonMarket));
    }
    if order.kind == OrderKind::Market {
        match order.side {
            Side::Buy => {
                if order.max_quote.is_zero() {
                    return Err(MatchError::InvalidOrder(InvalidOrderReason::ZeroMaxQuoteForMarketBuy));
                }
            },
            Side::Sell => {
                if !order.max_quote.is_zero() {
                    return Err(MatchError::InvalidOrder(InvalidOrderReason::MaxQuoteOnlyForMarketBuy));
                }
            },
        }
    } else if !order.max_quote.is_zero() {
        return Err(MatchError::InvalidOrder(InvalidOrderReason::MaxQuoteOnlyForMarketBuy));
    }
    Ok(())
}

fn validate_maker_view(maker: &MakerView, expected_side: Side, expected_price: U256) -> (r: Result<(), MatchError>)
    ensures
        r == if maker.side != expected_side {
            Err(MatchError::BrokenBook(BookInvariant::MakerSideMismatch))
        } else if maker.price.value() != expected_price.value() {
            Err(MatchError::BrokenBook(BookInvariant::MakerPriceMismatch))
        } else if maker.remaining_base.value() == 0 {
            Err(MatchError::BrokenBook(BookInvariant::MakerZeroRemaining))
        } else {
            Ok(())
        },
{
    if maker.side != expected_side {
        return Err(MatchError::BrokenBook(BookInvariant::MakerSideMismatch));
    }
    if !maker.price.eq_value(&expected_price) {
        return Err(MatchError::BrokenBook(BookInvariant::MakerPriceMismatch));
    }
    if maker.remaining_base.is_zero() {
        return Err(MatchError::BrokenBook(BookInvariant::MakerZeroRemaining));
    }
    Ok(())
}

proof fn lemma_fok_at(lv: Seq<Seq<MakerView>>, li: int, k: int, side: Side, limit: U256, rem: nat, scans: nat, max: u32)
    requires
        0 <= li < lv.len(),
        0 <= k < lv[li].len(),
        lv[li][k].price == lv[li][0].price,
    ensures
        ({
            let w = fok_walk(tail_from(lv, li, k), side, limit, rem, scans, max);
            let m = lv[li][k];
            &&& !crosses_spec(side, limit, lv[li][0].price) ==> w == Ok::<bool, MatchError>(false)
            &&& crosses_spec(side, limit, lv[li][0].price) && scans >= max ==> w == Err::<bool, MatchError>(
                MatchError::ScanLimitReached { max_scanned: max },
            )
            &&& crosses_spec(side, limit, lv[li][0].price) && scans < max && m.remaining_base.value() >= rem
                ==> w == Ok::<bool, MatchError>(true)
            &&& crosses_spec(side, limit, lv[li][0].price) && scans < max && m.remaining_base.value() < rem
                ==> w == fok_walk(
                lv[li].skip(k + 1) + lv.skip(li + 1).flatten(),
                side,
                limit,
                (rem - m.remaining_base.value()) as nat,
                scans + 1,
                max,
            )
        }),
{
    reveal(fok_walk);
    lemma_tail_step(lv, li, k);
}

proof fn lemma_next_level(side: Side, lv: Seq<Seq<MakerView>>, li: int, r: Option<U256>)
    requires
        0 <= li < lv.len(),
        forall|i: int, j: int| 0 <= i < j < lv.len() ==> better(side, lv[i][0].price, lv[j][0].price),
        r == next_price_spec(lv, side, lv[li][0].price),
    ensures
        r == if li + 1 < lv.len() { Some(lv[li + 1][0].price) } else { None },
{
    let price = lv[li][0].price;
    assert forall|j: int| 0 <= j < li + 1 implies !better(side, price, #[trigger] lv[j][0].price) by {
        if j < li {
            assert(better(side, lv[j][0].price, lv[li][0].price));
        }
    }
    lemma_next_price_skip(lv, side, price, li + 1);
    let rest = lv.skip(li + 1);
    if li + 1 < lv.len() {
        assert(rest[0] == lv[li + 1]);
        assert(better(side, price, lv[li + 1][0].price));
    } else {
        assert(rest.len() == 0);
    }
}

proof fn lemma_head_level(side: Side, lv: Seq<Seq<MakerView>>, hs: Seq<Seq<Index>>, li: int, r: Option<Index>)
    requires
        0 <= li < lv.len(),
        lv.len() == hs.len(),
        forall|i: int, j: int| 0 <= i < j < lv.len() ==> better(side, lv[i][0].price, lv[j][0].price),
        r == head_spec(lv, hs, lv[li][0].price),
    ensures
        r == Some(hs[li][0]),
{
    let price = lv[li][0].price;
    assert forall|j: int| 0 <= j < li implies #[trigger] lv[j][0].price != price by {
        assert(better(side, lv[j][0].price, lv[li][0].price));
    }
    lemma_head_skip(lv, hs, price, li);
    assert(lv.skip(li)[0] == lv[li]);
    assert(hs.skip(li)[0] == hs[li]);
}

proof fn lemma_fok_errors(ms: Seq<MakerView>, side: Side, limit: U256, rem: nat, scans: nat, max: u32)
    ensures
        fok_walk(ms, side, limit, rem, scans, max) is Err ==> fok_walk(ms, side, limit, rem, scans, max)
            == Err::<bool, MatchError>(MatchError::ScanLimitReached { max_scanned: max }),
    decreases ms.len(),
{
    reveal(fok_walk);
    if ms.len() > 0 {
        lemma_fok_errors(ms.drop_first(), side, limit, (rem - ms[0].remaining_base.value()) as nat, scans + 1, max);
    }
}

proof fn lemma_budget_errors(ms: Seq<MakerView>, rem: nat, spent: nat, max_quote: nat, scans: nat, max: u32)
    ensures
        budget_walk(ms, rem, spent, max_quote, scans, max) matches Err(e) ==> e == MatchError::MarketBuyInsufficientLiquidity
            || e == (MatchError::ScanLimitReached { max_scanned: max }) || e == MatchError::MulOverflow || e
            == MatchError::AddOverflow || e == MatchError::MarketBuyMaxQuoteExceeded,
    decreases ms.len(),
{
    reveal(budget_walk);
    if ms.len() > 0 {
        let fill = min_nat(rem, ms[0].remaining_base.value());
        let q = quote_floor(fill, ms[0].price.value());
        lemma_budget_errors(ms.drop_first(), (rem - fill) as nat, spent + q, max_quote, scans + 1, max);
    }
}

/// Whether the makers that cross a fill-or-kill order hold its whole amount; the book is only
/// read.
pub fn preview_fillable<B: Book>(book: &B, order: &IncomingOrder, max_scanned: u32) -> (r: Result<bool, MatchError>)
    requires
        book.wf(),
    ensures
        r == if order.kind != OrderKind::FillOrKill {
            Err(MatchError::InvalidOrder(InvalidOrderReason::PreviewOnlyForFok))
        } else {
            fok_walk(
                book.levels(order.side.opposite_spec()).flatten(),
                order.side,
                order.limit_price,
                order.amount_base.value(),
                0,
                max_scanned,
            )
        },
{
    if order.kind != OrderKind::FillOrKill {
        return Err(MatchError::InvalidOrder(InvalidOrderReason::PreviewOnlyForFok));
    }
    let maker_side = order.side.opposite();
    let ghost lv = book.levels(maker_side);
    let ghost hs = book.handles(maker_side);
    let ghost goal = fok_walk(lv.flatten(), order.side, order.limit_price, order.amount_base.value(), 0, max_scanned);
    proof {
        book.lemma_wf();
        assert(lv.skip(0) =~= lv);
    }
    let mut remaining = order.amount_base;
    let mut scanned: u32 = 0;
    let mut price_opt = book.best_price(maker_side);
    let ghost mut li: int = 0;
    loop
        invariant
            book.wf(),
            ladder_ok(maker_side, lv, hs),
            lv == book.levels(maker_side),
            hs == book.handles(maker_side),
            maker_side == order.side.opposite_spec(),
            order.kind == OrderKind::FillOrKill,
            goal == fok_walk(lv.flatten(), order.side, order.limit_price, order.amount_base.value(), 0, max_scanned),
            0 <= li <= lv.len(),
            price_opt == if li < lv.len() { Some(lv[li][0].price) } else { None },
            goal == fok_walk(lv.skip(li).flatten(), order.side, order.limit_price, remaining.value(), scanned as nat, max_scanned),
        decreases lv.len() - li,
    {
        let price = match price_opt {
            Some(p) => p,
            None => {
                proof {
                    assert(lv.skip(li).len() == 0);
                    reveal(fok_walk);
                }
                return Ok(false);
            },
        };
        proof {
            lemma_flatten_unfold(lv, li);
            lemma_fok_at(lv, li, 0, order.side, order.limit_price, remaining.value(), scanned as nat, max_scanned);
        }
        if !crosses(order.side, order.limit_price, price) {
            return Ok(false);
        }
        let mut h = match book.level_head(maker_side, price) {
            Some(h) => h,
            None => {
                proof {
                    lemma_head_level(maker_side, lv, hs, li, None);
                }
                return Err(MatchError::BrokenBook(BookInvariant::BestPriceHasNoHead));
            },
        };
        proof {
            lemma_head_level(maker_side, lv, hs, li, Some(h));
        }
        let ghost mut k: int = 0;
        loop
            invariant_except_break
                0 <= k < lv[li].len(),
                h == hs[li][k],
                goal == fok_walk(tail_from(lv, li, k), order.side, order.limit_price, remaining.value(), scanned as nat, max_scanned),
            invariant
                book.wf(),
                ladder_ok(maker_side, lv, hs),
                lv == book.levels(maker_side),
                hs == book.handles(maker_side),
                maker_side == order.side.opposite_spec(),
                order.kind == OrderKind::FillOrKill,
                goal == fok_walk(lv.flatten(), order.side, order.limit_price, order.amount_base.value(), 0, max_scanned),
                0 <= li < lv.len(),
                price == lv[li][0].price,
                crosses_spec(order.side, order.limit_price, price),
            ensures
                goal == fok_walk(lv.skip(li + 1).flatten(), order.side, order.limit_price, remaining.value(), scanned as nat, max_scanned),
            decreases lv[li].len() - k,
        {
            proof {
                assert(at(hs, li, k));
                assert(lv[li][k].price == lv[li][0].price);
                lemma_fok_at(lv, li, k, order.side, order.limit_price, remaining.value(), scanned as nat, max_scanned);
            }
            if scanned >= max_scanned {
                return Err(MatchError::ScanLimitReached { max_scanned });
            }
            scanned = scanned + 1;
            let maker = match book.get_maker(h) {
                Some(m) => m,
                None => {
                    return Err(MatchError::BrokenBook(BookInvariant::LevelHeadMissingMaker));
                },
            };
            let v = validate_maker_view(&maker, maker_side, price);
            if v.is_err() {
                return Err(v.unwrap_err());
            }
            let fill = remaining.min(maker.remaining_base);
            remaining = match remaining.checked_sub(fill) {
                Some(x) => x,
                None => {
                    return Err(MatchError::SubUnderflow);
                },
            };
            if remaining.is_zero() {
                return Ok(true);
            }
            match book.next_in_level(h) {
                Some(next) => {
                    if next == h {
                        return Err(MatchError::BrokenBook(BookInvariant::NextInLevelSelfLoop));
                    }
                    h = next;
                    proof {
                        k = k + 1;
                    }
                },
                None => {
                    proof {
                        lemma_level_end(lv, li);
                    }
                    break;
                },
            }
        }
        price_opt = book.next_price(maker_side, price);
        proof {
            lemma_next_level(maker_side, lv, li, price_opt);
        }
        match price_opt {
            Some(np) => {
                proof {
                    assert(better(maker_side, lv[li][0].price, lv[li + 1][0].price));
                }
                if np.eq_value(&price) {
                    return Err(MatchError::BrokenBook(BookInvariant::NextPriceDidNotAdvance));
                }
            },
            None => {},
        }
        proof {
            lemma_level_end(lv, li);
            li = li + 1;
        }
    }
}

proof fn lemma_budget_at(lv: Seq<Seq<MakerView>>, li: int, k: int, rem: nat, spent: nat, max_quote: nat, scans: nat, max: u32)
    requires
        0 <= li < lv.len(),
        0 <= k < lv[li].len(),
    ensures
        ({
            let w = budget_walk(tail_from(lv, li, k), rem, spent, max_quote, scans, max);
            let m = lv[li][k];
            let fill = min_nat(rem, m.remaining_base.value());
            let price = m.price.value();
            let q = quote_floor(fill, price);
            &&& scans >= max ==> w == Err::<(), MatchError>(MatchError::ScanLimitReached { max_scanned: max })
            &&& scans < max && !fits_u256(fill * price) ==> w == Err::<(), MatchError>(MatchError::MulOverflow)
            &&& scans < max && fits_u256(fill * price) && !fits_u256(spent + q) ==> w == Err::<(), MatchError>(
                MatchError::AddOverflow,
            )
            &&& scans < max && fits_u256(fill * price) && fits_u256(spent + q) && spent + q > max_quote
                ==> w == Err::<(), MatchError>(MatchError::MarketBuyMaxQuoteExceeded)
            &&& scans < max && fits_u256(fill * price) && fits_u256(spent + q) && spent + q <= max_quote
                && fill == rem ==> w is Ok
            &&& scans < max && fits_u256(fill * price) && fits_u256(spent + q) && spent + q <= max_quote
                && fill < rem ==> w == budget_walk(
                lv[li].skip(k + 1) + lv.skip(li + 1).flatten(),
                (rem - fill) as nat,
                spent + q,
                max_quote,
                scans + 1,
                max,
            )
        }),
{
    reveal(budget_walk);
    lemma_tail_step(lv, li, k);
}

/// The fill loop of `execute` run over the makers `ms` in priority order without changing
/// anything: `rem` base still to take after `j` trades out of at most `max`. It fails where the
/// loop would: the trade limit is reached with base left, a quote does not fit in 256 bits, or
/// a Buy maker holds less quote than its fill owes.
#[verifier::opaque]
pub open spec fn run_walk(ms: Seq<MakerView>, o: IncomingOrder, rem: nat, j: nat, max: u32) -> Result<(), MatchError>
    decreases ms.len(),
{
    if rem == 0 {
        Ok(())
    } else if j >= max {
        Err(MatchError::TradeLimitReached { max_trades: max })
    } else if ms.len() == 0 || (o.kind != OrderKind::Market && !crosses_spec(o.side, o.limit_price, ms[0].price)) {
        Ok(())
    } else {
        let f = min_nat(rem, ms[0].remaining_base.value());
        let p = ms[0].price.value();
        if !fits_u256(f * p) {
            Err(MatchError::MulOverflow)
        } else if ms[0].side == Side::Buy && ms[0].reserved_quote.value() < quote_floor(f, p) {
            Err(MatchError::SubUnderflow)
        } else {
            run_walk(ms.drop_first(), o, (rem - f) as nat, j + 1, max)
        }
    }
}

proof fn lemma_run_at(lv: Seq<Seq<MakerView>>, li: int, k: int, o: IncomingOrder, rem: nat, j: nat, max: u32)
    requires
        0 <= li < lv.len(),
        0 <= k < lv[li].len(),
        lv[li][k].price == lv[li][0].price,
        rem > 0,
        j < max,
    ensures
        ({
            let w = run_walk(tail_from(lv, li, k), o, rem, j, max);
            let m = lv[li][k];
            let f = min_nat(rem, m.remaining_base.value());
            let p = m.price.value();
            let cross = o.kind == OrderKind::Market || crosses_spec(o.side, o.limit_price, lv[li][0].price);
            &&& !cross ==> w is Ok
            &&& cross && !fits_u256(f * p) ==> w == Err::<(), MatchError>(MatchError::MulOverflow)
            &&& cross && fits_u256(f * p) && m.side == Side::Buy && m.reserved_quote.value() < quote_floor(f, p)
                ==> w == Err::<(), MatchError>(MatchError::SubUnderflow)
            &&& cross && fits_u256(f * p) && !(m.side == Side::Buy && m.reserved_quote.value() < quote_floor(f, p))
                ==> w == run_walk(lv[li].skip(k + 1) + lv.skip(li + 1).flatten(), o, (rem - f) as nat, j + 1, max)
        }),
{
    reveal(run_walk);
    lemma_tail_step(lv, li, k);
}

proof fn lemma_run_errors(ms: Seq<MakerView>, o: IncomingOrder, rem: nat, j: nat, max: u32)
    ensures
        run_walk(ms, o, rem, j, max) matches Err(e) ==> e == (MatchError::TradeLimitReached { max_trades: max }) || e
            == MatchError::MulOverflow || e == MatchError::SubUnderflow,
    decreases ms.len(),
{
    reveal(run_walk);
    if ms.len() > 0 {
        let f = min_nat(rem, ms[0].remaining_base.value());
        lemma_run_errors(ms.drop_first(), o, (rem - f) as nat, j + 1, max);
    }
}

proof fn lemma_run_edges(ms: Seq<MakerView>, o: IncomingOrder, rem: nat, j: nat, max: u32)
    ensures
        rem == 0 ==> run_walk(ms, o, rem, j, max) is Ok,
        rem > 0 && j >= max ==> run_walk(ms, o, rem, j, max) == Err::<(), MatchError>(
            MatchError::TradeLimitReached { max_trades: max },
        ),
        rem > 0 && j < max && ms.len() == 0 ==> run_walk(ms, o, rem, j, max) is Ok,
{
    reveal(run_walk);
}

/// Runs the fill loop of `execute` over the book without changing it, and reports the error
/// the loop would meet, if any.
pub fn preview_execution<B: Book>(book: &B, order: &IncomingOrder, limits: EngineLimits) -> (r: Result<(), MatchError>)
    requires
        book.wf(),
    ensures
        ({
            let w = run_walk(
                book.levels(order.side.opposite_spec()).flatten(),
                *order,
                order.amount_base.value(),
                0,
                limits.max_trades,
            );
            &&& r is Ok <==> w is Ok
            &&& r is Err ==> r == w
        }),
{
    let maker_side = order.side.opposite();
    let ghost lv = book.levels(maker_side);
    let ghost hs = book.handles(maker_side);
    let ghost goal = run_walk(lv.flatten(), *order, order.amount_base.value(), 0, limits.max_trades);
    proof {
        book.lemma_wf();
        assert(lv.skip(0) =~= lv);
    }
    let max = limits.max_trades;
    let mut remaining = order.amount_base;
    let mut taken: u32 = 0;
    let mut price_opt = book.best_price(maker_side);
    let ghost mut li: int = 0;
    loop
        invariant
            book.wf(),
            ladder_ok(maker_side, lv, hs),
            lv == book.levels(maker_side),
            hs == book.handles(maker_side),
            maker_side == order.side.opposite_spec(),
            max == limits.max_trades,
            goal == run_walk(lv.flatten(), *order, order.amount_base.value(), 0, limits.max_trades),
            0 <= li <= lv.len(),
            price_opt == if li < lv.len() { Some(lv[li][0].price) } else { None },
            goal == run_walk(lv.skip(li).flatten(), *order, remaining.value(), taken as nat, max),
        decreases lv.len() - li,
    {
        if remaining.is_zero() {
            proof {
                lemma_run_edges(lv.skip(li).flatten(), *order, remaining.value(), taken as nat, max);
            }
            return Ok(());
        }
        if taken >= max {
            proof {
                lemma_run_edges(lv.skip(li).flatten(), *order, remaining.value(), taken as nat, max);
            }
            return Err(MatchError::TradeLimitReached { max_trades: max });
        }
        let price = match price_opt {
            Some(p) => p,
            None => {
                proof {
                    assert(lv.skip(li).len() == 0);
                    lemma_run_edges(lv.skip(li).flatten(), *order, remaining.value(), taken as nat, max);
                }
                return Ok(());
            },
        };
        proof {
            lemma_flatten_unfold(lv, li);
            lemma_run_at(lv, li, 0, *order, remaining.value(), taken as nat, max);
        }
        if order.kind != OrderKind::Market && !crosses(order.side, order.limit_price, price) {
            return Ok(());
        }
        let mut h = match book.level_head(maker_side, price) {
            Some(h) => h,
            None => {
                proof {
                    lemma_head_level(maker_side, lv, hs, li, None);
                }
                return Err(MatchError::BrokenBook(BookInvariant::BestPriceHasNoHead));
            },
        };
        proof {
            lemma_head_level(maker_side, lv, hs, li, Some(h));
        }
        let ghost mut k: int = 0;
        loop
            invariant_except_break
                0 <= k < lv[li].len(),
                h == hs[li][k],
                remaining.value() > 0,
                taken < max,
                goal == run_walk(tail_from(lv, li, k), *order, remaining.value(), taken as nat, max),
            invariant
                book.wf(),
                ladder_ok(maker_side, lv, hs),
                lv == book.levels(maker_side),
                hs == book.handles(maker_side),
                maker_side == order.side.opposite_spec(),
                max == limits.max_trades,
                goal == run_walk(lv.flatten(), *order, order.amount_base.value(), 0, limits.max_trades),
                0 <= li < lv.len(),
                price == lv[li][0].price,
                order.kind == OrderKind::Market || crosses_spec(order.side, order.limit_price, price),
            ensures
                goal == run_walk(lv.skip(li + 1).flatten(), *order, remaining.value(), taken as nat, max),
            decreases lv[li].len() - k,
        {
            proof {
                assert(at(hs, li, k));
                assert(lv[li][k].price == lv[li][0].price);
                lemma_run_at(lv, li, k, *order, remaining.value(), taken as nat, max);
            }
            let maker = match book.get_maker(h) {
                Some(m) => m,
                None => {
                    return Err(MatchError::BrokenBook(BookInvariant::LevelHeadMissingMaker));
                },
            };
            match validate_maker_view(&maker, maker_side, price) {
                Ok(()) => {},
                Err(e) => {
                    return Err(e);
                },
            }
            let fill = remaining.min(maker.remaining_base);
            let quote = match calc_quote_floor(fill, price) {
                Ok(q) => q,
                Err(e) => {
                    return Err(e);
                },
            };
            if maker.side == Side::Buy && maker.reserved_quote.lt(&quote) {
                return Err(MatchError::SubUnderflow);
            }
            remaining = match remaining.checked_sub(fill) {
                Some(x) => x,
                None => {
                    return Err(MatchError::SubUnderflow);
                },
            };
            taken = taken + 1;
            let ghost rest = lv[li].skip(k + 1) + lv.skip(li + 1).flatten();
            if remaining.is_zero() {
                proof {
                    lemma_run_edges(rest, *order, remaining.value(), taken as nat, max);
                }
                return Ok(());
            }
            if taken >= max {
                proof {
                    lemma_run_edges(rest, *order, remaining.value(), taken as nat, max);
                }
                return Err(MatchError::TradeLimitReached { max_trades: max });
            }
            match book.next_in_level(h) {
                Some(next) => {
                    if next == h {
                        return Err(MatchError::BrokenBook(BookInvariant::NextInLevelSelfLoop));
                    }
                    h = next;
                    proof {
                        k = k + 1;
                    }
                },
                None => {
                    proof {
                        lemma_level_end(lv, li);
                    }
                    break;
                },
            }
        }
        price_opt = book.next_price(maker_side, price);
        proof {
            lemma_next_level(maker_side, lv, li, price_opt);
        }
        match price_opt {
            Some(np) => {
                proof {
                    assert(better(maker_side, lv[li][0].price, lv[li + 1][0].price));
                }
                if np.eq_value(&price) {
                    return Err(MatchError::BrokenBook(BookInvariant::NextPriceDidNotAdvance));
                }
            },
            None => {},
        }
        proof {
            lemma_level_end(lv, li);
            li = li + 1;
        }
    }
}

/// Strict Market-Buy check: walks the asks best first and fails if the quote the order would
/// spend exceeds its budget, or if the asks cannot fill it; the book is only read.
pub fn preview_market_buy_budget_strict<B: Book>(book: &B, order: &IncomingOrder, limits: EngineLimits) -> (r: Result<(), MatchError>)
    requires
        book.wf(),
    ensures
        ({
            let expected = if order.kind != OrderKind::Market || order.side != Side::Buy {
                Err(MatchError::InvalidOrder(InvalidOrderReason::PreviewOnlyForMarketBuyBudget))
            } else if order.max_quote.value() == 0 {
                Err(MatchError::InvalidOrder(InvalidOrderReason::ZeroMaxQuoteForMarketBuy))
            } else {
                budget_walk(
                    book.levels(Side::Sell).flatten(),
                    order.amount_base.value(),
                    0,
                    order.max_quote.value(),
                    0,
                    limits.max_preview_scans,
                )
            };
            &&& r is Ok <==> expected is Ok
            &&& r is Err ==> r == expected
        }),
{
    if order.kind != OrderKind::Market || order.side != Side::Buy {
        return Err(MatchError::InvalidOrder(InvalidOrderReason::PreviewOnlyForMarketBuyBudget));
    }
    if order.max_quote.is_zero() {
        return Err(MatchError::InvalidOrder(InvalidOrderReason::ZeroMaxQuoteForMarketBuy));
    }
    let maker_side = Side::Sell;
    let ghost lv = book.levels(maker_side);
    let ghost hs = book.handles(maker_side);
    let ghost goal = budget_walk(lv.flatten(), order.amount_base.value(), 0, order.max_quote.value(), 0, limits.max_preview_scans);
    proof {
        book.lemma_wf();
        assert(lv.skip(0) =~= lv);
    }
    let mut remaining = order.amount_base;
    let mut required_quote = U256::zero();
    let mut scanned: u32 = 0;
    let mut price_opt = book.best_price(maker_side);
    let ghost mut li: int = 0;
    loop
        invariant
            book.wf(),
            ladder_ok(maker_side, lv, hs),
            lv == book.levels(maker_side),
            hs == book.handles(maker_side),
            maker_side == Side::Sell,
            order.kind == OrderKind::Market,
            order.side == Side::Buy,
            order.max_quote.value() > 0,
            goal == budget_walk(lv.flatten(), order.amount_base.value(), 0, order.max_quote.value(), 0, limits.max_preview_scans),
            0 <= li <= lv.len(),
            price_opt == if li < lv.len() { Some(lv[li][0].price) } else { None },
            goal == budget_walk(lv.skip(li).flatten(), remaining.value(), required_quote.value(), order.max_quote.value(), scanned as nat, limits.max_preview_scans),
        decreases lv.len() - li,
    {
        let price = match price_opt {
            Some(p) => p,
            None => {
                proof {
                    assert(lv.skip(li).len() == 0);
                    reveal(budget_walk);
                }
                return Err(MatchError::MarketBuyInsufficientLiquidity);
            },
        };
        proof {
            lemma_flatten_unfold(lv, li);
        }
        let mut h = match book.level_head(maker_side, price) {
            Some(h) => h,
            None => {
                proof {
                    lemma_head_level(maker_side, lv, hs, li, None);
                }
                return Err(MatchError::BrokenBook(BookInvariant::BestPriceHasNoHead));
            },
        };
        proof {
            lemma_head_level(maker_side, lv, hs, li, Some(h));
        }
        let ghost mut k: int = 0;
        loop
            invariant_except_break
                0 <= k < lv[li].len(),
                h == hs[li][k],
                goal == budget_walk(tail_from(lv, li, k), remaining.value(), required_quote.value(), order.max_quote.value(), scanned as nat, limits.max_preview_scans),
            invariant
                book.wf(),
                ladder_ok(maker_side, lv, hs),
                lv == book.levels(maker_side),
                hs == book.handles(maker_side),
                maker_side == Side::Sell,
                order.kind == OrderKind::Market,
                order.side == Side::Buy,
            order.max_quote.value() > 0,
                goal == budget_walk(lv.flatten(), order.amount_base.value(), 0, order.max_quote.value(), 0, limits.max_preview_scans),
                0 <= li < lv.len(),
                price == lv[li][0].price,
            ensures
                goal == budget_walk(lv.skip(li + 1).flatten(), remaining.value(), required_quote.value(), order.max_quote.value(), scanned as nat, limits.max_preview_scans),
            decreases lv[li].len() - k,
        {
            proof {
                assert(at(hs, li, k));
                assert(lv[li][k].price == lv[li][0].price);
                lemma_budget_at(lv, li, k, remaining.value(), required_quote.value(), order.max_quote.value(), scanned as nat, limits.max_preview_scans);
            }
            if scanned >= limits.max_preview_scans {
                return Err(MatchError::ScanLimitReached { max_scanned: limits.max_preview_scans });
            }
            scanned = scanned + 1;
            let maker = match book.get_maker(h) {
                Some(m) => m,
                None => {
                    return Err(MatchError::BrokenBook(BookInvariant::LevelHeadMissingMaker));
                },
            };
            let v = validate_maker_view(&maker, maker_side, price);
            if v.is_err() {
                return Err(v.unwrap_err());
            }
            let fill = remaining.min(maker.remaining_base);
            let q = match calc_quote_floor(fill, price) {
                Ok(q) => q,
                Err(e) => {
                    return Err(e);
                },
            };
            required_quote = match required_quote.checked_add(q) {
                Some(x) => x,
                None => {
                    return Err(MatchError::AddOverflow);
                },
            };
            if order.max_quote.lt(&required_quote) {
                return Err(MatchError::MarketBuyMaxQuoteExceeded);
            }
            remaining = match remaining.checked_sub(fill) {
                Some(x) => x,
                None => {
                    return Err(MatchError::SubUnderflow);
                },
            };
            if remaining.is_zero() {
                return Ok(());
            }
            match book.next_in_level(h) {
                Some(next) => {
                    if next == h {
                        return Err(MatchError::BrokenBook(BookInvariant::NextInLevelSelfLoop));
                    }
                    h = next;
                    proof {
                        k = k + 1;
                    }
                },
                None => {
                    proof {
                        lemma_level_end(lv, li);
                    }
                    break;
                },
            }
        }
        price_opt = book.next_price(maker_side, price);
        proof {
            lemma_next_level(maker_side, lv, li, price_opt);
        }
        match price_opt {
            Some(np) => {
                proof {
                    assert(better(maker_side, lv[li][0].price, lv[li + 1][0].price));
                }
                if np.eq_value(&price) {
                    return Err(MatchError::BrokenBook(BookInvariant::NextPriceDidNotAdvance));
                }
            },
            None => {},
        }
        proof {
            lemma_level_end(lv, li);
            li = li + 1;
        }
    }
}

/// Maker `a` is maker `m` after `f` of its base was taken at its price.
pub open spec fn reduced(a: MakerView, m: MakerView, f: nat) -> bool {
    &&& a.id == m.id
    &&& a.owner == m.owner
    &&& a.side == m.side
    &&& a.price == m.price
    &&& a.remaining_base.value() == m.remaining_base.value() - f
    &&& a.reserved_quote.value() == if m.side == Side::Buy {
        m.reserved_quote.value() - quote_floor(f, m.price.value())
    } else {
        m.reserved_quote.value() as int
    }
}

/// `after` is what is left of the makers `ms` once the fills `fs` were taken from its front:
/// the fully filled makers are gone and a partly filled last one stays, reduced.
pub open spec fn taken(after: Seq<MakerView>, ms: Seq<MakerView>, fs: Seq<nat>) -> bool {
    let n = fs.len() as int;
    if n > 0 && fs[n - 1] < ms[n - 1].remaining_base.value() {
        &&& after.len() == ms.len() - n + 1
        &&& after.drop_first() == ms.skip(n)
        &&& reduced(after[0], ms[n - 1], fs[n - 1])
    } else {
        after == ms.skip(n)
    }
}

/// The quote a taker Buy Limit remainder keeps reserved: the ceiling lock on the whole order
/// less the quote already paid.
pub open spec fn remainder_quote(o: IncomingOrder, paid: nat) -> int {
    if o.side == Side::Buy {
        quote_ceil(o.amount_base.value(), o.limit_price.value()) - paid
    } else {
        0
    }
}

/// How an execution that took the fills `fs`, paying `paid` quote, completes.
pub open spec fn completes(c: Completion, o: IncomingOrder, fs: Seq<nat>, paid: nat) -> bool {
    let left = o.amount_base.value() - sum(fs);
    if left == 0 {
        c == Completion::Filled
    } else {
        match o.kind {
            OrderKind::Limit => c matches Completion::Placed { remaining_base, remaining_quote }
                && remaining_base.value() == left && remaining_quote.value() == remainder_quote(o, paid),
            OrderKind::Market | OrderKind::ImmediateOrCancel => c matches Completion::Cancelled {
                remaining_base,
            } && remaining_base.value() == left,
            OrderKind::FillOrKill => false,
        }
    }
}

proof fn lemma_fills_step(ms: Seq<MakerView>, j: int, o: IncomingOrder, rem: nat)
    requires
        0 <= j < ms.len(),
        rem > 0,
        o.kind == OrderKind::Market || crosses_spec(o.side, o.limit_price, ms[j].price),
    ensures
        fills(ms.skip(j), o, rem) == seq![min_nat(rem, ms[j].remaining_base.value())] + fills(
            ms.skip(j + 1),
            o,
            (rem - min_nat(rem, ms[j].remaining_base.value())) as nat,
        ),
{
    reveal(fills);
    assert(ms.skip(j).drop_first() =~= ms.skip(j + 1));
    assert(ms.skip(j)[0] == ms[j]);
}

proof fn lemma_fok_step(ms: Seq<MakerView>, j: int, side: Side, limit: U256, rem: nat, max: u32)
    requires
        0 <= j <= ms.len(),
        rem > 0,
        fok_walk(ms.skip(j), side, limit, rem, j as nat, max) == Ok::<bool, MatchError>(true),
    ensures
        j < ms.len(),
        crosses_spec(side, limit, ms[j].price),
        ms[j].remaining_base.value() < rem ==> fok_walk(ms.skip(j + 1), side, limit, (rem - ms[j].remaining_base.value()) as nat, (j + 1) as nat, max)
            == Ok::<bool, MatchError>(true),
{
    reveal(fok_walk);
    assert(ms.skip(j).drop_first() =~= ms.skip(j + 1));
}

proof fn lemma_budget_step(ms: Seq<MakerView>, j: int, rem: nat, spent: nat, max_quote: nat, max: u32)
    requires
        0 <= j <= ms.len(),
        rem > 0,
        budget_walk(ms.skip(j), rem, spent, max_quote, j as nat, max) is Ok,
    ensures
        j < ms.len(),
        ({
            let fill = min_nat(rem, ms[j].remaining_base.value());
            let q = quote_floor(fill, ms[j].price.value());
            &&& fits_u256(fill * ms[j].price.value())
            &&& fits_u256(spent + q)
            &&& spent + q <= max_quote
            &&& fill < rem ==> budget_walk(ms.skip(j + 1), (rem - fill) as nat, spent + q, max_quote, (j + 1) as nat, max) is Ok
        }),
{
    reveal(budget_walk);
    assert(ms.skip(j).drop_first() =~= ms.skip(j + 1));
}

proof fn lemma_floor_monotone_price(f: nat, p: nat, l: nat)
    requires
        p <= l,
    ensures
        quote_floor(f, p) <= quote_floor(f, l),
{
    assert(f * p <= f * l) by (nonlinear_arith)
        requires
            p <= l,
    ;
    vstd::arithmetic::div_mod::lemma_div_is_ordered(
        (f * p) as int,
        (f * l) as int,
        crate::math::precision() as int,
    );
}

proof fn lemma_first_level<B: Book>(book: &B, side: Side)
    requires
        book.wf(),
    ensures
        book.levels(side).len() > 0 ==> book.levels(side)[0].len() > 0,
{
    book.lemma_wf();
}

/// The best maker on `maker_side`, whose level is at `price`, with its handle.
fn head_maker<B: Book>(book: &B, maker_side: Side, price: U256) -> (r: Result<(Index, MakerView), MatchError>)
    requires
        book.wf(),
        book.levels(maker_side).len() > 0,
        price == book.levels(maker_side)[0][0].price,
    ensures
        r matches Ok((h, m)) && h == book.handles(maker_side)[0][0] && m == book.levels(maker_side)[0][0]
            && at(book.handles(maker_side), 0, 0) && m.remaining_base.value() > 0 && m.side == maker_side,
{
    let ghost lv = book.levels(maker_side);
    let ghost hs = book.handles(maker_side);
    proof {
        book.lemma_wf();
        assert(ladder_ok(maker_side, lv, hs));
    }
    let h = match book.level_head(maker_side, price) {
        Some(h) => h,
        None => {
            proof {
                lemma_head_level(maker_side, lv, hs, 0, None);
            }
            return Err(MatchError::BrokenBook(BookInvariant::BestPriceHasNoHead));
        },
    };
    proof {
        lemma_head_level(maker_side, lv, hs, 0, Some(h));
        assert(at(hs, 0, 0));
    }
    let maker = match book.get_maker(h) {
        Some(m) => m,
        None => {
            return Err(MatchError::BrokenBook(BookInvariant::LevelHeadMissingMaker));
        },
    };
    match validate_maker_view(&maker, maker_side, price) {
        Ok(()) => {},
        Err(e) => {
            return Err(e);
        },
    }
    Ok((h, maker))
}

/// Takes `fill` base and `quote` quote from the best maker `h` on `maker_side`: a Buy maker's
/// escrow shrinks by `quote`, and a maker left with no base leaves the book.
fn apply_fill<B: Book>(book: &mut B, maker_side: Side, h: Index, maker: MakerView, fill: U256, quote: U256) -> (r: Result<(), MatchError>)
    requires
        old(book).wf(),
        old(book).levels(maker_side).len() > 0,
        at(old(book).handles(maker_side), 0, 0),
        h == old(book).handles(maker_side)[0][0],
        maker == old(book).levels(maker_side)[0][0],
        maker.side == maker_side,
        fill.value() <= maker.remaining_base.value(),
    ensures
        r is Err ==> r == Err::<(), MatchError>(MatchError::SubUnderflow) && *final(book) == *old(book)
            && maker.side == Side::Buy && maker.reserved_quote.value() < quote.value(),
        r is Ok ==> {
            &&& final(book).wf()
            &&& final(book).levels(maker_side.opposite_spec()) == old(book).levels(maker_side.opposite_spec())
            &&& forall|id: OrderId| old(book).can_rest(id) ==> final(book).can_rest(id)
            &&& (maker.side == Side::Buy ==> maker.reserved_quote.value() >= quote.value())
            &&& fill.value() == maker.remaining_base.value() ==> final(book).levels(maker_side).flatten()
                == old(book).levels(maker_side).flatten().drop_first()
            &&& fill.value() < maker.remaining_base.value() ==> {
                let flat = final(book).levels(maker_side).flatten();
                let old_flat = old(book).levels(maker_side).flatten();
                &&& flat.len() == old_flat.len()
                &&& flat.drop_first() == old_flat.drop_first()
                &&& flat[0].id == maker.id
                &&& flat[0].owner == maker.owner
                &&& flat[0].side == maker.side
                &&& flat[0].price == maker.price
                &&& flat[0].remaining_base.value() == maker.remaining_base.value() - fill.value()
                &&& flat[0].reserved_quote.value() == if maker.side == Side::Buy {
                    maker.reserved_quote.value() - quote.value()
                } else {
                    maker.reserved_quote.value() as int
                }
            }
        },
{
    let ghost lv0 = book.levels(maker_side);
    proof {
        lemma_first_level(&*book, maker_side);
    }
    let maker_new = match maker.remaining_base.checked_sub(fill) {
        Some(x) => x,
        None => {
            return Err(MatchError::SubUnderflow);
        },
    };
    let ghost mut m1 = maker;
    if maker.side == Side::Buy {
        let new_rq = match maker.reserved_quote.checked_sub(quote) {
            Some(x) => x,
            None => {
                return Err(MatchError::SubUnderflow);
            },
        };
        book.set_maker_reserved_quote(h, new_rq);
        proof {
            m1 = MakerView { reserved_quote: new_rq, ..maker };
            assert(book.levels(maker_side) == lv0.update(0, lv0[0].update(0, m1)));
        }
    }
    let ghost lv1 = book.levels(maker_side);
    proof {
        if maker.side != Side::Buy {
            assert(lv1 == lv0);
            assert(lv0[0].update(0, m1) =~= lv0[0]);
            assert(lv0.update(0, lv0[0]) =~= lv0);
        }
        assert(lv1 == lv0.update(0, lv0[0].update(0, m1)));
        assert(book.handles(maker_side)[0][0] == h);
        assert(at(book.handles(maker_side), 0, 0));
        lemma_flatten_first(lv0, m1);
    }
    if maker_new.is_zero() {
        book.remove_maker(h);
        proof {
            let lv2 = book.levels(maker_side);
            assert(lv2 == remove_at(lv1, 0, 0));
            assert(lv1.len() > 0 && lv1[0].len() > 0);
            lemma_flatten_first(lv1, m1);
            lemma_flatten_first(lv0, m1);
            assert(lv1.flatten().drop_first() =~= lv0.flatten().drop_first());
        }
    } else {
        book.set_maker_remaining(h, maker_new);
        proof {
            let m2 = MakerView { remaining_base: maker_new, ..m1 };
            assert(lv1[0][0] == m1);
            assert(lv1[0].update(0, m2) =~= lv0[0].update(0, m2));
            assert(lv1.update(0, lv1[0].update(0, m2)) =~= lv0.update(0, lv0[0].update(0, m2)));
            lemma_flatten_first(lv0, m2);
        }
    }
    Ok(())
}

/// The ceiling lock of a Buy Limit order covers the floor quote of every fill at a price not
/// above its limit.
proof fn lemma_limit_buy_budget(amount: nat, done: nat, f: nat, paid: nat, p: nat, l: nat)
    requires
        p <= l,
        done + f <= amount,
        paid <= quote_floor(done, l),
    ensures
        paid + quote_floor(f, p) <= quote_floor(done + f, l),
        quote_floor(done + f, l) <= quote_ceil(amount, l),
{
    lemma_floor_monotone_price(f, p, l);
    crate::math::lemma_floor_superadditive(done, f, l);
    crate::math::lemma_floor_monotone(done + f, amount, l);
    crate::math::lemma_ceil_floor(amount, l);
}

/// After `trades` were taken from the front of `ms`, `rem` base is left of what `fs` describes.
#[verifier::opaque]
pub open spec fn progress(ms: Seq<MakerView>, fs: Seq<nat>, o: IncomingOrder, trades: Seq<Trade>, rem: nat) -> bool {
    let j = trades.len() as int;
    &&& j <= fs.len()
    &&& j <= ms.len()
    &&& fills(ms.skip(j), o, rem) == fs.skip(j)
    &&& rem + sum(trade_bases(trades)) == o.amount_base.value()
    &&& forall|i: int| 0 <= i < j ==> trade_of(#[trigger] trades[i], ms[i], o, fs[i])
}

proof fn lemma_progress_init(ms: Seq<MakerView>, o: IncomingOrder)
    ensures
        progress(ms, fills(ms, o, o.amount_base.value()), o, Seq::empty(), o.amount_base.value()),
{
    reveal(progress);
    assert(ms.skip(0) =~= ms);
    assert(fills(ms, o, o.amount_base.value()).skip(0) =~= fills(ms, o, o.amount_base.value()));
    assert(trade_bases(Seq::<Trade>::empty()) =~= Seq::<nat>::empty());
}

proof fn lemma_progress_step(ms: Seq<MakerView>, fs: Seq<nat>, o: IncomingOrder, trades: Seq<Trade>, rem: nat, t: Trade)
    requires
        progress(ms, fs, o, trades, rem),
        trades.len() < ms.len(),
        rem > 0,
        o.kind == OrderKind::Market || crosses_spec(o.side, o.limit_price, ms[trades.len() as int].price),
        trade_of(t, ms[trades.len() as int], o, min_nat(rem, ms[trades.len() as int].remaining_base.value())),
    ensures
        trades.len() < fs.len(),
        fs[trades.len() as int] == min_nat(rem, ms[trades.len() as int].remaining_base.value()),
        progress(ms, fs, o, trades.push(t), (rem - fs[trades.len() as int]) as nat),
        rem == fs[trades.len() as int] ==> trades.len() + 1 == fs.len(),
{
    reveal(progress);
    let j = trades.len() as int;
    let f = min_nat(rem, ms[j].remaining_base.value());
    lemma_fills_step(ms, j, o, rem);
    assert(fs.skip(j).len() > 0);
    assert(fs.skip(j)[0] == fs[j]);
    assert(fs.skip(j).drop_first() =~= fs.skip(j + 1));
    let x = fills(ms.skip(j + 1), o, (rem - f) as nat);
    assert((seq![f] + x).drop_first() =~= x);
    assert(fills(ms.skip(j + 1), o, (rem - fs[j]) as nat) == fs.skip(j + 1));
    let nt = trades.push(t);
    assert(nt.drop_last() =~= trades);
    assert(trade_bases(nt) =~= trade_bases(trades).push(f));
    lemma_sum_push(trade_bases(trades), f);
    if rem == f {
        reveal(fills);
        assert(fs.skip(j + 1).len() == 0);
    }
    assert forall|i: int| 0 <= i < j + 1 implies trade_of(#[trigger] nt[i], ms[i], o, fs[i]) by {
        if i < j {
            assert(nt[i] == trades[i]);
        }
    }
}

proof fn lemma_progress_stop(ms: Seq<MakerView>, fs: Seq<nat>, o: IncomingOrder, trades: Seq<Trade>, rem: nat)
    requires
        progress(ms, fs, o, trades, rem),
        rem == 0 || trades.len() == ms.len() || (o.kind != OrderKind::Market && !crosses_spec(
            o.side,
            o.limit_price,
            ms[trades.len() as int].price,
        )),
    ensures
        trades.len() == fs.len(),
        forall|i: int| 0 <= i < fs.len() ==> trade_of(#[trigger] trades[i], ms[i], o, fs[i]),
        rem + sum(fs) == o.amount_base.value(),
{
    reveal(progress);
    reveal(fills);
    let j = trades.len() as int;
    assert(ms.skip(j).len() == 0 ==> fills(ms.skip(j), o, rem).len() == 0);
    if j < ms.len() {
        assert(ms.skip(j)[0] == ms[j]);
    }
    assert(fs.skip(j).len() == 0);
    assert(trade_bases(trades) =~= fs) by {
        assert forall|i: int| 0 <= i < fs.len() implies trade_bases(trades)[i] == fs[i] by {
            assert(trade_of(trades[i], ms[i], o, fs[i]));
        }
    }
}

proof fn lemma_progress_facts(ms: Seq<MakerView>, fs: Seq<nat>, o: IncomingOrder, trades: Seq<Trade>, rem: nat)
    requires
        progress(ms, fs, o, trades, rem),
    ensures
        trades.len() <= fs.len(),
        trades.len() <= ms.len(),
        rem <= o.amount_base.value(),
{
    reveal(progress);
}

proof fn lemma_run_step(ms: Seq<MakerView>, j: int, o: IncomingOrder, rem: nat, max: u32)
    requires
        0 <= j <= ms.len(),
        rem > 0,
        run_walk(ms.skip(j), o, rem, j as nat, max) is Ok,
    ensures
        j < max,
        j < ms.len() && (o.kind == OrderKind::Market || crosses_spec(o.side, o.limit_price, ms[j].price)) ==> {
            let f = min_nat(rem, ms[j].remaining_base.value());
            let p = ms[j].price.value();
            &&& fits_u256(f * p)
            &&& !(ms[j].side == Side::Buy && ms[j].reserved_quote.value() < quote_floor(f, p))
            &&& run_walk(ms.skip(j + 1), o, (rem - f) as nat, (j + 1) as nat, max) is Ok
        },
{
    reveal(run_walk);
    if j < ms.len() {
        assert(ms.skip(j)[0] == ms[j]);
        assert(ms.skip(j).drop_first() =~= ms.skip(j + 1));
    }
}

proof fn lemma_progress_next(ms: Seq<MakerView>, fs: Seq<nat>, o: IncomingOrder, trades: Seq<Trade>, rem: nat)
    requires
        progress(ms, fs, o, trades, rem),
        trades.len() < ms.len(),
        rem > 0,
        o.kind == OrderKind::Market || crosses_spec(o.side, o.limit_price, ms[trades.len() as int].price),
    ensures
        trades.len() < fs.len(),
        fs[trades.len() as int] == min_nat(rem, ms[trades.len() as int].remaining_base.value()),
{
    reveal(progress);
    let j = trades.len() as int;
    lemma_fills_step(ms, j, o, rem);
    assert(fs.skip(j).len() > 0);
    assert(fs.skip(j)[0] == fs[j]);
}

/// What a successful `execute` of `o` does, over the ladders of the taker's opposite side
/// (`old_opp`, `new_opp`) and of its own side (`old_own`, `new_own`): a rejected fill-or-kill
/// order changes nothing; otherwise the trades take the fills from the front of the opposite
/// ladder at the makers' prices, the takers' completion follows from them, the filled makers
/// leave or shrink, and only a Limit remainder is placed.
pub open spec fn exec_ok(
    o: IncomingOrder,
    limits: EngineLimits,
    old_opp: Seq<Seq<MakerView>>,
    old_own: Seq<Seq<MakerView>>,
    new_opp: Seq<Seq<MakerView>>,
    new_own: Seq<Seq<MakerView>>,
    trades: Seq<Trade>,
    c: Completion,
) -> bool {
    let ms = old_opp.flatten();
    let fs = fills(ms, o, o.amount_base.value());
    let fok = fok_walk(ms, o.side, o.limit_price, o.amount_base.value(), 0, limits.max_preview_scans);
    &&& validation_error(o) is None
    &&& (c == Completion::Rejected <==> (o.kind == OrderKind::FillOrKill && fok == Ok::<bool, MatchError>(false)))
    &&& c == Completion::Rejected ==> trades.len() == 0 && new_opp == old_opp && new_own == old_own
    &&& c != Completion::Rejected ==> {
        &&& trades.len() == fs.len()
        &&& forall|i: int| 0 <= i < fs.len() ==> trade_of(#[trigger] trades[i], ms[i], o, fs[i])
        &&& completes(c, o, fs, sum(trade_quotes(trades)))
        &&& taken(new_opp.flatten(), ms, fs)
        &&& new_own == if c is Placed {
            place(old_own, o.side, maker_of(RestingOrder {
                id: o.id,
                owner: o.owner,
                side: o.side,
                price: o.limit_price,
                remaining_base: c->Placed_remaining_base,
                remaining_quote: c->Placed_remaining_quote,
            }))
        } else {
            old_own
        }
        &&& o.kind == OrderKind::Market && o.side == Side::Buy ==> sum(trade_quotes(trades)) <= o.max_quote.value()
    }
}

/// Why `execute` of `o` may fail on a book whose opposite ladder is `old_opp`: the order is
/// malformed, a preview fails, the ceiling lock of a Buy Limit overflows, or the fill loop
/// would fail.
pub open spec fn match_error(o: IncomingOrder, limits: EngineLimits, old_opp: Seq<Seq<MakerView>>, e: MatchError) -> bool {
    let ms = old_opp.flatten();
    let budget = budget_walk(ms, o.amount_base.value(), 0, o.max_quote.value(), 0, limits.max_preview_scans);
    let fok = fok_walk(ms, o.side, o.limit_price, o.amount_base.value(), 0, limits.max_preview_scans);
    ||| validation_error(o) matches Some(reason) && e == MatchError::InvalidOrder(reason)
    ||| validation_error(o) is None && o.kind == OrderKind::Market && o.side == Side::Buy && budget == Err::<
        (),
        MatchError,
    >(e)
    ||| validation_error(o) is None && o.kind == OrderKind::FillOrKill && fok == Err::<bool, MatchError>(e)
    ||| o.kind == OrderKind::Limit && o.side == Side::Buy && e == MatchError::MulOverflow && !crate::math::product_fits(
        o.amount_base.value(),
        o.limit_price.value(),
    )
    ||| run_walk(ms, o, o.amount_base.value(), 0, limits.max_trades) == Err::<(), MatchError>(e)
}

/// Matches `order` against the book by price-time priority, then places a Limit remainder,
/// drops a Market or IOC remainder, and rejects a fill-or-kill order that cannot fill whole.
#[verifier::rlimit(100)]
pub fn execute<B: Book>(book: &mut B, order: &IncomingOrder, limits: EngineLimits) -> (r: Result<ExecutionReport, MatchError>)
    requires
        old(book).wf(),
        order.kind == OrderKind::Limit ==> old(book).can_rest(order.id),
    ensures
        final(book).wf(),
        validation_error(*order) matches Some(reason) ==> r == Err::<ExecutionReport, MatchError>(
            MatchError::InvalidOrder(reason),
        ) && *final(book) == *old(book),
        ({
            let ms = old(book).levels(order.side.opposite_spec()).flatten();
            let fs = fills(ms, *order, order.amount_base.value());
            let budget = budget_walk(ms, order.amount_base.value(), 0, order.max_quote.value(), 0, limits.max_preview_scans);
            let fok = fok_walk(ms, order.side, order.limit_price, order.amount_base.value(), 0, limits.max_preview_scans);
            let own = order.side;
            let opp = order.side.opposite_spec();
            &&& validation_error(*order) is None && order.kind == OrderKind::Market && order.side == Side::Buy
                && budget is Err ==> r == Err::<ExecutionReport, MatchError>(budget->Err_0) && *final(book) == *old(book)
            &&& validation_error(*order) is None && order.kind == OrderKind::FillOrKill && fok is Err
                ==> r == Err::<ExecutionReport, MatchError>(fok->Err_0) && *final(book) == *old(book)
            &&& validation_error(*order) is None && order.kind == OrderKind::FillOrKill && fok == Ok::<bool, MatchError>(false)
                ==> (r matches Ok(rep) && rep.trades@.len() == 0 && rep.completion == Completion::Rejected)
                && *final(book) == *old(book)
            &&& r matches Ok(rep) ==> (rep.completion == Completion::Rejected <==> (order.kind == OrderKind::FillOrKill
                && fok == Ok::<bool, MatchError>(false)))
            &&& r matches Ok(rep) ==> (order.kind == OrderKind::FillOrKill || (order.kind == OrderKind::Market
                && order.side == Side::Buy) ==> rep.completion == Completion::Filled || rep.completion
                == Completion::Rejected)
            &&& r is Ok && r->Ok_0.completion != Completion::Rejected ==> {
                let rep = r->Ok_0;
                &&& validation_error(*order) is None
                &&& rep.trades@.len() == fs.len()
                &&& forall|i: int| 0 <= i < fs.len() ==> trade_of(#[trigger] rep.trades@[i], ms[i], *order, fs[i])
                &&& completes(rep.completion, *order, fs, sum(trade_quotes(rep.trades@)))
                &&& taken(final(book).levels(opp).flatten(), ms, fs)
                &&& final(book).levels(own) == if rep.completion is Placed {
                    place(old(book).levels(own), own, maker_of(RestingOrder {
                        id: order.id,
                        owner: order.owner,
                        side: order.side,
                        price: order.limit_price,
                        remaining_base: rep.completion->Placed_remaining_base,
                        remaining_quote: rep.completion->Placed_remaining_quote,
                    }))
                } else {
                    old(book).levels(own)
                }
                &&& order.kind == OrderKind::Market && order.side == Side::Buy ==> sum(trade_quotes(rep.trades@))
                    <= order.max_quote.value()
            }
            &&& r matches Err(e) ==> !(e is BrokenBook) && e != MatchError::FokCheckInconsistent && e
                != MatchError::MarketBuyBudgetCheckInconsistent && e != MatchError::MarketBuyLiquidityCheckInconsistent
            &&& r matches Err(e) ==> validation_error(*order) is Some || (order.kind == OrderKind::Market && order.side
                == Side::Buy && budget is Err) || (order.kind == OrderKind::FillOrKill && fok is Err) || (order.kind
                == OrderKind::Limit && order.side == Side::Buy && e == MatchError::MulOverflow
                && !crate::math::product_fits(order.amount_base.value(), order.limit_price.value())) || run_walk(
                ms,
                *order,
                order.amount_base.value(),
                0,
                limits.max_trades,
            ) == Err::<(), MatchError>(e)
            &&& r is Err ==> *final(book) == *old(book)
            &&& r matches Ok(rep) ==> exec_ok(
                *order,
                limits,
                old(book).levels(opp),
                old(book).levels(own),
                final(book).levels(opp),
                final(book).levels(own),
                rep.trades@,
                rep.completion,
            )
            &&& r matches Err(e) ==> match_error(*order, limits, old(book).levels(opp), e)
        }),
{
    let maker_side = order.side.opposite();
    let ghost own = order.side;
    let ghost ms0 = book.levels(maker_side).flatten();
    let ghost own0 = book.levels(own);
    let ghost fs0 = fills(ms0, *order, order.amount_base.value());
    let ghost amount = order.amount_base.value();
    match validate(order) {
        Ok(()) => {},
        Err(e) => {
            return Err(e);
        },
    }
    let is_strict_market_buy = order.kind == OrderKind::Market && order.side == Side::Buy;
    if is_strict_market_buy {
        match preview_market_buy_budget_strict(book, order, limits) {
            Ok(()) => {
                assert(ms0 == book.levels(Side::Sell).flatten());
            },
            Err(e) => {
                proof {
                    lemma_budget_errors(book.levels(Side::Sell).flatten(), order.amount_base.value(), 0, order.max_quote.value(), 0, limits.max_preview_scans);
                }
                return Err(e);
            },
        }
    }
    if order.kind == OrderKind::FillOrKill {
        let ok = match preview_fillable(book, order, limits.max_preview_scans) {
            Ok(b) => b,
            Err(e) => {
                proof {
                    lemma_fok_errors(book.levels(order.side.opposite_spec()).flatten(), order.side, order.limit_price, order.amount_base.value(), 0, limits.max_preview_scans);
                }
                return Err(e);
            },
        };
        if !ok {
            return Ok(ExecutionReport { trades: Vec::new(), completion: Completion::Rejected });
        }
    }
    let track_limit_buy_quote = order.kind == OrderKind::Limit && order.side == Side::Buy;
    let mut remaining_quote = if track_limit_buy_quote {
        match calc_quote_ceil(order.amount_base, order.limit_price) {
            Ok(q) => q,
            Err(e) => {
                return Err(e);
            },
        }
    } else {
        U256::zero()
    };
    match preview_execution(book, order, limits) {
        Ok(()) => {},
        Err(e) => {
            proof {
                assert(ms0 == book.levels(order.side.opposite_spec()).flatten());
                lemma_run_errors(ms0, *order, amount, 0, limits.max_trades);
            }
            return Err(e);
        },
    }
    let mut remaining = order.amount_base;
    let mut trades: Vec<Trade> = Vec::new();
    let mut spent_quote = U256::zero();
    proof {
        assert(ms0.skip(0) =~= ms0);
        lemma_progress_init(ms0, *order);
        assert(trades@ =~= Seq::<Trade>::empty());
        assert(ms0.skip(0) =~= ms0);
        assert(trade_quotes(trades@) =~= Seq::<nat>::empty());
    }
    loop
        invariant
            book.wf(),
            maker_side == order.side.opposite_spec(),
            own == order.side,
            validation_error(*order) is None,
            amount == order.amount_base.value(),
            ms0 == old(book).levels(maker_side).flatten(),
            fs0 == fills(ms0, *order, amount),
            own0 == old(book).levels(own),
            book.levels(own) == own0,
            order.kind == OrderKind::Limit ==> book.can_rest(order.id),
            track_limit_buy_quote == (order.kind == OrderKind::Limit && order.side == Side::Buy),
            is_strict_market_buy == (order.kind == OrderKind::Market && order.side == Side::Buy),
            progress(ms0, fs0, *order, trades@, remaining.value()),
            is_strict_market_buy ==> budget_walk(ms0, amount, 0, order.max_quote.value(), 0, limits.max_preview_scans) is Ok,
            order.kind == OrderKind::FillOrKill ==> fok_walk(ms0, order.side, order.limit_price, amount, 0, limits.max_preview_scans)
                == Ok::<bool, MatchError>(true),
            remaining.value() > 0 ==> book.levels(maker_side).flatten() == ms0.skip(trades@.len() as int),
            remaining.value() == 0 ==> taken(book.levels(maker_side).flatten(), ms0, fs0),
            is_strict_market_buy ==> spent_quote.value() == sum(trade_quotes(trades@)),
            is_strict_market_buy && remaining.value() > 0 ==> budget_walk(
                ms0.skip(trades@.len() as int),
                remaining.value(),
                spent_quote.value(),
                order.max_quote.value(),
                trades@.len() as nat,
                limits.max_preview_scans,
            ) is Ok,
            is_strict_market_buy ==> sum(trade_quotes(trades@)) <= order.max_quote.value(),
            order.kind == OrderKind::FillOrKill && remaining.value() > 0 ==> fok_walk(
                ms0.skip(trades@.len() as int),
                order.side,
                order.limit_price,
                remaining.value(),
                trades@.len() as nat,
                limits.max_preview_scans,
            ) == Ok::<bool, MatchError>(true),
            track_limit_buy_quote ==> remaining_quote.value() == quote_ceil(amount, order.limit_price.value())
                - sum(trade_quotes(trades@)),
            track_limit_buy_quote ==> sum(trade_quotes(trades@)) <= quote_floor(
                (amount - remaining.value()) as nat,
                order.limit_price.value(),
            ),
            !track_limit_buy_quote ==> remaining_quote.value() == 0,
            remaining.value() > 0 && trades@.len() > 0 ==> fs0[trades@.len() - 1] == ms0[trades@.len() - 1].remaining_base.value(),
            run_walk(ms0.skip(trades@.len() as int), *order, remaining.value(), trades@.len() as nat, limits.max_trades) is Ok,
        ensures
            trades@.len() == fs0.len(),
            forall|i: int| 0 <= i < fs0.len() ==> trade_of(#[trigger] trades@[i], ms0[i], *order, fs0[i]),
            remaining.value() + sum(fs0) == amount,
            remaining.value() > 0 ==> book.levels(maker_side).flatten() == ms0.skip(trades@.len() as int),
            is_strict_market_buy ==> remaining.value() == 0,
            order.kind == OrderKind::FillOrKill ==> remaining.value() == 0,
        decreases remaining.value(),
    {
        let ghost j = trades@.len() as int;
        proof {
            lemma_progress_facts(ms0, fs0, *order, trades@, remaining.value());
        }
        if remaining.is_zero() {
            proof {
                lemma_progress_stop(ms0, fs0, *order, trades@, remaining.value());
            }
            break;
        }
        proof {
            lemma_progress_facts(ms0, fs0, *order, trades@, remaining.value());
            lemma_run_step(ms0, trades@.len() as int, *order, remaining.value(), limits.max_trades);
        }
        if trades.len() >= limits.max_trades as usize {
            return Err(MatchError::TradeLimitReached { max_trades: limits.max_trades });
        }
        let ghost lv = book.levels(maker_side);
        proof {
            if is_strict_market_buy {
                lemma_budget_step(ms0, j, remaining.value(), spent_quote.value(), order.max_quote.value(), limits.max_preview_scans);
            }
            if order.kind == OrderKind::FillOrKill {
                lemma_fok_step(ms0, j, order.side, order.limit_price, remaining.value(), limits.max_preview_scans);
            }
        }
        let price = match book.best_price(maker_side) {
            Some(p) => p,
            None => {
                proof {
                    assert(lv.flatten().len() == 0);
                    assert(ms0.skip(j).len() == 0);
                    lemma_progress_stop(ms0, fs0, *order, trades@, remaining.value());
                }
                break;
            },
        };
        proof {
            lemma_first_level(&*book, maker_side);
            lemma_flatten_first(lv, lv[0][0]);
            assert(ms0.skip(j)[0] == ms0[j]);
        }
        if order.kind != OrderKind::Market && !crosses(order.side, order.limit_price, price) {
            proof {
                lemma_progress_stop(ms0, fs0, *order, trades@, remaining.value());
            }
            break;
        }
        let (h, maker) = match head_maker(book, maker_side, price) {
            Ok(x) => x,
            Err(e) => {
                return Err(e);
            },
        };
        let fill = remaining.min(maker.remaining_base);
        proof {
            lemma_progress_next(ms0, fs0, *order, trades@, remaining.value());
            lemma_run_step(ms0, j, *order, remaining.value(), limits.max_trades);
        }
        let quote = match calc_quote_floor(fill, price) {
            Ok(q) => q,
            Err(e) => {
                proof {
                    assert(!fits_u256(fs0[j] * ms0[j].price.value()));
                }
                return Err(e);
            },
        };
        if is_strict_market_buy {
            spent_quote = match spent_quote.checked_add(quote) {
                Some(x) => x,
                None => {
                    return Err(MatchError::AddOverflow);
                },
            };
            if order.max_quote.lt(&spent_quote) {
                return Err(MatchError::MarketBuyBudgetCheckInconsistent);
            }
        }
        if track_limit_buy_quote {
            proof {
                lemma_limit_buy_budget(
                    amount,
                    (amount - remaining.value()) as nat,
                    fill.value(),
                    sum(trade_quotes(trades@)),
                    price.value(),
                    order.limit_price.value(),
                );
            }
            remaining_quote = match remaining_quote.checked_sub(quote) {
                Some(x) => x,
                None => {
                    return Err(MatchError::SubUnderflow);
                },
            };
        }
        match apply_fill(book, maker_side, h, maker, fill, quote) {
            Ok(()) => {},
            Err(e) => {
                proof {
                    assert(ms0[j].side == Side::Buy && ms0[j].reserved_quote.value() < quote_floor(fs0[j], ms0[j].price.value()));
                }
                return Err(e);
            },
        }
        let ghost trades0 = trades@;
        let refund = if maker.side == Side::Buy && fill.eq_value(&maker.remaining_base) {
            match maker.reserved_quote.checked_sub(quote) {
                Some(x) => x,
                None => U256::zero(),
            }
        } else {
            U256::zero()
        };
        let t = Trade {
            maker_order_id: maker.id,
            taker_order_id: order.id,
            maker: maker.owner,
            taker: order.owner,
            price,
            amount_base: fill,
            amount_quote: quote,
            maker_refund_quote: refund,
        };
        trades.push(t);
        proof {
            lemma_progress_step(ms0, fs0, *order, trades0, remaining.value(), t);
            assert(trades@ == trades0.push(t));
            assert(trade_quotes(trades@) =~= trade_quotes(trades0).push(quote.value()));
            lemma_sum_push(trade_quotes(trades0), quote.value());
            assert(ms0.skip(j + 1) =~= ms0.skip(j).drop_first());
        }
        remaining = match remaining.checked_sub(fill) {
            Some(x) => x,
            None => {
                return Err(MatchError::SubUnderflow);
            },
        };
    }
    if is_strict_market_buy && !remaining.is_zero() {
        return Err(MatchError::MarketBuyLiquidityCheckInconsistent);
    }
    if remaining.is_zero() {
        return Ok(ExecutionReport { trades, completion: Completion::Filled });
    }
    match order.kind {
        OrderKind::Limit => {
            let remaining_quote = if track_limit_buy_quote {
                remaining_quote
            } else {
                U256::zero()
            };
            book.insert_resting(
                RestingOrder {
                    id: order.id,
                    owner: order.owner,
                    side: order.side,
                    price: order.limit_price,
                    remaining_base: remaining,
                    remaining_quote,
                },
            );
            Ok(
                ExecutionReport {
                    trades,
                    completion: Completion::Placed { remaining_base: remaining, remaining_quote },
                },
            )
        },
        OrderKind::Market | OrderKind::ImmediateOrCancel => Ok(
            ExecutionReport { trades, completion: Completion::Cancelled { remaining_base: remaining } },
        ),
        OrderKind::FillOrKill => Err(MatchError::FokCheckInconsistent),
    }
}

} // verus!
