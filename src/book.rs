use vstd::prelude::*;

use crate::arena::Index;
use crate::types::{MakerView, OrderId, RestingOrder, Side};
use crate::u256::U256;

verus! {

/// Whether price `a` ranks strictly ahead of price `b` among makers on `side`: lower for asks,
/// higher for bids.
pub open spec fn better(side: Side, a: U256, b: U256) -> bool {
    match side {
        Side::Buy => a.value() > b.value(),
        Side::Sell => a.value() < b.value(),
    }
}

/// The handle at level `li`, position `k`, of `handles`, if there is one.
pub open spec fn at(handles: Seq<Seq<Index>>, li: int, k: int) -> bool {
    0 <= li < handles.len() && 0 <= k < handles[li].len()
}

/// A ladder of one side as the engine sees it: levels best first, each a non-empty FIFO of
/// makers of that side at one price, prices strictly worsening, every maker with base left,
/// one distinct handle per maker.
pub open spec fn ladder_ok(side: Side, levels: Seq<Seq<MakerView>>, handles: Seq<Seq<Index>>) -> bool {
    &&& levels.len() == handles.len()
    &&& forall|li: int|
        0 <= li < levels.len() ==> (#[trigger] levels[li]).len() > 0 && levels[li].len()
            == handles[li].len()
    &&& forall|li: int, k: int|
        0 <= li < levels.len() && 0 <= k < levels[li].len() ==> {
            let m = #[trigger] levels[li][k];
            &&& m.side == side
            &&& m.price == levels[li][0].price
            &&& m.remaining_base.value() > 0
        }
    &&& forall|i: int, j: int|
        0 <= i < j < levels.len() ==> better(side, levels[i][0].price, levels[j][0].price)
    &&& forall|l1: int, k1: int, l2: int, k2: int|
        at(handles, l1, k1) && at(handles, l2, k2) && (l1 != l2 || k1 != k2) ==> (
        #[trigger] handles[l1][k1])@ != (#[trigger] handles[l2][k2])@
}

/// The ladder after the maker at level `li`, position `k`, leaves; an emptied level goes.
pub open spec fn remove_at<A>(levels: Seq<Seq<A>>, li: int, k: int) -> Seq<Seq<A>> {
    if levels[li].len() == 1 {
        levels.remove(li)
    } else {
        levels.update(li, levels[li].remove(k))
    }
}

/// Number of leading levels whose price ranks strictly ahead of `p`.
pub open spec fn better_count(levels: Seq<Seq<MakerView>>, side: Side, p: U256) -> nat
    decreases levels.len(),
{
    if levels.len() == 0 {
        0
    } else if better(side, levels[0][0].price, p) {
        1 + better_count(levels.drop_first(), side, p)
    } else {
        0
    }
}

/// The ladder after `m` is queued at its price: at the back of the level with that price, or
/// alone in a new level at its rank.
pub open spec fn place(levels: Seq<Seq<MakerView>>, side: Side, m: MakerView) -> Seq<Seq<MakerView>> {
    let pos = better_count(levels, side, m.price) as int;
    if pos < levels.len() && levels[pos][0].price == m.price {
        levels.update(pos, levels[pos].push(m))
    } else {
        levels.insert(pos, seq![m])
    }
}

/// The maker a resting order becomes.
pub open spec fn maker_of(o: RestingOrder) -> MakerView {
    MakerView {
        id: o.id,
        owner: o.owner,
        side: o.side,
        price: o.price,
        remaining_base: o.remaining_base,
        reserved_quote: o.remaining_quote,
    }
}

/// The price of the first level, in rank order, that ranks strictly behind `price`.
pub open spec fn next_price_spec(levels: Seq<Seq<MakerView>>, side: Side, price: U256) -> Option<U256>
    decreases levels.len(),
{
    if levels.len() == 0 {
        None
    } else if better(side, price, levels[0][0].price) {
        Some(levels[0][0].price)
    } else {
        next_price_spec(levels.drop_first(), side, price)
    }
}

/// The handle of the first maker of the level at `price`, if there is such a level.
pub open spec fn head_spec(levels: Seq<Seq<MakerView>>, handles: Seq<Seq<Index>>, price: U256) -> Option<Index>
    decreases levels.len(),
{
    if levels.len() == 0 || handles.len() == 0 {
        None
    } else if levels[0][0].price == price {
        Some(handles[0][0])
    } else {
        head_spec(levels.drop_first(), handles.drop_first(), price)
    }
}

/// Levels that rank ahead of `price` can be skipped when looking for the next price.
pub proof fn lemma_next_price_skip(levels: Seq<Seq<MakerView>>, side: Side, price: U256, n: int)
    requires
        0 <= n <= levels.len(),
        forall|j: int| 0 <= j < n ==> !better(side, price, #[trigger] levels[j][0].price),
    ensures
        next_price_spec(levels, side, price) == next_price_spec(levels.skip(n), side, price),
    decreases n,
{
    if n > 0 {
        assert(levels.drop_first().skip(n - 1) =~= levels.skip(n));
        assert forall|j: int| 0 <= j < n - 1 implies !better(side, price, #[trigger] levels.drop_first()[j][0].price) by {
            assert(levels.drop_first()[j] == levels[j + 1]);
        }
        lemma_next_price_skip(levels.drop_first(), side, price, n - 1);
    } else {
        assert(levels.skip(0) =~= levels);
    }
}

/// Levels at other prices can be skipped when looking for the level at `price`.
pub proof fn lemma_head_skip(levels: Seq<Seq<MakerView>>, handles: Seq<Seq<Index>>, price: U256, n: int)
    requires
        0 <= n <= levels.len(),
        levels.len() == handles.len(),
        forall|j: int| 0 <= j < n ==> #[trigger] levels[j][0].price != price,
    ensures
        head_spec(levels, handles, price) == head_spec(levels.skip(n), handles.skip(n), price),
    decreases n,
{
    if n > 0 {
        assert(levels.drop_first().skip(n - 1) =~= levels.skip(n));
        assert(handles.drop_first().skip(n - 1) =~= handles.skip(n));
        assert forall|j: int| 0 <= j < n - 1 implies #[trigger] levels.drop_first()[j][0].price != price by {
            assert(levels.drop_first()[j] == levels[j + 1]);
        }
        lemma_head_skip(levels.drop_first(), handles.drop_first(), price, n - 1);
    } else {
        assert(levels.skip(0) =~= levels);
        assert(handles.skip(0) =~= handles);
    }
}

/// On a ladder sorted best first, `better_count` is the first level that does not rank ahead.
pub proof fn lemma_better_count(levels: Seq<Seq<MakerView>>, side: Side, p: U256, n: int)
    requires
        0 <= n <= levels.len(),
        forall|j: int| 0 <= j < n ==> better(side, #[trigger] levels[j][0].price, p),
        n == levels.len() || !better(side, levels[n][0].price, p),
    ensures
        better_count(levels, side, p) == n,
    decreases n,
{
    if n > 0 {
        assert forall|j: int| 0 <= j < n - 1 implies better(side, #[trigger] levels.drop_first()[j][0].price, p) by {
            assert(levels.drop_first()[j] == levels[j + 1]);
        }
        if n < levels.len() {
            assert(levels.drop_first()[n - 1] == levels[n]);
        }
        lemma_better_count(levels.drop_first(), side, p, n - 1);
    }
}

/// What the matching engine needs of an order book.
pub trait Book {
    spec fn wf(&self) -> bool;

    /// The price levels of makers on `side`, best first, each in arrival order.
    spec fn levels(&self, side: Side) -> Seq<Seq<MakerView>>;

    /// The handles of those makers, in the same shape.
    spec fn handles(&self, side: Side) -> Seq<Seq<Index>>;

    /// Whether a resting order with this id can be inserted: there is room, and the id is
    /// not in the book.
    spec fn can_rest(&self, id: OrderId) -> bool;

    proof fn lemma_wf(&self)
        requires
            self.wf(),
        ensures
            ladder_ok(Side::Buy, self.levels(Side::Buy), self.handles(Side::Buy)),
            ladder_ok(Side::Sell, self.levels(Side::Sell), self.handles(Side::Sell)),
            forall|l1: int, k1: int, l2: int, k2: int|
                at(self.handles(Side::Buy), l1, k1) && at(self.handles(Side::Sell), l2, k2) ==> (
                #[trigger] self.handles(Side::Buy)[l1][k1])@ != (#[trigger] self.handles(
                    Side::Sell,
                )[l2][k2])@,
    ;

    /// Best price on `maker_side`: lowest ask or highest bid.
    fn best_price(&self, maker_side: Side) -> (r: Option<U256>)
        requires
            self.wf(),
        ensures
            r == if self.levels(maker_side).len() > 0 {
                Some(self.levels(maker_side)[0][0].price)
            } else {
                None
            },
    ;

    /// The next price after `price` on `maker_side`, towards worse prices.
    fn next_price(&self, maker_side: Side, price: U256) -> (r: Option<U256>)
        requires
            self.wf(),
        ensures
            r == next_price_spec(self.levels(maker_side), maker_side, price),
    ;

    /// The first maker of the level at `price`.
    fn level_head(&self, maker_side: Side, price: U256) -> (r: Option<Index>)
        requires
            self.wf(),
        ensures
            r == head_spec(self.levels(maker_side), self.handles(maker_side), price),
    ;

    /// The maker after `h` in its level.
    fn next_in_level(&self, h: Index) -> (r: Option<Index>)
        requires
            self.wf(),
        ensures
            forall|side: Side, li: int, k: int|
                at(self.handles(side), li, k) && #[trigger] self.handles(side)[li][k] == h ==> r == if k
                    + 1 < self.handles(side)[li].len() {
                    Some(self.handles(side)[li][k + 1])
                } else {
                    None
                },
    ;

    fn get_maker(&self, h: Index) -> (r: Option<MakerView>)
        requires
            self.wf(),
        ensures
            forall|side: Side, li: int, k: int|
                at(self.handles(side), li, k) && #[trigger] self.handles(side)[li][k] == h ==> r == Some(
                    self.levels(side)[li][k],
                ),
            (forall|side: Side, li: int, k: int|
                at(self.handles(side), li, k) ==> #[trigger] self.handles(side)[li][k] != h) ==> r is None,
    ;

    /// Sets the base left of the maker `h`.
    fn set_maker_remaining(&mut self, h: Index, new_remaining_base: U256)
        requires
            old(self).wf(),
            exists|side: Side, li: int, k: int|
                at(old(self).handles(side), li, k) && #[trigger] old(self).handles(side)[li][k] == h,
            new_remaining_base.value() > 0,
        ensures
            final(self).wf(),
            final(self).handles(Side::Buy) == old(self).handles(Side::Buy),
            final(self).handles(Side::Sell) == old(self).handles(Side::Sell),
            forall|side: Side, li: int, k: int|
                at(old(self).handles(side), li, k) && #[trigger] old(self).handles(side)[li][k] == h
                    ==> final(self).levels(side) == old(self).levels(side).update(
                    li,
                    old(self).levels(side)[li].update(
                        k,
                        MakerView { remaining_base: new_remaining_base, ..old(self).levels(side)[li][k] },
                    ),
                ) && final(self).levels(side.opposite_spec()) == old(self).levels(side.opposite_spec()),
            forall|id: OrderId| old(self).can_rest(id) ==> final(self).can_rest(id),
    ;

    /// Sets the quote held in escrow by the maker `h`.
    fn set_maker_reserved_quote(&mut self, h: Index, new_reserved_quote: U256)
        requires
            old(self).wf(),
            exists|side: Side, li: int, k: int|
                at(old(self).handles(side), li, k) && #[trigger] old(self).handles(side)[li][k] == h,
        ensures
            final(self).wf(),
            final(self).handles(Side::Buy) == old(self).handles(Side::Buy),
            final(self).handles(Side::Sell) == old(self).handles(Side::Sell),
            forall|side: Side, li: int, k: int|
                at(old(self).handles(side), li, k) && #[trigger] old(self).handles(side)[li][k] == h
                    ==> final(self).levels(side) == old(self).levels(side).update(
                    li,
                    old(self).levels(side)[li].update(
                        k,
                        MakerView { reserved_quote: new_reserved_quote, ..old(self).levels(side)[li][k] },
                    ),
                ) && final(self).levels(side.opposite_spec()) == old(self).levels(side.opposite_spec()),
            forall|id: OrderId| old(self).can_rest(id) ==> final(self).can_rest(id),
    ;

    /// Removes the maker `h`; a level it leaves empty goes too.
    fn remove_maker(&mut self, h: Index)
        requires
            old(self).wf(),
            exists|side: Side, li: int, k: int|
                at(old(self).handles(side), li, k) && #[trigger] old(self).handles(side)[li][k] == h,
        ensures
            final(self).wf(),
            forall|side: Side, li: int, k: int|
                at(old(self).handles(side), li, k) && #[trigger] old(self).handles(side)[li][k] == h
                    ==> {
                    &&& final(self).levels(side) == remove_at(old(self).levels(side), li, k)
                    &&& final(self).handles(side) == remove_at(old(self).handles(side), li, k)
                    &&& final(self).levels(side.opposite_spec()) == old(self).levels(side.opposite_spec())
                    &&& final(self).handles(side.opposite_spec()) == old(self).handles(side.opposite_spec())
                },
            forall|id: OrderId| old(self).can_rest(id) ==> final(self).can_rest(id),
    ;

    /// Queues a limit remainder at its price.
    fn insert_resting(&mut self, o: RestingOrder)
        requires
            old(self).wf(),
            old(self).can_rest(o.id),
            o.remaining_base.value() > 0,
        ensures
            final(self).wf(),
            final(self).levels(o.side) == place(old(self).levels(o.side), o.side, maker_of(o)),
            final(self).levels(o.side.opposite_spec()) == old(self).levels(o.side.opposite_spec()),
    ;
}

} // verus!
