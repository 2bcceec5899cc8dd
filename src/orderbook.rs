use std::collections::BTreeMap;

use vstd::prelude::*;

use crate::arena::{Arena, Index};
use crate::book::{
    at, better, ladder_ok, lemma_better_count, lemma_head_skip, lemma_next_price_skip, place, remove_at, Book,
};
use crate::list::{chain_ok, distinct_slots, List, Node};
use crate::types::{MakerView, OrderId, RestingOrder, Side};
use crate::u256::U256;

verus! {

/// One price level: the makers at `price`, oldest first.
#[derive(Clone, Copy)]
pub struct PriceLevel {
    pub price: U256,
    pub fifo: List,
}

/// The two ladders of a market over one arena, with an index from order id to handle.
pub struct OrderBook {
    arena: Arena<Node<MakerView>>,
    /// Makers on the Buy side, best (highest) price first.
    bids: Vec<PriceLevel>,
    /// Makers on the Sell side, best (lowest) price first.
    asks: Vec<PriceLevel>,
    by_id: BTreeMap<OrderId, Index>,
}

pub open spec fn lv_of(vec: Seq<PriceLevel>, m: Map<nat, Node<MakerView>>) -> Seq<Seq<MakerView>> {
    vec.map_values(|l: PriceLevel| l.fifo.values(m))
}

pub open spec fn hs_of(vec: Seq<PriceLevel>) -> Seq<Seq<Index>> {
    vec.map_values(|l: PriceLevel| l.fifo.node_seq())
}

/// The maker stored at level `li`, position `k`.
pub open spec fn value_at(vec: Seq<PriceLevel>, m: Map<nat, Node<MakerView>>, li: int, k: int) -> MakerView {
    m[vec[li].fifo.node_seq()[k]@].value
}

/// A ladder of `side` stored in `vec` over the arena slots `m`.
pub open spec fn side_ok(side: Side, vec: Seq<PriceLevel>, m: Map<nat, Node<MakerView>>) -> bool {
    &&& forall|li: int|
        0 <= li < vec.len() ==> (#[trigger] vec[li]).fifo.wf_in(m) && vec[li].fifo.node_seq().len() > 0
    &&& forall|li: int, k: int|
        at(hs_of(vec), li, k) ==> {
            let v = #[trigger] value_at(vec, m, li, k);
            &&& v.side == side
            &&& v.price == vec[li].price
            &&& v.remaining_base.value() > 0
        }
    &&& forall|i: int, j: int| 0 <= i < j < vec.len() ==> better(side, vec[i].price, vec[j].price)
}

proof fn lemma_chain_frame(n: Seq<Index>, m: Map<nat, Node<MakerView>>, m2: Map<nat, Node<MakerView>>)
    requires
        chain_ok(n, m),
        forall|k: int| 0 <= k < n.len() ==> #[trigger] m2.contains_key(n[k]@) && m2[n[k]@] == m[n[k]@],
    ensures
        chain_ok(n, m2),
        n.map_values(|i: Index| m2[i@].value) == n.map_values(|i: Index| m[i@].value),
{
    assert forall|k: int| 0 <= k < n.len() implies (#[trigger] m2[n[k]@]).prev == crate::list::prev_link(n, k) by {
        assert(m2.contains_key(n[k]@));
    }
    assert forall|k: int| 0 <= k < n.len() implies (#[trigger] m2[n[k]@]).next == crate::list::next_link(n, k) by {
        assert(m2.contains_key(n[k]@));
    }
    assert(n.map_values(|i: Index| m2[i@].value) =~= n.map_values(|i: Index| m[i@].value)) by {
        assert forall|k: int| 0 <= k < n.len() implies m2[n[k]@].value == m[n[k]@].value by {
            assert(m2.contains_key(n[k]@));
        }
    }
}

/// A ladder is unaffected by slots that none of its makers occupies.
proof fn lemma_ladder_frame(side: Side, vec: Seq<PriceLevel>, m: Map<nat, Node<MakerView>>, m2: Map<nat, Node<MakerView>>)
    requires
        side_ok(side, vec, m),
        forall|li: int, k: int|
            at(hs_of(vec), li, k) ==> #[trigger] m2.contains_key(vec[li].fifo.node_seq()[k]@)
                && m2[vec[li].fifo.node_seq()[k]@] == m[vec[li].fifo.node_seq()[k]@],
    ensures
        side_ok(side, vec, m2),
        lv_of(vec, m2) == lv_of(vec, m),
{
    assert forall|li: int| 0 <= li < vec.len() implies (#[trigger] vec[li]).fifo.wf_in(m2) && vec[li].fifo.node_seq().len() > 0
        && vec[li].fifo.values(m2) == vec[li].fifo.values(m) by {
        let n = vec[li].fifo.node_seq();
        assert(vec[li].fifo.wf_in(m));
        assert forall|k: int| 0 <= k < n.len() implies #[trigger] m2.contains_key(n[k]@) && m2[n[k]@] == m[n[k]@] by {
            assert(at(hs_of(vec), li, k));
        }
        lemma_chain_frame(n, m, m2);
    }
    assert forall|li: int, k: int| at(hs_of(vec), li, k) implies value_at(vec, m2, li, k) == value_at(vec, m, li, k) by {
        assert(m2.contains_key(vec[li].fifo.node_seq()[k]@));
    }
    assert(lv_of(vec, m2) =~= lv_of(vec, m)) by {
        assert forall|li: int| 0 <= li < vec.len() implies lv_of(vec, m2)[li] == lv_of(vec, m)[li] by {
            assert(vec[li].fifo.values(m2) == vec[li].fifo.values(m));
        }
    }
}

/// Changing the value, but not the links, of the maker at level `li`, position `k`.
proof fn lemma_ladder_update(side: Side, vec: Seq<PriceLevel>, m: Map<nat, Node<MakerView>>, li: int, k: int, x: Node<MakerView>)
    requires
        side_ok(side, vec, m),
        at(hs_of(vec), li, k),
        forall|l2: int, k2: int|
            at(hs_of(vec), l2, k2) && (#[trigger] vec[l2].fifo.node_seq()[k2])@ == vec[li].fifo.node_seq()[k]@ ==> l2 == li
                && k2 == k,
        x.prev == m[vec[li].fifo.node_seq()[k]@].prev,
        x.next == m[vec[li].fifo.node_seq()[k]@].next,
        x.value.side == side,
        x.value.price == vec[li].price,
        x.value.remaining_base.value() > 0,
    ensures
        side_ok(side, vec, m.insert(vec[li].fifo.node_seq()[k]@, x)),
        lv_of(vec, m.insert(vec[li].fifo.node_seq()[k]@, x)) == lv_of(vec, m).update(
            li,
            lv_of(vec, m)[li].update(k, x.value),
        ),
{
    let h = vec[li].fifo.node_seq()[k];
    let m2 = m.insert(h@, x);
    let lv = lv_of(vec, m);
    let lv2 = lv_of(vec, m2);
    assert forall|l2: int| 0 <= l2 < vec.len() implies (#[trigger] vec[l2]).fifo.wf_in(m2) && vec[l2].fifo.node_seq().len() > 0 by {
        let n = vec[l2].fifo.node_seq();
        assert(vec[l2].fifo.wf_in(m));
        assert forall|k2: int| 0 <= k2 < n.len() implies #[trigger] m2.contains_key(n[k2]@) by {
            assert(m.contains_key(n[k2]@));
        }
        assert forall|k2: int| 0 <= k2 < n.len() implies (#[trigger] m2[n[k2]@]).prev == crate::list::prev_link(n, k2) by {
            assert(at(hs_of(vec), l2, k2));
        }
        assert forall|k2: int| 0 <= k2 < n.len() implies (#[trigger] m2[n[k2]@]).next == crate::list::next_link(n, k2) by {
            assert(at(hs_of(vec), l2, k2));
        }
    }
    assert forall|l2: int, k2: int| at(hs_of(vec), l2, k2) implies value_at(vec, m2, l2, k2) == if l2 == li && k2 == k {
        x.value
    } else {
        value_at(vec, m, l2, k2)
    } by {}
    assert forall|l2: int| 0 <= l2 < vec.len() implies #[trigger] lv2[l2] == lv.update(li, lv[li].update(k, x.value))[l2] by {
        assert(lv2[l2] =~= lv.update(li, lv[li].update(k, x.value))[l2]) by {
            let n = vec[l2].fifo.node_seq();
            assert forall|k2: int| 0 <= k2 < n.len() implies lv2[l2][k2] == lv.update(li, lv[li].update(k, x.value))[l2][k2] by {
                assert(at(hs_of(vec), l2, k2));
            }
        }
    }
    assert(lv2 =~= lv.update(li, lv[li].update(k, x.value)));
}

/// Two positions of one ladder holding one slot are one position.
proof fn lemma_ladder_unique(side: Side, vec: Seq<PriceLevel>, m: Map<nat, Node<MakerView>>, l1: int, k1: int, l2: int, k2: int)
    requires
        side_ok(side, vec, m),
        at(hs_of(vec), l1, k1),
        at(hs_of(vec), l2, k2),
        vec[l1].fifo.node_seq()[k1]@ == vec[l2].fifo.node_seq()[k2]@,
    ensures
        l1 == l2 && k1 == k2,
{
    assert(value_at(vec, m, l1, k1) == value_at(vec, m, l2, k2));
    if l1 < l2 {
        assert(better(side, vec[l1].price, vec[l2].price));
    } else if l2 < l1 {
        assert(better(side, vec[l2].price, vec[l1].price));
    }
    assert(vec[l1].fifo.wf_in(m));
}

/// A slot of another level is untouched by a removal from level `li` that changes only that
/// level's own slots and frees its maker's slot.
proof fn lemma_other_slot(side: Side, v0: Seq<PriceLevel>, m0: Map<nat, Node<MakerView>>, m1: Map<nat, Node<MakerView>>, li: int, k: int, l2: int, k2: int)
    requires
        side_ok(side, v0, m0),
        at(hs_of(v0), li, k),
        at(hs_of(v0), l2, k2),
        l2 != li,
        forall|i: nat| !v0[li].fifo.owns(i) ==> m1[i] == m0[i],
        m1.dom() == m0.dom().remove(v0[li].fifo.node_seq()[k]@),
    ensures
        m1.contains_key(v0[l2].fifo.node_seq()[k2]@),
        m1[v0[l2].fifo.node_seq()[k2]@] == m0[v0[l2].fifo.node_seq()[k2]@],
{
    let x = v0[l2].fifo.node_seq()[k2]@;
    if v0[li].fifo.owns(x) {
        v0[li].fifo.lemma_position_of(x);
        let kx = v0[li].fifo.position_of(x);
        lemma_ladder_unique(side, v0, m0, l2, k2, li, kx);
    }
    assert(v0[l2].fifo.wf_in(m0));
    assert(m0.contains_key(x));
    if x == v0[li].fifo.node_seq()[k]@ {
        lemma_ladder_unique(side, v0, m0, l2, k2, li, k);
    }
}

/// A level other than `li` keeps its chain and values through a removal from level `li`.
proof fn lemma_level_kept(side: Side, v0: Seq<PriceLevel>, m0: Map<nat, Node<MakerView>>, m1: Map<nat, Node<MakerView>>, li: int, k: int, o: int)
    requires
        side_ok(side, v0, m0),
        at(hs_of(v0), li, k),
        0 <= o < v0.len(),
        o != li,
        forall|i: nat| !v0[li].fifo.owns(i) ==> m1[i] == m0[i],
        m1.dom() == m0.dom().remove(v0[li].fifo.node_seq()[k]@),
    ensures
        v0[o].fifo.wf_in(m1),
        v0[o].fifo.values(m1) == v0[o].fifo.values(m0),
{
    let n = v0[o].fifo.node_seq();
    assert(v0[o].fifo.wf_in(m0));
    assert forall|k2: int| 0 <= k2 < n.len() implies #[trigger] m1.contains_key(n[k2]@) && m1[n[k2]@] == m0[n[k2]@] by {
        assert(at(hs_of(v0), o, k2));
        lemma_other_slot(side, v0, m0, m1, li, k, o, k2);
    }
    lemma_chain_frame(n, m0, m1);
}

/// Removes the maker `h`, at level `li`, position `k`, from the ladder `ladder` of `side`; a
/// level it leaves empty goes too.
#[verifier::rlimit(60)]
fn ladder_remove(ladder: &mut Vec<PriceLevel>, arena: &mut Arena<Node<MakerView>>, li: usize, h: Index, Ghost(side): Ghost<Side>, Ghost(k): Ghost<int>)
    requires
        old(arena).wf(),
        side_ok(side, old(ladder)@, old(arena)@),
        at(hs_of(old(ladder)@), li as int, k),
        old(ladder)@[li as int].fifo.node_seq()[k] == h,
    ensures
        final(arena).wf(),
        side_ok(side, final(ladder)@, final(arena)@),
        lv_of(final(ladder)@, final(arena)@) == remove_at(lv_of(old(ladder)@, old(arena)@), li as int, k),
        hs_of(final(ladder)@) == remove_at(hs_of(old(ladder)@), li as int, k),
        final(arena)@.dom() == old(arena)@.dom().remove(h@),
        forall|i: nat| #[trigger] final(arena)@.contains_key(i) ==> final(arena)@[i].value == old(arena)@[i].value,
        forall|i: nat| !old(ladder)@[li as int].fifo.owns(i) ==> final(arena)@[i] == old(arena)@[i],
        final(arena).can_alloc(),
{
    let ghost v0 = ladder@;
    let ghost m0 = arena@;
    let ghost lv0 = lv_of(v0, m0);
    let ghost hs0 = hs_of(v0);
    let mut level = ladder.remove(li);
    let ghost lvl0 = level;
    proof {
        assert(lvl0 == v0[li as int]);
        assert(lvl0.fifo.wf_in(m0));
        assert(lvl0.fifo.owns(h@));
    }
    let _ = level.fifo.remove(arena, h);
    let ghost m1 = arena@;
    proof {
        lvl0.fifo.lemma_position_of(h@);
        let kk = lvl0.fifo.position_of(h@);
        assert(lvl0.fifo.node_seq()[kk]@ == lvl0.fifo.node_seq()[k]@);
        assert(distinct_slots(lvl0.fifo.node_seq()));
        assert(kk == k);
    }
    let kept = level.fifo.head.is_some();
    if kept {
        ladder.insert(li, level);
    }
    proof {
        let v1 = ladder@;
        let li_ = li as int;
        // map each level of the new ladder to the old one
        assert forall|l2: int| 0 <= l2 < v1.len() implies #[trigger] v1[l2] == if l2 < li_ {
            v0[l2]
        } else if l2 == li_ && kept {
            level
        } else if kept {
            v0[l2]
        } else {
            v0[l2 + 1]
        } by {}
        assert(kept <==> lvl0.fifo.node_seq().len() > 1);
        assert(side_ok(side, v1, m1)) by {
            assert forall|l2: int| 0 <= l2 < v1.len() implies (#[trigger] v1[l2]).fifo.wf_in(m1) && v1[l2].fifo.node_seq().len() > 0 by {
                if !(l2 == li_ && kept) {
                    let o = if l2 < li_ || kept { l2 } else { l2 + 1 };
                    assert(o != li_);
                    assert(v1[l2] == v0[o]);
                    lemma_level_kept(side, v0, m0, m1, li_, k, o);
                }
            }
            assert forall|l2: int, k2: int| at(hs_of(v1), l2, k2) implies {
                let v = #[trigger] value_at(v1, m1, l2, k2);
                &&& v.side == side
                &&& v.price == v1[l2].price
                &&& v.remaining_base.value() > 0
            } by {
                if l2 == li_ && kept {
                    let k3 = if k2 < k { k2 } else { k2 + 1 };
                    assert(level.fifo.node_seq() == lvl0.fifo.node_seq().remove(k));
                    assert(level.fifo.node_seq()[k2] == lvl0.fifo.node_seq()[k3]);
                    assert(at(hs_of(v0), li_, k3));
                    assert(value_at(v0, m0, li_, k3).side == side);
                    assert(level.fifo.wf_in(m1));
                    assert(m1.contains_key(level.fifo.node_seq()[k2]@));
                    assert(m1[lvl0.fifo.node_seq()[k3]@].value == m0[lvl0.fifo.node_seq()[k3]@].value);
                    assert(v1[l2] == level);
                    assert(value_at(v1, m1, l2, k2) == value_at(v0, m0, li_, k3));
                    assert(v1[l2].price == v0[li_].price);
                } else {
                    let o = if l2 < li_ || kept { l2 } else { l2 + 1 };
                    assert(o != li_);
                    assert(v1[l2] == v0[o]);
                    assert(at(hs_of(v0), o, k2));
                    lemma_other_slot(side, v0, m0, m1, li_, k, o, k2);
                    assert(value_at(v1, m1, l2, k2) == value_at(v0, m0, o, k2));
                }
            }
            assert forall|i: int, j: int| 0 <= i < j < v1.len() implies better(side, v1[i].price, v1[j].price) by {
                let oi = if i < li_ || kept { i } else { i + 1 };
                let oj = if j < li_ || kept { j } else { j + 1 };
                assert(v1[i].price == v0[oi].price);
                assert(v1[j].price == v0[oj].price);
            }
        }
        let lv1 = lv_of(v1, m1);
        let target = remove_at(lv0, li_, k);
        assert(lv0[li_] == lvl0.fifo.values(m0));
        assert(lv1 =~= target) by {
            if kept {
                assert(lv0[li_].len() != 1);
                assert forall|l2: int| 0 <= l2 < v1.len() implies #[trigger] lv1[l2] == target[l2] by {
                    if l2 != li_ {
                        assert(v1.len() == v0.len());
                        assert(v1[l2] == v0[l2]);
                        lemma_level_kept(side, v0, m0, m1, li_, k, l2);
                    }
                }
            } else {
                assert(lv0[li_].len() == 1);
                assert forall|l2: int| 0 <= l2 < v1.len() implies #[trigger] lv1[l2] == target[l2] by {
                    let o = if l2 < li_ { l2 } else { l2 + 1 };
                    lemma_level_kept(side, v0, m0, m1, li_, k, o);
                }
            }
        }
        assert(hs_of(v1) =~= remove_at(hs0, li_, k)) by {
            if kept {
                assert(hs0[li_].len() != 1);
            } else {
                assert(hs0[li_].len() == 1);
            }
        }
        assert(arena.free_list().len() > 0);
    }
}

/// Where entry `(l2, k2)` of `remove_at(s, li, k)` came from.
pub open spec fn src_level(li: int, one: bool, l2: int) -> int {
    if one && l2 >= li {
        l2 + 1
    } else {
        l2
    }
}

pub open spec fn src_pos(li: int, k: int, one: bool, l2: int, k2: int) -> int {
    if !one && l2 == li && k2 >= k {
        k2 + 1
    } else {
        k2
    }
}

proof fn lemma_remove_at_entry<A>(s: Seq<Seq<A>>, li: int, k: int, l2: int, k2: int)
    requires
        0 <= li < s.len(),
        0 <= k < s[li].len(),
        0 <= l2 < remove_at(s, li, k).len(),
        0 <= k2 < remove_at(s, li, k)[l2].len(),
    ensures
        ({
            let one = s[li].len() == 1;
            let o = src_level(li, one, l2);
            let p = src_pos(li, k, one, l2, k2);
            &&& 0 <= o < s.len()
            &&& 0 <= p < s[o].len()
            &&& (o != li || p != k)
            &&& remove_at(s, li, k)[l2][k2] == s[o][p]
        }),
{
}

proof fn lemma_lv_entry(vec: Seq<PriceLevel>, m: Map<nat, Node<MakerView>>, l: int, k: int)
    requires
        at(hs_of(vec), l, k),
    ensures
        lv_of(vec, m)[l][k] == value_at(vec, m, l, k),
        hs_of(vec)[l][k] == vec[l].fifo.node_seq()[k],
        lv_of(vec, m)[l].len() == hs_of(vec)[l].len(),
        lv_of(vec, m).len() == vec.len(),
{
}

proof fn lemma_ids_after_remove(s0: OrderBook, s1: OrderBook, side: Side, li: int, k: int, h: Index)
    requires
        s0.book_wf(),
        at(hs_of(s0.side_vec(side)), li, k),
        s0.side_vec(side)[li].fifo.node_seq()[k] == h,
        lv_of(s1.side_vec(side), s1.arena@) == remove_at(lv_of(s0.side_vec(side), s0.arena@), li, k),
        hs_of(s1.side_vec(side)) == remove_at(hs_of(s0.side_vec(side)), li, k),
        s1.side_vec(side.opposite_spec()) == s0.side_vec(side.opposite_spec()),
        lv_of(s1.side_vec(side.opposite_spec()), s1.arena@) == lv_of(s0.side_vec(side.opposite_spec()), s0.arena@),
        s1.arena@.dom() == s0.arena@.dom().remove(h@),
        forall|i: nat| #[trigger] s1.arena@.contains_key(i) ==> s1.arena@[i].value == s0.arena@[i].value,
        s1.by_id@ == s0.by_id@.remove(s0.arena@[h@].value.id),
    ensures
        s1.ids_ok(),
{
    let m0 = s0.arena@;
    let m1 = s1.arena@;
    let ids0 = s0.by_id@;
    let ids1 = s1.by_id@;
    let gone = m0[h@].value.id;
    s0.lemma_slot_of(side, li, k);
    assert(ids0[gone] == h) by {
        assert(ids0.contains_key(value_at(s0.side_vec(side), m0, li, k).id));
    }
    assert forall|s2: Side, l2: int, k2: int| at(hs_of(s1.side_vec(s2)), l2, k2) implies {
        let v = #[trigger] value_at(s1.side_vec(s2), m1, l2, k2);
        &&& ids1.contains_key(v.id)
        &&& ids1[v.id] == s1.side_vec(s2)[l2].fifo.node_seq()[k2]
    } by {
        let v = value_at(s1.side_vec(s2), m1, l2, k2);
        lemma_lv_entry(s1.side_vec(s2), m1, l2, k2);
        let (o, p) = if s2 == side {
            let lv0 = lv_of(s0.side_vec(side), m0);
            let hs0 = hs_of(s0.side_vec(side));
            lemma_remove_at_entry(lv0, li, k, l2, k2);
            lemma_remove_at_entry(hs0, li, k, l2, k2);
            let one = lv0[li].len() == 1;
            assert(lv0[li].len() == hs0[li].len());
            (src_level(li, one, l2), src_pos(li, k, one, l2, k2))
        } else {
            (l2, k2)
        };
        assert(at(hs_of(s0.side_vec(s2)), o, p));
        lemma_lv_entry(s0.side_vec(s2), m0, o, p);
        assert(v == value_at(s0.side_vec(s2), m0, o, p));
        assert(s1.side_vec(s2)[l2].fifo.node_seq()[k2] == s0.side_vec(s2)[o].fifo.node_seq()[p]);
        assert(ids0.contains_key(v.id));
        if v.id == gone {
            s0.lemma_unique(s2, o, p, side, li, k);
        }
    }
    assert forall|id: OrderId| #[trigger] ids1.contains_key(id) implies m1.contains_key(ids1[id]@) && m1[ids1[id]@].value.id == id by {
        assert(ids0.contains_key(id));
        assert(id != gone);
        assert(ids1[id] == ids0[id]);
        assert(m0.contains_key(ids0[id]@));
        if ids0[id]@ == h@ {
            assert(m0[h@].value.id == id);
        }
    }
}

/// `s` with `x` appended to level `pos` (when `found`) or inserted as a new level at `pos`.
pub open spec fn place_at<A>(s: Seq<Seq<A>>, pos: int, found: bool, x: A) -> Seq<Seq<A>> {
    if found {
        s.update(pos, s[pos].push(x))
    } else {
        s.insert(pos, seq![x])
    }
}

proof fn lemma_place_at_entry<A>(s: Seq<Seq<A>>, pos: int, found: bool, x: A, l2: int, k2: int)
    requires
        0 <= pos <= s.len(),
        found ==> pos < s.len(),
        0 <= l2 < place_at(s, pos, found, x).len(),
        0 <= k2 < place_at(s, pos, found, x)[l2].len(),
    ensures
        ({
            let is_new = l2 == pos && (!found || k2 == s[pos].len());
            let o = if !found && l2 > pos { l2 - 1 } else { l2 };
            &&& is_new ==> place_at(s, pos, found, x)[l2][k2] == x
            &&& !is_new ==> 0 <= o < s.len() && 0 <= k2 < s[o].len() && place_at(s, pos, found, x)[l2][k2] == s[o][k2]
        }),
{
    let t = place_at(s, pos, found, x);
    if found {
        if l2 == pos {
            assert(t[l2] == s[pos].push(x));
            if k2 < s[pos].len() {
                assert(t[l2][k2] == s[pos][k2]);
            } else {
                assert(t[l2][k2] == x);
            }
        } else {
            assert(t[l2] == s[l2]);
        }
    } else {
        if l2 < pos {
            assert(t[l2] == s[l2]);
        } else if l2 == pos {
            assert(t[l2] == seq![x]);
            assert(k2 == 0);
            assert(t[l2][k2] == x);
        } else {
            assert(t[l2] == s[l2 - 1]);
        }
    }
}

/// A slot of a level other than `p` is untouched by a push onto level `p` into the fresh slot
/// `r`.
proof fn lemma_insert_other_slot(side: Side, v0: Seq<PriceLevel>, m0: Map<nat, Node<MakerView>>, m1: Map<nat, Node<MakerView>>, p: int, l2: int, k2: int, r: nat)
    requires
        side_ok(side, v0, m0),
        0 <= p < v0.len(),
        at(hs_of(v0), l2, k2),
        l2 != p,
        !m0.contains_key(r),
        forall|i: nat| i != r && !v0[p].fifo.owns(i) ==> m1[i] == m0[i],
        m1.dom() == m0.dom().insert(r),
    ensures
        m1.contains_key(v0[l2].fifo.node_seq()[k2]@),
        m1[v0[l2].fifo.node_seq()[k2]@] == m0[v0[l2].fifo.node_seq()[k2]@],
{
    let x = v0[l2].fifo.node_seq()[k2]@;
    assert(v0[l2].fifo.wf_in(m0));
    assert(m0.contains_key(x));
    if v0[p].fifo.owns(x) {
        v0[p].fifo.lemma_position_of(x);
        let kx = v0[p].fifo.position_of(x);
        assert(at(hs_of(v0), p, kx));
        lemma_ladder_unique(side, v0, m0, l2, k2, p, kx);
    }
}

/// A level other than `p` keeps its chain and values through a push onto level `p`.
proof fn lemma_level_kept_insert(side: Side, v0: Seq<PriceLevel>, m0: Map<nat, Node<MakerView>>, m1: Map<nat, Node<MakerView>>, p: int, o: int, r: nat)
    requires
        side_ok(side, v0, m0),
        0 <= p < v0.len(),
        0 <= o < v0.len(),
        o != p,
        !m0.contains_key(r),
        forall|i: nat| i != r && !v0[p].fifo.owns(i) ==> m1[i] == m0[i],
        m1.dom() == m0.dom().insert(r),
    ensures
        v0[o].fifo.wf_in(m1),
        v0[o].fifo.values(m1) == v0[o].fifo.values(m0),
{
    let n = v0[o].fifo.node_seq();
    assert(v0[o].fifo.wf_in(m0));
    assert forall|k2: int| 0 <= k2 < n.len() implies #[trigger] m1.contains_key(n[k2]@) && m1[n[k2]@] == m0[n[k2]@] by {
        assert(at(hs_of(v0), o, k2));
        lemma_insert_other_slot(side, v0, m0, m1, p, o, k2, r);
    }
    lemma_chain_frame(n, m0, m1);
}

/// Every level keeps its chain and values when only the fresh slot `r` is added.
proof fn lemma_level_fresh(side: Side, v0: Seq<PriceLevel>, m0: Map<nat, Node<MakerView>>, m1: Map<nat, Node<MakerView>>, o: int, r: nat)
    requires
        side_ok(side, v0, m0),
        0 <= o < v0.len(),
        !m0.contains_key(r),
        forall|i: nat| i != r ==> m1[i] == m0[i],
        m1.dom() == m0.dom().insert(r),
    ensures
        v0[o].fifo.wf_in(m1),
        v0[o].fifo.values(m1) == v0[o].fifo.values(m0),
{
    let n = v0[o].fifo.node_seq();
    assert(v0[o].fifo.wf_in(m0));
    assert forall|k2: int| 0 <= k2 < n.len() implies #[trigger] m1.contains_key(n[k2]@) && m1[n[k2]@] == m0[n[k2]@] by {
        assert(m0.contains_key(n[k2]@));
    }
    lemma_chain_frame(n, m0, m1);
}

/// Queues `maker` on the ladder `ladder` of its side: at the back of level `pos` when that
/// level has its price, else alone in a new level inserted at `pos`.
#[verifier::rlimit(60)]
fn ladder_insert(ladder: &mut Vec<PriceLevel>, arena: &mut Arena<Node<MakerView>>, pos: usize, found: bool, maker: MakerView) -> (r: Index)
    requires
        old(arena).wf(),
        old(arena).can_alloc(),
        side_ok(maker.side, old(ladder)@, old(arena)@),
        maker.remaining_base.value() > 0,
        pos <= old(ladder)@.len(),
        forall|j: int| 0 <= j < pos ==> better(maker.side, #[trigger] old(ladder)@[j].price, maker.price),
        pos == old(ladder)@.len() || !better(maker.side, old(ladder)@[pos as int].price, maker.price),
        found == (pos < old(ladder)@.len() && old(ladder)@[pos as int].price == maker.price),
    ensures
        final(arena).wf(),
        side_ok(maker.side, final(ladder)@, final(arena)@),
        lv_of(final(ladder)@, final(arena)@) == place(lv_of(old(ladder)@, old(arena)@), maker.side, maker),
        lv_of(final(ladder)@, final(arena)@) == place_at(lv_of(old(ladder)@, old(arena)@), pos as int, found, maker),
        hs_of(final(ladder)@) == place_at(hs_of(old(ladder)@), pos as int, found, r),
        !old(arena)@.contains_key(r@),
        final(arena)@.dom() == old(arena)@.dom().insert(r@),
        final(arena)@[r@].value == maker,
        forall|i: nat| #[trigger] old(arena)@.contains_key(i) ==> final(arena)@[i].value == old(arena)@[i].value,
        forall|i: nat| i != r@ && !(found && old(ladder)@[pos as int].fifo.owns(i)) ==> final(arena)@[i] == old(arena)@[i],
{
    let ghost v0 = ladder@;
    let ghost m0 = arena@;
    let ghost side = maker.side;
    let ghost lv0 = lv_of(v0, m0);
    let ghost p = pos as int;
    proof {
        assert forall|j: int| 0 <= j < v0.len() implies #[trigger] lv0[j][0].price == v0[j].price by {
            assert(v0[j].fifo.node_seq().len() > 0);
            assert(at(hs_of(v0), j, 0));
            lemma_lv_entry(v0, m0, j, 0);
        }
        lemma_better_count(lv0, side, maker.price, p);
    }
    if found {
        let mut level = ladder.remove(pos);
        let ghost lvl0 = level;
        proof {
            assert(lvl0.fifo.wf_in(m0));
        }
        let idx = level.fifo.push_back(arena, maker);
        ladder.insert(pos, level);
        proof {
            let v1 = ladder@;
            let m1 = arena@;
            assert(v1 =~= v0.update(p, level));
            assert forall|l2: int| 0 <= l2 < v1.len() implies (#[trigger] v1[l2]).fifo.wf_in(m1) && v1[l2].fifo.node_seq().len() > 0
                && (l2 != p ==> v1[l2].fifo.values(m1) == v0[l2].fifo.values(m0)) by {
                if l2 != p {
                    lemma_level_kept_insert(side, v0, m0, m1, p, l2, idx@);
                }
            }
            assert forall|l2: int, k2: int| at(hs_of(v1), l2, k2) implies {
                let v = #[trigger] value_at(v1, m1, l2, k2);
                &&& v.side == side
                &&& v.price == v1[l2].price
                &&& v.remaining_base.value() > 0
            } by {
                if l2 == p {
                    let n0 = lvl0.fifo.node_seq();
                    if k2 < n0.len() {
                        assert(level.fifo.node_seq()[k2] == n0[k2]);
                        assert(at(hs_of(v0), p, k2));
                        assert(m0.contains_key(n0[k2]@));
                        assert(value_at(v1, m1, l2, k2) == value_at(v0, m0, p, k2));
                    } else {
                        assert(level.fifo.node_seq()[k2] == idx);
                    }
                } else {
                    assert(at(hs_of(v0), l2, k2));
                    lemma_insert_other_slot(side, v0, m0, m1, p, l2, k2, idx@);
                    assert(value_at(v1, m1, l2, k2) == value_at(v0, m0, l2, k2));
                }
            }
            assert(side_ok(side, v1, m1));
            assert(lv0[p] == lvl0.fifo.values(m0));
            assert(lv_of(v1, m1) =~= lv0.update(p, lv0[p].push(maker)));
            assert(hs_of(v1) =~= hs_of(v0).update(p, hs_of(v0)[p].push(idx)));
        }
        idx
    } else {
        let mut level = PriceLevel { price: maker.price, fifo: List::new() };
        let ghost lvl_new = level;
        proof {
            level.fifo.lemma_empty_wf(m0);
        }
        let idx = level.fifo.push_back(arena, maker);
        ladder.insert(pos, level);
        proof {
            let v1 = ladder@;
            let m1 = arena@;
            assert forall|i: nat| i != idx@ implies m1[i] == m0[i] by {
                assert(!lvl_new.fifo.owns(i));
            }
            assert(v1 =~= v0.insert(p, level));
            assert forall|l2: int| 0 <= l2 < v1.len() implies #[trigger] v1[l2] == if l2 < p {
                v0[l2]
            } else if l2 == p {
                level
            } else {
                v0[l2 - 1]
            } by {}
            assert forall|l2: int, k2: int| at(hs_of(v0), l2, k2) implies #[trigger] m1.contains_key(v0[l2].fifo.node_seq()[k2]@)
                && m1[v0[l2].fifo.node_seq()[k2]@] == m0[v0[l2].fifo.node_seq()[k2]@] by {
                assert(v0[l2].fifo.wf_in(m0));
                let x = v0[l2].fifo.node_seq()[k2]@;
                assert(m0.contains_key(x));
                assert(x != idx@);
                assert(!lvl_new.fifo.owns(x));
            }
            assert forall|l2: int| 0 <= l2 < v1.len() implies (#[trigger] v1[l2]).fifo.wf_in(m1) && v1[l2].fifo.node_seq().len() > 0
                && (l2 != p ==> v1[l2].fifo.values(m1) == lv0[if l2 < p { l2 } else { l2 - 1 }]) by {
                if l2 != p {
                    let o = if l2 < p { l2 } else { l2 - 1 };
                    lemma_level_fresh(side, v0, m0, m1, o, idx@);
                }
            }
            assert forall|l2: int, k2: int| at(hs_of(v1), l2, k2) implies {
                let v = #[trigger] value_at(v1, m1, l2, k2);
                &&& v.side == side
                &&& v.price == v1[l2].price
                &&& v.remaining_base.value() > 0
            } by {
                if l2 != p {
                    let o = if l2 < p { l2 } else { l2 - 1 };
                    assert(at(hs_of(v0), o, k2));
                    let x = v0[o].fifo.node_seq()[k2]@;
                    assert(v0[o].fifo.wf_in(m0));
                    assert(m0.contains_key(x));
                    assert(x != idx@);
                    assert(!lvl_new.fifo.owns(x));
                    assert(v1[l2] == v0[o]);
                    assert(value_at(v1, m1, l2, k2) == value_at(v0, m0, o, k2));
                } else {
                    assert(level.fifo.node_seq()[k2] == idx);
                }
            }
            assert forall|i: int, j: int| 0 <= i < j < v1.len() implies better(side, v1[i].price, v1[j].price) by {
                if p < v0.len() {
                    assert(v0[p].price != maker.price);
                    crate::u256::lemma_value_injective(v0[p].price, maker.price);
                }
                if i < p && j > p {
                    assert(better(side, v0[i].price, maker.price));
                    if p < v0.len() {
                        assert(better(side, v0[p].price, v0[j - 1].price) || j - 1 == p);
                    }
                }
                if i == p && j > p {
                    if j - 1 > p {
                        assert(better(side, v0[p].price, v0[j - 1].price));
                    }
                }
            }
            assert(side_ok(side, v1, m1));
            assert(lv_of(v1, m1) =~= lv0.insert(p, seq![maker])) by {
                assert(level.fifo.values(m1) =~= seq![maker]);
            }
            assert(hs_of(v1) =~= hs_of(v0).insert(p, seq![idx]));
        }
        idx
    }
}

proof fn lemma_ids_after_insert(s0: OrderBook, s1: OrderBook, side: Side, pos: int, found: bool, r: Index, maker: MakerView)
    requires
        s0.book_wf(),
        maker.side == side,
        0 <= pos <= s0.side_vec(side).len(),
        found ==> pos < s0.side_vec(side).len(),
        !s0.by_id@.contains_key(maker.id),
        !s0.arena@.contains_key(r@),
        lv_of(s1.side_vec(side), s1.arena@) == place_at(lv_of(s0.side_vec(side), s0.arena@), pos, found, maker),
        hs_of(s1.side_vec(side)) == place_at(hs_of(s0.side_vec(side)), pos, found, r),
        s1.side_vec(side.opposite_spec()) == s0.side_vec(side.opposite_spec()),
        lv_of(s1.side_vec(side.opposite_spec()), s1.arena@) == lv_of(s0.side_vec(side.opposite_spec()), s0.arena@),
        s1.arena@.dom() == s0.arena@.dom().insert(r@),
        s1.arena@[r@].value == maker,
        forall|i: nat| #[trigger] s0.arena@.contains_key(i) ==> s1.arena@[i].value == s0.arena@[i].value,
        s1.by_id@ == s0.by_id@.insert(maker.id, r),
    ensures
        s1.ids_ok(),
{
    let m0 = s0.arena@;
    let m1 = s1.arena@;
    let ids0 = s0.by_id@;
    let ids1 = s1.by_id@;
    assert forall|s2: Side, l2: int, k2: int| at(hs_of(s1.side_vec(s2)), l2, k2) implies {
        let v = #[trigger] value_at(s1.side_vec(s2), m1, l2, k2);
        &&& ids1.contains_key(v.id)
        &&& ids1[v.id] == s1.side_vec(s2)[l2].fifo.node_seq()[k2]
    } by {
        let v = value_at(s1.side_vec(s2), m1, l2, k2);
        lemma_lv_entry(s1.side_vec(s2), m1, l2, k2);
        if s2 == side {
            let lv0 = lv_of(s0.side_vec(side), m0);
            let hs0 = hs_of(s0.side_vec(side));
            assert(lv0.len() == hs0.len());
            if found {
                assert(lv0[pos].len() == hs0[pos].len());
            }
            lemma_place_at_entry(lv0, pos, found, maker, l2, k2);
            lemma_place_at_entry(hs0, pos, found, r, l2, k2);
            let is_new = l2 == pos && (!found || k2 == lv0[pos].len());
            if !is_new {
                let o = if !found && l2 > pos { l2 - 1 } else { l2 };
                assert(at(hs_of(s0.side_vec(s2)), o, k2));
                lemma_lv_entry(s0.side_vec(s2), m0, o, k2);
                assert(ids0.contains_key(v.id));
            }
        } else {
            assert(at(hs_of(s0.side_vec(s2)), l2, k2));
            lemma_lv_entry(s0.side_vec(s2), m0, l2, k2);
            assert(ids0.contains_key(v.id));
        }
    }
    assert forall|id: OrderId| #[trigger] ids1.contains_key(id) implies m1.contains_key(ids1[id]@) && m1[ids1[id]@].value.id == id by {
        if id != maker.id {
            assert(ids0.contains_key(id));
            assert(m0.contains_key(ids0[id]@));
        }
    }
}

/// Whether slot `i` holds one of the makers of the ladder `vec`.
pub open spec fn in_ladder(vec: Seq<PriceLevel>, i: nat) -> bool {
    exists|li: int, k: int| at(hs_of(vec), li, k) && (#[trigger] hs_of(vec)[li][k])@ == i
}

proof fn lemma_in_ladder_remove(v0: Seq<PriceLevel>, v1: Seq<PriceLevel>, li: int, k: int, i: nat)
    requires
        at(hs_of(v0), li, k),
        hs_of(v1) == remove_at(hs_of(v0), li, k),
        distinct_slots(hs_of(v0)[li]),
        in_ladder(v0, i),
        i != hs_of(v0)[li][k]@,
    ensures
        in_ladder(v1, i),
{
    let h0 = hs_of(v0);
    let h1 = hs_of(v1);
    let (l2, k2) = choose|l2: int, k2: int| at(h0, l2, k2) && (#[trigger] h0[l2][k2])@ == i;
    if h0[li].len() == 1 {
        assert(l2 != li);
        let l3 = if l2 < li { l2 } else { l2 - 1 };
        assert(h1[l3] == h0[l2]);
        assert(at(h1, l3, k2) && h1[l3][k2]@ == i);
    } else if l2 != li {
        assert(h1[l2] == h0[l2]);
        assert(at(h1, l2, k2) && h1[l2][k2]@ == i);
    } else {
        assert(k2 != k);
        let k3 = if k2 < k { k2 } else { k2 - 1 };
        assert(h1[li] == h0[li].remove(k));
        assert(h1[li][k3] == h0[li][k2]);
        assert(at(h1, li, k3) && h1[li][k3]@ == i);
    }
}

proof fn lemma_in_ladder_insert(v0: Seq<PriceLevel>, v1: Seq<PriceLevel>, pos: int, found: bool, r: Index, i: nat)
    requires
        0 <= pos <= hs_of(v0).len(),
        found ==> pos < hs_of(v0).len(),
        hs_of(v1) == place_at(hs_of(v0), pos, found, r),
    ensures
        in_ladder(v0, i) ==> in_ladder(v1, i),
        in_ladder(v1, r@),
{
    let h0 = hs_of(v0);
    let h1 = hs_of(v1);
    if in_ladder(v0, i) {
        let (l2, k2) = choose|l2: int, k2: int| at(h0, l2, k2) && (#[trigger] h0[l2][k2])@ == i;
        let l3 = if !found && l2 >= pos { l2 + 1 } else { l2 };
        if found {
            if l2 == pos {
                assert(h1[l3] == h0[pos].push(r));
            } else {
                assert(h1[l3] == h0[l2]);
            }
        } else {
            assert(h1[l3] == h0[l2]);
        }
        assert(h1[l3][k2] == h0[l2][k2]);
        assert(at(h1, l3, k2) && h1[l3][k2]@ == i);
    }
    if found {
        assert(h1[pos] == h0[pos].push(r));
        assert(at(h1, pos, h0[pos].len() as int) && h1[pos][h0[pos].len() as int]@ == r@);
    } else {
        assert(h1[pos] == seq![r]);
        assert(at(h1, pos, 0) && h1[pos][0]@ == r@);
    }
}

fn copy_levels(v: &Vec<PriceLevel>) -> (r: Vec<PriceLevel>)
    ensures
        r@ == v@,
{
    let mut r: Vec<PriceLevel> = Vec::new();
    let mut i: usize = 0;
    while i < v.len()
        invariant
            0 <= i <= v@.len(),
            r@ == v@.take(i as int),
        decreases v.len() - i,
    {
        r.push(v[i]);
        proof {
            assert(v@.take(i + 1) =~= v@.take(i as int).push(v@[i as int]));
        }
        i = i + 1;
    }
    proof {
        assert(v@.take(i as int) =~= v@);
    }
    r
}

impl OrderBook {
    pub closed spec fn side_vec(&self, side: Side) -> Seq<PriceLevel> {
        match side {
            Side::Buy => self.bids@,
            Side::Sell => self.asks@,
        }
    }

    pub closed spec fn ids_ok(&self) -> bool {
        let m = self.arena@;
        let ids = self.by_id@;
        &&& forall|s: Side, li: int, k: int|
            at(hs_of(self.side_vec(s)), li, k) ==> {
                let v = #[trigger] value_at(self.side_vec(s), m, li, k);
                &&& ids.contains_key(v.id)
                &&& ids[v.id] == self.side_vec(s)[li].fifo.node_seq()[k]
            }
        &&& forall|id: OrderId|
            #[trigger] ids.contains_key(id) ==> m.contains_key(ids[id]@) && m[ids[id]@].value.id == id
    }

    pub closed spec fn book_wf(&self) -> bool {
        &&& self.arena.wf()
        &&& side_ok(Side::Buy, self.bids@, self.arena@)
        &&& side_ok(Side::Sell, self.asks@, self.arena@)
        &&& self.ids_ok()
        &&& vstd::laws_cmp::obeys_cmp::<OrderId>()
        &&& forall|i: nat|
            #[trigger] self.arena@.contains_key(i) ==> in_ladder(self.side_vec(Side::Buy), i) || in_ladder(
                self.side_vec(Side::Sell),
                i,
            )
    }

    /// Replaces the maker `h`, at level `li`, position `k` of `side`, by one with the same id,
    /// side and price.
    fn update_value(&mut self, h: Index, v: MakerView, Ghost(side): Ghost<Side>, Ghost(li): Ghost<int>, Ghost(k): Ghost<int>)
        requires
            old(self).book_wf(),
            at(hs_of(old(self).side_vec(side)), li, k),
            old(self).side_vec(side)[li].fifo.node_seq()[k] == h,
            v.id == value_at(old(self).side_vec(side), old(self).arena@, li, k).id,
            v.side == side,
            v.price == old(self).side_vec(side)[li].price,
            v.remaining_base.value() > 0,
        ensures
            final(self).book_wf(),
            final(self).bids@ == old(self).bids@,
            final(self).asks@ == old(self).asks@,
            final(self).by_id@ == old(self).by_id@,
            final(self).arena.can_alloc() == old(self).arena.can_alloc(),
            lv_of(final(self).side_vec(side), final(self).arena@) == lv_of(old(self).side_vec(side), old(self).arena@).update(
                li,
                lv_of(old(self).side_vec(side), old(self).arena@)[li].update(k, v),
            ),
            lv_of(final(self).side_vec(side.opposite_spec()), final(self).arena@) == lv_of(
                old(self).side_vec(side.opposite_spec()),
                old(self).arena@,
            ),
    {
        let ghost m = self.arena@;
        let ghost vec = self.side_vec(side);
        let ghost ovec = self.side_vec(side.opposite_spec());
        proof {
            assert(side_ok(side, vec, m));
            assert(vec[li].fifo.wf_in(m));
            assert(m.contains_key(h@));
            assert forall|l2: int, k2: int|
                at(hs_of(vec), l2, k2) && (#[trigger] vec[l2].fifo.node_seq()[k2])@ == vec[li].fifo.node_seq()[k]@ implies l2 == li
                    && k2 == k by {
                self.lemma_unique(side, l2, k2, side, li, k);
            }
            assert forall|l2: int, k2: int|
                at(hs_of(ovec), l2, k2) implies (#[trigger] ovec[l2].fifo.node_seq()[k2])@ != h@ by {
                if ovec[l2].fifo.node_seq()[k2]@ == h@ {
                    self.lemma_unique(side.opposite_spec(), l2, k2, side, li, k);
                }
            }
        }
        match self.arena.get_mut(h) {
            Some(node) => {
                node.value = v;
            },
            None => {},
        }
        proof {
            let m2 = self.arena@;
            let x = m2[h@];
            assert(m2 == m.insert(h@, x));
            lemma_ladder_update(side, vec, m, li, k, x);
            assert(side_ok(side.opposite_spec(), ovec, m));
            lemma_ladder_frame(side.opposite_spec(), ovec, m, m2);
            assert(side_ok(Side::Buy, self.bids@, m2));
            assert(side_ok(Side::Sell, self.asks@, m2));
            assert forall|s: Side, l2: int, k2: int| at(hs_of(self.side_vec(s)), l2, k2) implies {
                let w = #[trigger] value_at(self.side_vec(s), m2, l2, k2);
                &&& self.by_id@.contains_key(w.id)
                &&& self.by_id@[w.id] == self.side_vec(s)[l2].fifo.node_seq()[k2]
            } by {
                assert(value_at(self.side_vec(s), m2, l2, k2).id == value_at(self.side_vec(s), m, l2, k2).id);
            }
            assert forall|id: OrderId| #[trigger] self.by_id@.contains_key(id) implies m2.contains_key(self.by_id@[id]@)
                && m2[self.by_id@[id]@].value.id == id by {}
        }
    }

    /// The slot of the maker at level `li`, position `k` of `side` holds it.
    proof fn lemma_slot_of(&self, side: Side, li: int, k: int)
        requires
            self.book_wf(),
            at(hs_of(self.side_vec(side)), li, k),
        ensures
            self.arena@.contains_key(self.side_vec(side)[li].fifo.node_seq()[k]@),
            self.arena@[self.side_vec(side)[li].fifo.node_seq()[k]@].value == value_at(self.side_vec(side), self.arena@, li, k),
            lv_of(self.side_vec(side), self.arena@)[li][k] == value_at(self.side_vec(side), self.arena@, li, k),
            value_at(self.side_vec(side), self.arena@, li, k).side == side,
            value_at(self.side_vec(side), self.arena@, li, k).price == self.side_vec(side)[li].price,
            value_at(self.side_vec(side), self.arena@, li, k).remaining_base.value() > 0,
    {
        let vec = self.side_vec(side);
        assert(side_ok(side, vec, self.arena@));
        assert(vec[li].fifo.wf_in(self.arena@));
    }

    /// A handle found at one position of the book is found at no other.
    proof fn lemma_only_position(&self, h: Index, side: Side, li: int, k: int)
        requires
            self.book_wf(),
            at(hs_of(self.side_vec(side)), li, k),
            self.side_vec(side)[li].fifo.node_seq()[k] == h,
        ensures
            forall|s2: Side, l2: int, k2: int|
                at(hs_of(self.side_vec(s2)), l2, k2) && #[trigger] hs_of(self.side_vec(s2))[l2][k2] == h ==> s2 == side && l2
                    == li && k2 == k,
    {
        assert forall|s2: Side, l2: int, k2: int|
            at(hs_of(self.side_vec(s2)), l2, k2) && #[trigger] hs_of(self.side_vec(s2))[l2][k2] == h implies s2 == side && l2
                == li && k2 == k by {
            self.lemma_unique(s2, l2, k2, side, li, k);
        }
    }

    /// Index of the level at `price` on `side`.
    fn find_level(&self, side: Side, price: U256) -> (r: Option<usize>)
        requires
            self.book_wf(),
        ensures
            match r {
                Some(i) => i < self.side_vec(side).len() && self.side_vec(side)[i as int].price == price,
                None => forall|i: int| 0 <= i < self.side_vec(side).len() ==> #[trigger] self.side_vec(side)[i].price != price,
            },
    {
        let vec = match side {
            Side::Buy => &self.bids,
            Side::Sell => &self.asks,
        };
        let mut i: usize = 0;
        while i < vec.len()
            invariant
                0 <= i <= vec@.len(),
                vec@ == self.side_vec(side),
                forall|j: int| 0 <= j < i ==> #[trigger] vec@[j].price != price,
            decreases vec.len() - i,
        {
            proof {
                crate::u256::lemma_value_injective(vec@[i as int].price, price);
            }
            if vec[i].price.eq_value(&price) {
                return Some(i);
            }
            i = i + 1;
        }
        None
    }

    /// Removes the maker `h` found at level `li`, position `k` of `side`, with its id.
    fn remove_at_position(&mut self, h: Index, Ghost(side): Ghost<Side>, Ghost(li): Ghost<int>, Ghost(k): Ghost<int>)
        requires
            old(self).book_wf(),
            at(hs_of(old(self).side_vec(side)), li, k),
            old(self).side_vec(side)[li].fifo.node_seq()[k] == h,
        ensures
            final(self).book_wf(),
            lv_of(final(self).side_vec(side), final(self).arena@) == remove_at(lv_of(old(self).side_vec(side), old(self).arena@), li, k),
            hs_of(final(self).side_vec(side)) == remove_at(hs_of(old(self).side_vec(side)), li, k),
            lv_of(final(self).side_vec(side.opposite_spec()), final(self).arena@) == lv_of(old(self).side_vec(side.opposite_spec()), old(self).arena@),
            final(self).side_vec(side.opposite_spec()) == old(self).side_vec(side.opposite_spec()),
            final(self).arena.can_alloc(),
            forall|id: OrderId| #[trigger] final(self).by_id@.contains_key(id) ==> old(self).by_id@.contains_key(id),
    {
        let ghost m0 = self.arena@;
        let ghost v0 = self.side_vec(side);
        let ghost ov = self.side_vec(side.opposite_spec());
        let ghost ids0 = self.by_id@;
        let ghost s0 = *self;
        proof {
            self.lemma_slot_of(side, li, k);
        }
        let maker = match self.arena.get(h) {
            Some(n) => n.value,
            None => {
                return;
            },
        };
        let idx = match self.find_level(maker.side, maker.price) {
            Some(i) => i,
            None => {
                return;
            },
        };
        proof {
            if idx as int != li {
                if (idx as int) < li {
                    assert(better(side, v0[idx as int].price, v0[li].price));
                } else {
                    assert(better(side, v0[li].price, v0[idx as int].price));
                }
            }
        }
        match maker.side {
            Side::Buy => {
                ladder_remove(&mut self.bids, &mut self.arena, idx, h, Ghost(side), Ghost(k));
            },
            Side::Sell => {
                ladder_remove(&mut self.asks, &mut self.arena, idx, h, Ghost(side), Ghost(k));
            },
        }
        let _ = self.by_id.remove(&maker.id);
        proof {
            let m1 = self.arena@;
            let v1 = self.side_vec(side);
            let os = side.opposite_spec();
            assert(self.side_vec(os) == ov);
            assert(side_ok(os, ov, m0));
            assert forall|l2: int, k2: int| at(hs_of(ov), l2, k2) implies #[trigger] m1.contains_key(ov[l2].fifo.node_seq()[k2]@)
                && m1[ov[l2].fifo.node_seq()[k2]@] == m0[ov[l2].fifo.node_seq()[k2]@] by {
                let x = ov[l2].fifo.node_seq()[k2]@;
                if v0[li].fifo.owns(x) {
                    v0[li].fifo.lemma_position_of(x);
                    let kx = v0[li].fifo.position_of(x);
                    assert(at(hs_of(v0), li, kx));
                    s0.lemma_unique(side, li, kx, os, l2, k2);
                }
                assert(ov[l2].fifo.wf_in(m0));
                if x == h@ {
                    s0.lemma_unique(side, li, k, os, l2, k2);
                }
            }
            lemma_ladder_frame(os, ov, m0, m1);
            assert(side_ok(Side::Buy, self.bids@, m1));
            assert(side_ok(Side::Sell, self.asks@, m1));
            assert(self.by_id@ == ids0.remove(maker.id));
            assert(forall|i: nat| #[trigger] m1.contains_key(i) ==> m1[i].value == m0[i].value);
            lemma_ids_after_remove(s0, *self, side, li, k, h);
            assert forall|i: nat| #[trigger] m1.contains_key(i) implies in_ladder(self.side_vec(Side::Buy), i) || in_ladder(
                self.side_vec(Side::Sell),
                i,
            ) by {
                assert(m0.contains_key(i) && i != h@);
                if in_ladder(v0, i) {
                    assert(v0[li].fifo.wf_in(m0));
                    lemma_in_ladder_remove(v0, v1, li, k, i);
                }
            }
        }
    }

    /// The rank at which a maker at `price` goes on `side`: the first level that does not rank
    /// ahead of it, and whether that level has its price.
    fn find_position(&self, side: Side, price: U256) -> (r: (usize, bool))
        requires
            self.book_wf(),
        ensures
            r.0 <= self.side_vec(side).len(),
            forall|j: int| 0 <= j < r.0 ==> better(side, #[trigger] self.side_vec(side)[j].price, price),
            r.0 == self.side_vec(side).len() || !better(side, self.side_vec(side)[r.0 as int].price, price),
            r.1 == (r.0 < self.side_vec(side).len() && self.side_vec(side)[r.0 as int].price == price),
    {
        let vec = match side {
            Side::Buy => &self.bids,
            Side::Sell => &self.asks,
        };
        let mut i: usize = 0;
        while i < vec.len()
            invariant
                0 <= i <= vec@.len(),
                vec@ == self.side_vec(side),
                forall|j: int| 0 <= j < i ==> better(side, #[trigger] vec@[j].price, price),
            decreases vec.len() - i,
        {
            let ahead = match side {
                Side::Buy => price.lt(&vec[i].price),
                Side::Sell => vec[i].price.lt(&price),
            };
            if !ahead {
                proof {
                    crate::u256::lemma_value_injective(vec@[i as int].price, price);
                }
                let same = vec[i].price.eq_value(&price);
                return (i, same);
            }
            i = i + 1;
        }
        (i, false)
    }

    /// Queues `maker` at the back of the level at its price, creating the level if needed.
    pub fn push_maker(&mut self, maker: MakerView) -> (r: Index)
        requires
            old(self).wf(),
            old(self).can_rest(maker.id),
            maker.remaining_base.value() > 0,
        ensures
            final(self).wf(),
            final(self).levels(maker.side) == place(old(self).levels(maker.side), maker.side, maker),
            final(self).levels(maker.side.opposite_spec()) == old(self).levels(maker.side.opposite_spec()),
            final(self).handles(maker.side.opposite_spec()) == old(self).handles(maker.side.opposite_spec()),
            !final(self).can_rest(maker.id),
    {
        let ghost s0 = *self;
        let ghost side = maker.side;
        let ghost m0 = self.arena@;
        let ghost v0 = self.side_vec(side);
        let ghost ov = self.side_vec(side.opposite_spec());
        let (pos, found) = self.find_position(maker.side, maker.price);
        let idx = match maker.side {
            Side::Buy => ladder_insert(&mut self.bids, &mut self.arena, pos, found, maker),
            Side::Sell => ladder_insert(&mut self.asks, &mut self.arena, pos, found, maker),
        };
        let _ = self.by_id.insert(maker.id, idx);
        proof {
            let m1 = self.arena@;
            let os = side.opposite_spec();
            assert(self.side_vec(os) == ov);
            assert(side_ok(os, ov, m0));
            assert forall|l2: int, k2: int| at(hs_of(ov), l2, k2) implies #[trigger] m1.contains_key(ov[l2].fifo.node_seq()[k2]@)
                && m1[ov[l2].fifo.node_seq()[k2]@] == m0[ov[l2].fifo.node_seq()[k2]@] by {
                let x = ov[l2].fifo.node_seq()[k2]@;
                assert(ov[l2].fifo.wf_in(m0));
                assert(m0.contains_key(x));
                if found && v0[pos as int].fifo.owns(x) {
                    v0[pos as int].fifo.lemma_position_of(x);
                    let kx = v0[pos as int].fifo.position_of(x);
                    assert(at(hs_of(v0), pos as int, kx));
                    s0.lemma_unique(side, pos as int, kx, os, l2, k2);
                }
            }
            lemma_ladder_frame(os, ov, m0, m1);
            assert(side_ok(Side::Buy, self.bids@, m1));
            assert(side_ok(Side::Sell, self.asks@, m1));
            lemma_ids_after_insert(s0, *self, side, pos as int, found, idx, maker);
            let v1 = self.side_vec(side);
            assert forall|i: nat| #[trigger] m1.contains_key(i) implies in_ladder(self.side_vec(Side::Buy), i) || in_ladder(
                self.side_vec(Side::Sell),
                i,
            ) by {
                lemma_in_ladder_insert(v0, v1, pos as int, found, idx, i);
            }
        }
        idx
    }

    pub fn new() -> (r: OrderBook)
        ensures
            r.wf(),
            r.levels(Side::Buy).len() == 0,
            r.levels(Side::Sell).len() == 0,
            forall|id: OrderId| r.can_rest(id),
    {
        broadcast use vstd::laws_cmp::group_laws_cmp;
        let r = OrderBook { arena: Arena::new(), bids: Vec::new(), asks: Vec::new(), by_id: BTreeMap::new() };
        proof {
            assert(r.side_vec(Side::Buy).len() == 0);
            assert(r.side_vec(Side::Sell).len() == 0);
            assert(r.arena.can_alloc());
        }
        r
    }

    /// Walks level `li` of `side` from its head looking for the handle `idx`.
    fn find_in_level(&self, side: Side, li: usize, idx: Index) -> (r: (bool, Ghost<int>))
        requires
            self.book_wf(),
            li < self.side_vec(side).len(),
        ensures
            r.0 ==> at(hs_of(self.side_vec(side)), li as int, r.1@) && self.side_vec(side)[li as int].fifo.node_seq()[r.1@]
                == idx,
            !r.0 ==> forall|k: int|
                0 <= k < self.side_vec(side)[li as int].fifo.node_seq().len() ==> #[trigger] self.side_vec(
                    side,
                )[li as int].fifo.node_seq()[k] != idx,
    {
        let vec = match side {
            Side::Buy => &self.bids,
            Side::Sell => &self.asks,
        };
        let ghost n = vec@[li as int].fifo.node_seq();
        let ghost m = self.arena@;
        proof {
            assert(side_ok(side, vec@, m));
            assert(vec@[li as int].fifo.wf_in(m));
        }
        let mut cur = vec[li].fifo.head;
        let ghost mut k: int = 0;
        loop
            invariant
                vec@ == self.side_vec(side),
                li < vec@.len(),
                n == vec@[li as int].fifo.node_seq(),
                m == self.arena@,
                self.arena.wf(),
                chain_ok(n, m),
                0 <= k <= n.len(),
                cur == if k < n.len() { Some(n[k]) } else { None::<Index> },
                forall|j: int| 0 <= j < k ==> #[trigger] n[j] != idx,
            decreases n.len() - k,
        {
            match cur {
                None => {
                    return (false, Ghost(0));
                },
                Some(c) => {
                    if c == idx {
                        proof {
                            assert(k < n.len());
                            assert(hs_of(vec@)[li as int] == n);
                        }
                        return (true, Ghost(k));
                    }
                    let next = match self.arena.get(c) {
                        Some(node) => node.next,
                        None => None,
                    };
                    cur = next;
                    proof {
                        k = k + 1;
                    }
                },
            }
        }
    }

    /// The handle and position of the maker with this id.
    fn locate(&self, id: OrderId) -> (r: Option<(Index, Ghost<(Side, int, int)>)>)
        requires
            self.book_wf(),
        ensures
            r matches Some((h, g)) ==> at(hs_of(self.side_vec(g@.0)), g@.1, g@.2) && self.side_vec(g@.0)[g@.1].fifo.node_seq()[g@.2] == h
                && value_at(self.side_vec(g@.0), self.arena@, g@.1, g@.2).id == id,
            r is None ==> forall|s: Side, li: int, k: int|
                at(hs_of(self.side_vec(s)), li, k) ==> #[trigger] value_at(self.side_vec(s), self.arena@, li, k).id != id,
    {
        let idx = match self.by_id.get(&id) {
            Some(i) => *i,
            None => {
                return None;
            },
        };
        let v = match self.arena.get(idx) {
            Some(n) => n.value,
            None => {
                return None;
            },
        };
        let ghost m = self.arena@;
        proof {
            assert forall|s: Side, li: int, k: int|
                at(hs_of(self.side_vec(s)), li, k) && #[trigger] value_at(self.side_vec(s), m, li, k).id == id implies s == v.side
                    && self.side_vec(s)[li].price == v.price && self.side_vec(s)[li].fifo.node_seq()[k] == idx by {
                self.lemma_slot_of(s, li, k);
            }
        }
        let li = match self.find_level(v.side, v.price) {
            Some(i) => i,
            None => {
                return None;
            },
        };
        let (found, gk) = self.find_in_level(v.side, li, idx);
        let ghost k = gk@;
        if !found {
            proof {
                assert forall|s: Side, l2: int, k2: int|
                    at(hs_of(self.side_vec(s)), l2, k2) implies #[trigger] value_at(self.side_vec(s), m, l2, k2).id != id by {
                    if value_at(self.side_vec(s), m, l2, k2).id == id {
                        let vec = self.side_vec(s);
                        if l2 != li as int {
                            if l2 < li as int {
                                assert(better(s, vec[l2].price, vec[li as int].price));
                            } else {
                                assert(better(s, vec[li as int].price, vec[l2].price));
                            }
                        }
                    }
                }
            }
            return None;
        }
        proof {
            self.lemma_slot_of(v.side, li as int, k);
        }
        Some((idx, Ghost((v.side, li as int, k))))
    }

    /// Two makers of the book with one id are one maker.
    pub proof fn lemma_ids_unique(&self, s1: Side, l1: int, k1: int, s2: Side, l2: int, k2: int)
        requires
            self.wf(),
            at(self.handles(s1), l1, k1),
            at(self.handles(s2), l2, k2),
            self.levels(s1)[l1][k1].id == self.levels(s2)[l2][k2].id,
        ensures
            s1 == s2 && l1 == l2 && k1 == k2,
            self.levels(s1)[l1][k1] == self.levels(s2)[l2][k2],
    {
        let m = self.arena@;
        lemma_lv_entry(self.side_vec(s1), m, l1, k1);
        lemma_lv_entry(self.side_vec(s2), m, l2, k2);
        let id = self.levels(s1)[l1][k1].id;
        assert(self.by_id@[value_at(self.side_vec(s1), m, l1, k1).id] == self.side_vec(s1)[l1].fifo.node_seq()[k1]);
        assert(self.by_id@[value_at(self.side_vec(s2), m, l2, k2).id] == self.side_vec(s2)[l2].fifo.node_seq()[k2]);
        self.lemma_unique(s1, l1, k1, s2, l2, k2);
    }

    /// Whether a resting order with this id can be inserted.
    pub fn can_rest_id(&self, id: OrderId) -> (r: bool)
        requires
            self.wf(),
        ensures
            r == self.can_rest(id),
    {
        self.arena.can_insert() && !self.by_id.contains_key(&id)
    }

    /// Removes the resting order `order_id` and returns it.
    pub fn cancel(&mut self, order_id: OrderId) -> (r: Option<MakerView>)
        requires
            old(self).wf(),
        ensures
            final(self).wf(),
            r is None ==> *final(self) == *old(self) && forall|s: Side, li: int, k: int|
                at(old(self).handles(s), li, k) ==> #[trigger] old(self).levels(s)[li][k].id != order_id,
            r matches Some(v) ==> exists|s: Side, li: int, k: int|
                #![trigger old(self).levels(s)[li][k]]
                at(old(self).handles(s), li, k) && old(self).levels(s)[li][k] == v && v.id == order_id
                    && final(self).levels(s) == remove_at(old(self).levels(s), li, k) && final(self).levels(
                    s.opposite_spec(),
                ) == old(self).levels(s.opposite_spec()),
    {
        let (idx, gp) = match self.locate(order_id) {
            Some(x) => x,
            None => {
                proof {
                    assert forall|s: Side, li: int, k: int| at(self.handles(s), li, k) implies #[trigger] self.levels(s)[li][k].id
                        != order_id by {
                        lemma_lv_entry(self.side_vec(s), self.arena@, li, k);
                    }
                }
                return None;
            },
        };
        let ghost g = gp@;
        let maker = match self.arena.get(idx) {
            Some(n) => n.value,
            None => {
                proof {
                    self.lemma_slot_of(g.0, g.1, g.2);
                }
                return None;
            },
        };
        let ghost old_lv = self.levels(g.0);
        proof {
            self.lemma_slot_of(g.0, g.1, g.2);
            lemma_lv_entry(self.side_vec(g.0), self.arena@, g.1, g.2);
        }
        self.remove_at_position(idx, Ghost(g.0), Ghost(g.1), Ghost(g.2));
        proof {
            assert(old_lv[g.1][g.2] == maker);
        }
        Some(maker)
    }

    /// The resting order `order_id`, if it is in the book.
    pub fn peek_order(&self, order_id: OrderId) -> (r: Option<MakerView>)
        requires
            self.wf(),
        ensures
            r is None ==> forall|s: Side, li: int, k: int|
                at(self.handles(s), li, k) ==> #[trigger] self.levels(s)[li][k].id != order_id,
            r matches Some(v) ==> exists|s: Side, li: int, k: int|
                #![trigger self.levels(s)[li][k]]
                at(self.handles(s), li, k) && self.levels(s)[li][k] == v && v.id == order_id,
    {
        match self.locate(order_id) {
            Some((idx, gp)) => {
                let ghost g = gp@;
                proof {
                    self.lemma_slot_of(g.0, g.1, g.2);
                    lemma_lv_entry(self.side_vec(g.0), self.arena@, g.1, g.2);
                }
                match self.arena.get(idx) {
                    Some(n) => {
                        proof {
                            assert(self.levels(g.0)[g.1][g.2] == n.value);
                            assert(at(self.handles(g.0), g.1, g.2));
                        }
                        Some(n.value)
                    },
                    None => None,
                }
            },
            None => {
                proof {
                    assert forall|s: Side, li: int, k: int| at(self.handles(s), li, k) implies #[trigger] self.levels(s)[li][k].id
                        != order_id by {
                        lemma_lv_entry(self.side_vec(s), self.arena@, li, k);
                    }
                }
                None
            },
        }
    }

    /// A copy of the book, to fall back on when a change built on it must be undone.
    pub fn snapshot(&self) -> (r: OrderBook)
        requires
            self.wf(),
        ensures
            r.wf(),
            r.levels(Side::Buy) == self.levels(Side::Buy),
            r.levels(Side::Sell) == self.levels(Side::Sell),
            r.handles(Side::Buy) == self.handles(Side::Buy),
            r.handles(Side::Sell) == self.handles(Side::Sell),
            forall|id: OrderId| #[trigger] r.can_rest(id) == self.can_rest(id),
    {
        let r = OrderBook {
            arena: self.arena.snapshot(),
            bids: copy_levels(&self.bids),
            asks: copy_levels(&self.asks),
            by_id: self.by_id.clone(),
        };
        proof {
            assert(r.side_vec(Side::Buy) == self.side_vec(Side::Buy));
            assert(r.side_vec(Side::Sell) == self.side_vec(Side::Sell));
        }
        r
    }

    /// Two positions holding one handle are one position.
    proof fn lemma_unique(&self, s1: Side, l1: int, k1: int, s2: Side, l2: int, k2: int)
        requires
            self.book_wf(),
            at(hs_of(self.side_vec(s1)), l1, k1),
            at(hs_of(self.side_vec(s2)), l2, k2),
            self.side_vec(s1)[l1].fifo.node_seq()[k1]@ == self.side_vec(s2)[l2].fifo.node_seq()[k2]@,
        ensures
            s1 == s2 && l1 == l2 && k1 == k2,
    {
        let m = self.arena@;
        let v1 = value_at(self.side_vec(s1), m, l1, k1);
        let v2 = value_at(self.side_vec(s2), m, l2, k2);
        assert(side_ok(s1, self.side_vec(s1), m));
        assert(side_ok(s2, self.side_vec(s2), m));
        assert(v1 == v2);
        assert(s1 == s2);
        let vec = self.side_vec(s1);
        if l1 < l2 {
            assert(better(s1, vec[l1].price, vec[l2].price));
        } else if l2 < l1 {
            assert(better(s1, vec[l2].price, vec[l1].price));
        }
        assert(l1 == l2);
        let n = vec[l1].fifo.node_seq();
        assert(vec[l1].fifo.wf_in(m));
        assert(chain_ok(n, m));
        assert(distinct_slots(n));
    }
}

impl Book for OrderBook {
    closed spec fn wf(&self) -> bool {
        self.book_wf()
    }

    closed spec fn levels(&self, side: Side) -> Seq<Seq<MakerView>> {
        lv_of(self.side_vec(side), self.arena@)
    }

    closed spec fn handles(&self, side: Side) -> Seq<Seq<Index>> {
        hs_of(self.side_vec(side))
    }

    closed spec fn can_rest(&self, id: OrderId) -> bool {
        self.arena.can_alloc() && !self.by_id@.contains_key(id)
    }

    proof fn lemma_wf(&self) {
        let m = self.arena@;
        assert forall|s: Side| #![auto] ladder_ok(s, self.levels(s), self.handles(s)) by {
            let vec = self.side_vec(s);
            let lv = self.levels(s);
            let hs = self.handles(s);
            assert(side_ok(s, vec, m));
            assert forall|li: int| 0 <= li < lv.len() implies (#[trigger] lv[li]).len() > 0 && lv[li].len() == hs[li].len() by {
                assert(vec[li].fifo.node_seq().len() > 0);
            }
            assert forall|li: int, k: int| 0 <= li < lv.len() && 0 <= k < lv[li].len() implies {
                let mk = #[trigger] lv[li][k];
                &&& mk.side == s
                &&& mk.price == lv[li][0].price
                &&& mk.remaining_base.value() > 0
            } by {
                assert(lv[li][k] == value_at(vec, m, li, k));
                assert(lv[li][0] == value_at(vec, m, li, 0));
                assert(vec[li].fifo.node_seq().len() > 0);
                assert(at(hs_of(vec), li, k));
                assert(at(hs_of(vec), li, 0));
            }
            assert forall|i: int, j: int| 0 <= i < j < lv.len() implies better(s, lv[i][0].price, lv[j][0].price) by {
                assert(vec[i].fifo.node_seq().len() > 0);
                assert(vec[j].fifo.node_seq().len() > 0);
                assert(at(hs_of(vec), i, 0));
                assert(at(hs_of(vec), j, 0));
                assert(lv[i][0] == value_at(vec, m, i, 0));
                assert(lv[j][0] == value_at(vec, m, j, 0));
            }
            assert forall|l1: int, k1: int, l2: int, k2: int|
                at(hs, l1, k1) && at(hs, l2, k2) && (l1 != l2 || k1 != k2) implies (#[trigger] hs[l1][k1])@ != (
                #[trigger] hs[l2][k2])@ by {
                if hs[l1][k1]@ == hs[l2][k2]@ {
                    self.lemma_unique(s, l1, k1, s, l2, k2);
                }
            }
        }
        assert(ladder_ok(Side::Buy, self.levels(Side::Buy), self.handles(Side::Buy)));
        assert(ladder_ok(Side::Sell, self.levels(Side::Sell), self.handles(Side::Sell)));
        assert forall|l1: int, k1: int, l2: int, k2: int|
            at(self.handles(Side::Buy), l1, k1) && at(self.handles(Side::Sell), l2, k2) implies (
            #[trigger] self.handles(Side::Buy)[l1][k1])@ != (#[trigger] self.handles(Side::Sell)[l2][k2])@ by {
            if self.handles(Side::Buy)[l1][k1]@ == self.handles(Side::Sell)[l2][k2]@ {
                self.lemma_unique(Side::Buy, l1, k1, Side::Sell, l2, k2);
            }
        }
    }

    fn best_price(&self, maker_side: Side) -> (r: Option<U256>) {
        let vec = match maker_side {
            Side::Buy => &self.bids,
            Side::Sell => &self.asks,
        };
        if vec.len() == 0 {
            None
        } else {
            proof {
                let m = self.arena@;
                assert(side_ok(maker_side, vec@, m));
                assert(vec@[0].fifo.node_seq().len() > 0);
                assert(at(hs_of(vec@), 0, 0));
                assert(self.levels(maker_side)[0][0] == value_at(vec@, m, 0, 0));
            }
            Some(vec[0].price)
        }
    }

    fn next_price(&self, maker_side: Side, price: U256) -> (r: Option<U256>) {
        let vec = match maker_side {
            Side::Buy => &self.bids,
            Side::Sell => &self.asks,
        };
        let ghost m = self.arena@;
        let ghost lv = self.levels(maker_side);
        proof {
            assert(side_ok(maker_side, vec@, m));
            assert forall|li: int| 0 <= li < vec@.len() implies #[trigger] lv[li][0].price == vec@[li].price by {
                assert(vec@[li].fifo.node_seq().len() > 0);
                assert(at(hs_of(vec@), li, 0));
                assert(lv[li][0] == value_at(vec@, m, li, 0));
            }
        }
        let mut i: usize = 0;
        while i < vec.len()
            invariant
                0 <= i <= vec@.len(),
                lv.len() == vec@.len(),
                lv == self.levels(maker_side),
                forall|li: int| 0 <= li < vec@.len() ==> #[trigger] lv[li][0].price == vec@[li].price,
                forall|lj: int| 0 <= lj < i ==> !better(maker_side, price, #[trigger] lv[lj][0].price),
            decreases vec.len() - i,
        {
            let p = vec[i].price;
            let worse = match maker_side {
                Side::Buy => p.lt(&price),
                Side::Sell => price.lt(&p),
            };
            if worse {
                proof {
                    lemma_next_price_skip(lv, maker_side, price, i as int);
                    assert(lv.skip(i as int)[0] == lv[i as int]);
                }
                return Some(p);
            }
            i = i + 1;
        }
        proof {
            lemma_next_price_skip(lv, maker_side, price, i as int);
            assert(lv.skip(i as int).len() == 0);
        }
        None
    }

    fn level_head(&self, maker_side: Side, price: U256) -> (r: Option<Index>) {
        let vec = match maker_side {
            Side::Buy => &self.bids,
            Side::Sell => &self.asks,
        };
        let ghost m = self.arena@;
        let ghost lv = self.levels(maker_side);
        let ghost hs = self.handles(maker_side);
        proof {
            assert(side_ok(maker_side, vec@, m));
            assert forall|li: int| 0 <= li < vec@.len() implies #[trigger] lv[li][0].price == vec@[li].price
                && vec@[li].fifo.head == Some(hs[li][0]) by {
                assert(vec@[li].fifo.wf_in(m));
                assert(vec@[li].fifo.node_seq().len() > 0);
                assert(at(hs_of(vec@), li, 0));
                assert(lv[li][0] == value_at(vec@, m, li, 0));
            }
        }
        let mut i: usize = 0;
        while i < vec.len()
            invariant
                0 <= i <= vec@.len(),
                lv.len() == vec@.len(),
                hs.len() == vec@.len(),
                lv == self.levels(maker_side),
                hs == self.handles(maker_side),
                forall|li: int|
                    0 <= li < vec@.len() ==> #[trigger] lv[li][0].price == vec@[li].price && vec@[li].fifo.head
                        == Some(hs[li][0]),
                forall|lj: int| 0 <= lj < i ==> #[trigger] lv[lj][0].price != price,
            decreases vec.len() - i,
        {
            if vec[i].price.eq_value(&price) {
                proof {
                    crate::u256::lemma_value_injective(vec@[i as int].price, price);
                    lemma_head_skip(lv, hs, price, i as int);
                    assert(lv.skip(i as int)[0] == lv[i as int]);
                    assert(hs.skip(i as int)[0] == hs[i as int]);
                }
                return vec[i].fifo.head;
            }
            proof {
                crate::u256::lemma_value_injective(vec@[i as int].price, price);
            }
            i = i + 1;
        }
        proof {
            lemma_head_skip(lv, hs, price, i as int);
            assert(lv.skip(i as int).len() == 0);
        }
        None
    }

    fn next_in_level(&self, h: Index) -> (r: Option<Index>) {
        proof {
            assert forall|side: Side, li: int, k: int|
                at(self.handles(side), li, k) && #[trigger] self.handles(side)[li][k] == h implies self.arena@.contains_key(h@)
                && self.arena@[h@].next == if k + 1 < self.handles(side)[li].len() {
                    Some(self.handles(side)[li][k + 1])
                } else {
                    None
                } by {
                let vec = self.side_vec(side);
                assert(side_ok(side, vec, self.arena@));
                assert(vec[li].fifo.wf_in(self.arena@));
            }
        }
        match self.arena.get(h) {
            Some(node) => node.next,
            None => None,
        }
    }

    fn get_maker(&self, h: Index) -> (r: Option<MakerView>) {
        proof {
            assert forall|side: Side, li: int, k: int|
                at(self.handles(side), li, k) && #[trigger] self.handles(side)[li][k] == h implies self.arena@.contains_key(h@)
                && self.arena@[h@].value == self.levels(side)[li][k] by {
                let vec = self.side_vec(side);
                assert(side_ok(side, vec, self.arena@));
                assert(vec[li].fifo.wf_in(self.arena@));
            }
        }
        proof {
            if self.arena@.contains_key(h@) {
                let s = if in_ladder(self.side_vec(Side::Buy), h@) { Side::Buy } else { Side::Sell };
                let hs = hs_of(self.side_vec(s));
                let (li, k) = choose|li: int, k: int| at(hs, li, k) && (#[trigger] hs[li][k])@ == h@;
                assert(self.handles(s)[li][k] == h);
            }
        }
        match self.arena.get(h) {
            Some(node) => Some(node.value),
            None => None,
        }
    }

    fn set_maker_remaining(&mut self, h: Index, new_remaining_base: U256) {
        let ghost t = choose|side: Side, li: int, k: int|
            at(self.handles(side), li, k) && #[trigger] self.handles(side)[li][k] == h;
        let cur = match self.arena.get(h) {
            Some(n) => n.value,
            None => {
                proof {
                    self.lemma_slot_of(t.0, t.1, t.2);
                }
                return;
            },
        };
        proof {
            self.lemma_slot_of(t.0, t.1, t.2);
            self.lemma_only_position(h, t.0, t.1, t.2);
        }
        let v = MakerView { remaining_base: new_remaining_base, ..cur };
        self.update_value(h, v, Ghost(t.0), Ghost(t.1), Ghost(t.2));
    }

    fn set_maker_reserved_quote(&mut self, h: Index, new_reserved_quote: U256) {
        let ghost t = choose|side: Side, li: int, k: int|
            at(self.handles(side), li, k) && #[trigger] self.handles(side)[li][k] == h;
        let cur = match self.arena.get(h) {
            Some(n) => n.value,
            None => {
                proof {
                    self.lemma_slot_of(t.0, t.1, t.2);
                }
                return;
            },
        };
        proof {
            self.lemma_slot_of(t.0, t.1, t.2);
            self.lemma_only_position(h, t.0, t.1, t.2);
        }
        let v = MakerView { reserved_quote: new_reserved_quote, ..cur };
        self.update_value(h, v, Ghost(t.0), Ghost(t.1), Ghost(t.2));
    }

    fn remove_maker(&mut self, h: Index) {
        let ghost t = choose|side: Side, li: int, k: int|
            at(self.handles(side), li, k) && #[trigger] self.handles(side)[li][k] == h;
        proof {
            self.lemma_slot_of(t.0, t.1, t.2);
            self.lemma_only_position(h, t.0, t.1, t.2);
        }
        self.remove_at_position(h, Ghost(t.0), Ghost(t.1), Ghost(t.2));
    }

    fn insert_resting(&mut self, o: RestingOrder) {
        self.push_maker(
            MakerView {
                id: o.id,
                owner: o.owner,
                side: o.side,
                price: o.price,
                remaining_base: o.remaining_base,
                reserved_quote: o.remaining_quote,
            },
        );
    }
}

} // verus!
