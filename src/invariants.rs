//! Facts that hold of every well-formed book manager, and laws that relate
//! its operations.
use vstd::prelude::*;
use crate::level::PriceLevel;
use crate::order::{entry_at, lemma_qty_sum_zero, qty_sum, share, Order};
use crate::orderbook::{side_has_price, side_holds, side_sorted, side_total, OrderBook};
use crate::orderbook_manager::{at_level, OrderBookManager, RestingOrder};
use crate::price::Price;
use crate::quantity::Qty;

verus! {

/// Selects the orders of book `bk` whose level, in book `b`, is on the bid
/// side (`bid`) or on the ask side.
pub open spec fn on_side(bk: u32, b: OrderBook, bid: bool) -> spec_fn(Order) -> bool {
    |o: Order| o.book_id.0 == bk && (b.level(o.level_id.0).price.0 > 0) == bid
}

/// The summed order quantities of the levels that `side` names.
spec fn levels_orders(side: Seq<PriceLevel>, data: Seq<Option<Order>>, bk: u32) -> nat
    decreases side.len(),
{
    if side.len() == 0 {
        0
    } else {
        levels_orders(side.drop_last(), data, bk) + qty_sum(data, at_level(bk, side.last().level_id.0))
    }
}

/// The share of one entry summed over the levels that `side` names.
spec fn levels_share(side: Seq<PriceLevel>, x: Option<Order>, bk: u32) -> nat
    decreases side.len(),
{
    if side.len() == 0 {
        0
    } else {
        levels_share(side.drop_last(), x, bk) + share(x, at_level(bk, side.last().level_id.0))
    }
}

proof fn lemma_levels_orders_step(side: Seq<PriceLevel>, data: Seq<Option<Order>>, bk: u32)
    requires
        data.len() > 0,
    ensures
        levels_orders(side, data, bk) == levels_orders(side, data.drop_last(), bk) + levels_share(
            side,
            data.last(),
            bk,
        ),
    decreases side.len(),
{
    if side.len() > 0 {
        lemma_levels_orders_step(side.drop_last(), data, bk);
    }
}

proof fn lemma_levels_share(side: Seq<PriceLevel>, o: Order, bk: u32)
    requires
        o.book_id.0 == bk,
        forall|i: int, j: int|
            0 <= i < side.len() && 0 <= j < side.len() && i != j ==> #[trigger] side[i].level_id
                != #[trigger] side[j].level_id,
    ensures
        levels_share(side, Some(o), bk) == if side_holds(side, o.level_id.0) {
            o.qty.0 as nat
        } else {
            0
        },
    decreases side.len(),
{
    if side.len() > 0 {
        let d = side.drop_last();
        lemma_levels_share(d, o, bk);
        let last = side.len() - 1;
        if side[last].level_id.0 == o.level_id.0 {
            assert(side_holds(side, o.level_id.0));
            assert(!side_holds(d, o.level_id.0)) by {
                if side_holds(d, o.level_id.0) {
                    let j = choose|j: int| 0 <= j < d.len() && d[j].level_id.0 == o.level_id.0;
                    assert(side[j].level_id != side[last].level_id);
                }
            }
        } else {
            assert(side_holds(side, o.level_id.0) == side_holds(d, o.level_id.0)) by {
                if side_holds(side, o.level_id.0) {
                    let j = choose|j: int| 0 <= j < side.len() && side[j].level_id.0 == o.level_id.0;
                    assert(d[j] == side[j]);
                }
                if side_holds(d, o.level_id.0) {
                    let j = choose|j: int| 0 <= j < d.len() && d[j].level_id.0 == o.level_id.0;
                    assert(d[j] == side[j]);
                }
            }
        }
    }
}

/// Exchange of the two sums: by levels of the side, then by orders.
proof fn lemma_exchange(b: OrderBook, bk: u32, bid: bool, data: Seq<Option<Order>>)
    requires
        b.wf(),
        forall|i: int|
            0 <= i < data.len() && (#[trigger] data[i]) is Some && data[i]->0.book_id.0 == bk
                ==> b.linked(data[i]->0.level_id.0),
    ensures
        levels_orders(if bid { b.bids@ } else { b.asks@ }, data, bk) == qty_sum(data, on_side(bk, b, bid)),
    decreases data.len(),
{
    let side = if bid { b.bids@ } else { b.asks@ };
    if data.len() == 0 {
        assert(levels_orders(side, data, bk) == 0) by {
            lemma_levels_orders_empty(side, data, bk);
        }
    } else {
        let d = data.drop_last();
        assert forall|i: int|
            0 <= i < d.len() && (#[trigger] d[i]) is Some && d[i]->0.book_id.0 == bk
                implies b.linked(d[i]->0.level_id.0) by {
            assert(d[i] == data[i]);
        }
        lemma_exchange(b, bk, bid, d);
        lemma_levels_orders_step(side, data, bk);
        b.lemma_handles_distinct();
        let x = data.last();
        match x {
            Some(o) => {
                if o.book_id.0 == bk {
                    assert(data[data.len() - 1] == x);
                    lemma_levels_share(side, o, bk);
                    b.lemma_linked_on_side(o.level_id.0);
                    if side_holds(b.bids@, o.level_id.0) {
                        let j = choose|j: int| 0 <= j < b.bids@.len() && b.bids@[j].level_id.0 == o.level_id.0;
                        assert(b.bid_ok(b.bids@[j]));
                        if !bid {
                            assert(!side_holds(b.asks@, o.level_id.0)) by {
                                if side_holds(b.asks@, o.level_id.0) {
                                    let k = choose|k: int| 0 <= k < b.asks@.len() && b.asks@[k].level_id.0 == o.level_id.0;
                                    assert(b.bids@[j].level_id != b.asks@[k].level_id);
                                }
                            }
                        }
                    } else {
                        let j = choose|j: int| 0 <= j < b.asks@.len() && b.asks@[j].level_id.0 == o.level_id.0;
                        assert(b.ask_ok(b.asks@[j]));
                    }
                } else {
                    lemma_levels_share_other(side, o, bk);
                }
            },
            None => {
                lemma_levels_share_none(side, bk);
            },
        }
    }
}

proof fn lemma_levels_orders_empty(side: Seq<PriceLevel>, data: Seq<Option<Order>>, bk: u32)
    requires
        data.len() == 0,
    ensures
        levels_orders(side, data, bk) == 0,
    decreases side.len(),
{
    if side.len() > 0 {
        lemma_levels_orders_empty(side.drop_last(), data, bk);
    }
}

proof fn lemma_levels_share_other(side: Seq<PriceLevel>, o: Order, bk: u32)
    requires
        o.book_id.0 != bk,
    ensures
        levels_share(side, Some(o), bk) == 0,
    decreases side.len(),
{
    if side.len() > 0 {
        lemma_levels_share_other(side.drop_last(), o, bk);
    }
}

proof fn lemma_levels_share_none(side: Seq<PriceLevel>, bk: u32)
    ensures
        levels_share(side, None, bk) == 0,
    decreases side.len(),
{
    if side.len() > 0 {
        lemma_levels_share_none(side.drop_last(), bk);
    }
}

/// The level sizes of a side add up to the sum over its orders' levels.
proof fn lemma_sizes_are_orders(m: OrderBookManager, bk: u32, side: Seq<PriceLevel>)
    requires
        m.wf(),
        m.has_book(bk),
        forall|k: int| 0 <= k < side.len() ==> m.book(bk).linked(#[trigger] side[k].level_id.0),
    ensures
        side_total(side, m.book(bk).levels()) == levels_orders(side, m.data(), bk),
    decreases side.len(),
{
    if side.len() > 0 {
        let d = side.drop_last();
        assert forall|k: int| 0 <= k < d.len() implies m.book(bk).linked(#[trigger] d[k].level_id.0) by {
            assert(d[k] == side[k]);
        }
        lemma_sizes_are_orders(m, bk, d);
        assert(m.book(bk).linked(side[side.len() - 1].level_id.0));
    }
}

/// Conservation: the resting size of either side of a book is the summed
/// quantity of the live orders on that side of that book.
pub proof fn lemma_side_totals(m: OrderBookManager, bk: u32, bid: bool)
    requires
        m.wf(),
        m.has_book(bk),
    ensures
        m.book(bk).total(bid) == qty_sum(m.data(), on_side(bk, m.book(bk), bid)),
{
    let b = m.book(bk);
    assert(b.wf());
    let side = if bid { b.bids@ } else { b.asks@ };
    assert forall|k: int| 0 <= k < side.len() implies b.linked(#[trigger] side[k].level_id.0) by {}
    lemma_sizes_are_orders(m, bk, side);
    assert forall|i: int|
        0 <= i < m.data().len() && (#[trigger] m.data()[i]) is Some && m.data()[i]->0.book_id.0 == bk
            implies b.linked(m.data()[i]->0.level_id.0) by {
        assert(m.order_ok(m.data()[i]->0));
    }
    lemma_exchange(b, bk, bid, m.data());
}

/// Every live order rests at a level of its own book's pool, linked on the
/// side of that level's sign, and its price is that level's price.
pub proof fn lemma_orders_linked(m: OrderBookManager, id: u32)
    requires
        m.wf(),
        m.orders().contains_key(id),
    ensures
        ({
            let o = entry_at(m.data(), id)->0;
            let b = m.book(o.book_id.0);
            &&& m.has_book(o.book_id.0)
            &&& (o.level_id.0 as int) < b.levels().len()
            &&& side_holds(b.side_of(b.level(o.level_id.0).price.0), o.level_id.0)
            &&& m.orders()[id].price == b.level(o.level_id.0).price
            &&& m.orders()[id].book_id == o.book_id
        }),
{
    let o = entry_at(m.data(), id)->0;
    assert(m.data()[id as int] == entry_at(m.data(), id));
    assert(m.order_ok(o));
    assert(m.book(o.book_id.0).wf());
    m.book(o.book_id.0).lemma_linked_on_side(o.level_id.0);
}

/// A linked level's size is the summed quantity of the live orders that
/// rest at it, and is never zero: a level is unlinked as it empties.
pub proof fn lemma_level_sizes(m: OrderBookManager, bk: u32, lid: u32)
    requires
        m.wf(),
        m.has_book(bk),
        m.book(bk).linked(lid),
    ensures
        m.book(bk).level(lid).size.0 == qty_sum(m.data(), at_level(bk, lid)),
        m.book(bk).level(lid).size.0 > 0,
{
    assert(m.book(bk).wf());
    m.book(bk).lemma_linked_on_side(lid);
}

/// Both sides of every book are strictly decreasing in signed price, bids
/// positive and asks not.
pub proof fn lemma_sides_ordered(m: OrderBookManager, bk: u32)
    requires
        m.wf(),
        m.has_book(bk),
    ensures
        side_sorted(m.book(bk).bids@),
        side_sorted(m.book(bk).asks@),
        forall|k: int| 0 <= k < m.book(bk).bids@.len() ==> (#[trigger] m.book(bk).bids@[k]).price.0 > 0,
        forall|k: int| 0 <= k < m.book(bk).asks@.len() ==> (#[trigger] m.book(bk).asks@[k]).price.0 <= 0,
{
    let b = m.book(bk);
    assert(b.wf());
    assert forall|k: int| 0 <= k < b.bids@.len() implies (#[trigger] b.bids@[k]).price.0 > 0 by {
        assert(b.bid_ok(b.bids@[k]));
    }
    assert forall|k: int| 0 <= k < b.asks@.len() implies (#[trigger] b.asks@[k]).price.0 <= 0 by {
        assert(b.ask_ok(b.asks@[k]));
    }
}

/// Adding an order and removing it again gives back the live orders that
/// were there before, and with them the same prices and sizes on every side
/// of every book (the pool may have grown): `m1` is as `add_order` leaves
/// `m0`, `m2` as `remove_order` of the same id leaves `m1`.
pub proof fn lemma_add_then_remove(
    m0: OrderBookManager,
    m1: OrderBookManager,
    m2: OrderBookManager,
    id: u32,
    r: RestingOrder,
)
    requires
        m0.wf(),
        m2.wf(),
        !m0.orders().contains_key(id),
        m1.orders() == m0.orders().insert(id, r),
        m2.orders() == m1.orders().remove(id),
    ensures
        m2.orders() == m0.orders(),
        forall|bk: u32, bid: bool| #[trigger] side_view(m2, bk, bid) == side_view(m0, bk, bid),
{
    assert(m2.orders() =~= m0.orders());
    assert forall|bk: u32, bid: bool| #[trigger] side_view(m2, bk, bid) == side_view(m0, bk, bid) by {
        lemma_sides_follow_orders(m2, m0, bk, bid);
    }
}

/// Adding an order and removing it again gives back every entry of the
/// order index and every side of every book handle for handle, level ids
/// included: `m0` to `m1` is the effect of `add_order` of a new id, `m1` to
/// `m2` that of `remove_order` of that id.
pub proof fn lemma_add_then_remove_entries(
    m0: OrderBookManager,
    m1: OrderBookManager,
    m2: OrderBookManager,
    id: u32,
    bk: u32,
    bid: bool,
    sp: i32,
    qty: Qty,
)
    requires
        m0.wf(),
        m1.wf(),
        qty.0 > 0,
        !m0.orders().contains_key(id),
        m0.add_effect(m1, id, bk, bid, sp, qty),
        m1.take_effect(m2, id, qty.0),
    ensures
        forall|x: u32| #[trigger] entry_at(m2.data(), x) == entry_at(m0.data(), x),
        forall|b: u32, d: bool| #[trigger] m2.side_seq(b, d) == m0.side_seq(b, d),
{
    let o = entry_at(m1.data(), id)->0;
    let lid = o.level_id.0;
    let b1 = m1.book(bk);
    let b2 = m2.book(bk);
    assert(entry_at(m0.data(), id) is None);
    assert forall|x: u32| #[trigger] entry_at(m2.data(), x) == entry_at(m0.data(), x) by {
        if x != id {
            assert(entry_at(m2.data(), x) == entry_at(m1.data(), x));
        }
    }
    assert(b1.wf());
    b1.lemma_handles_distinct();
    let was = m0.has_book(bk) && m0.book(bk).linked(lid);
    if was {
        let b0 = m0.book(bk);
        assert(b0.wf());
        b0.lemma_linked_on_side(lid);
        assert(b1.level(lid).size.0 != qty.0);
    } else {
        assert(b1.level(lid).size.0 == qty.0);
        let e = crate::level::PriceLevel { level_id: o.level_id, price: Price(sp) };
        let k = choose|k: int|
            0 <= k <= m0.side_seq(bk, bid).len() && #[trigger] m1.side_seq(bk, bid) == m0.side_seq(bk, bid).insert(k, e);
        let s0 = m0.side_seq(bk, bid);
        let s1 = m1.side_seq(bk, bid);
        s0.insert_ensures(k, e);
        assert(b1.side_of(sp) == s1);
        let k2 = choose|k2: int|
            0 <= k2 < b1.side_of(sp).len() && b1.side_of(sp)[k2].level_id == o.level_id && #[trigger] b2.side_of(sp) == b1.side_of(sp).remove(k2);
        assert(s1[k] == e);
        if k2 != k {
            if bid {
                assert(b1.bids@[k2].level_id != b1.bids@[k].level_id);
            } else {
                assert(b1.asks@[k2].level_id != b1.asks@[k].level_id);
            }
        }
        assert(s1.remove(k) =~= s0);
        assert(m2.side_seq(bk, bid) == s0);
    }
    assert forall|b: u32, d: bool| #[trigger] m2.side_seq(b, d) == m0.side_seq(b, d) by {
        if b != bk {
            assert(m2.has_book(b) == m1.has_book(b));
            assert(m1.has_book(b) == m0.has_book(b));
        } else if d != bid {
            assert(m1.side_seq(bk, !bid) == m0.side_seq(bk, !bid));
        }
    }
}

/// Adding two orders of distinct ids in either order gives the same live
/// orders and the same sides (time priority goes by id, so neither order is
/// favoured).
pub proof fn lemma_adds_commute(
    m0: OrderBookManager,
    a1: OrderBookManager,
    a2: OrderBookManager,
    b1: OrderBookManager,
    b2: OrderBookManager,
    id1: u32,
    r1: RestingOrder,
    id2: u32,
    r2: RestingOrder,
)
    requires
        a2.wf(),
        b2.wf(),
        id1 != id2,
        a1.orders() == m0.orders().insert(id1, r1),
        a2.orders() == a1.orders().insert(id2, r2),
        b1.orders() == m0.orders().insert(id2, r2),
        b2.orders() == b1.orders().insert(id1, r1),
    ensures
        a2.orders() == b2.orders(),
        forall|bk: u32, bid: bool| #[trigger] side_view(a2, bk, bid) == side_view(b2, bk, bid),
{
    assert(a2.orders() =~= b2.orders());
    assert forall|bk: u32, bid: bool| #[trigger] side_view(a2, bk, bid) == side_view(b2, bk, bid) by {
        lemma_sides_follow_orders(a2, b2, bk, bid);
    }
}

/// A side of a book as prices and sizes, best first; empty for a missing book.
pub open spec fn side_view(m: OrderBookManager, bk: u32, bid: bool) -> Seq<(i32, u32)> {
    if m.has_book(bk) {
        let b = m.book(bk);
        let side = if bid {
            b.bids@
        } else {
            b.asks@
        };
        side.map_values(|e: PriceLevel| (e.price.0, b.level(e.level_id.0).size.0))
    } else {
        Seq::empty()
    }
}

/// The summed quantity of the orders of ids below `n` in book `bk` at
/// stored price `q`.
pub open spec fn price_sum(om: Map<u32, RestingOrder>, bk: u32, q: i32, n: nat) -> nat
    decreases n,
{
    if n == 0 {
        0
    } else {
        let id = (n - 1) as u32;
        price_sum(om, bk, q, (n - 1) as nat) + if om.contains_key(id) && om[id].book_id.0 == bk
            && om[id].price.0 == q {
            om[id].qty.0 as nat
        } else {
            0
        }
    }
}

/// Some live order of book `bk` has stored price `q`.
pub open spec fn priced(om: Map<u32, RestingOrder>, bk: u32, q: i32) -> bool {
    exists|id: u32| #[trigger] om.contains_key(id) && om[id].book_id.0 == bk && om[id].price.0 == q
}

/// A price is on a side exactly when a live order of the book rests at it.
pub proof fn lemma_prices_are_orders(m: OrderBookManager, bk: u32, bid: bool, q: i32)
    requires
        m.wf(),
        m.has_book(bk),
        (q > 0) == bid,
    ensures
        side_has_price(if bid { m.book(bk).bids@ } else { m.book(bk).asks@ }, q) <==> priced(
            m.orders(),
            bk,
            q,
        ),
{
    let b = m.book(bk);
    assert(b.wf());
    let side = if bid { b.bids@ } else { b.asks@ };
    let om = m.orders();
    if side_has_price(side, q) {
        let k = choose|k: int| 0 <= k < side.len() && side[k].price.0 == q;
        let lid = side[k].level_id.0;
        if bid {
            assert(b.bid_ok(side[k]));
        } else {
            assert(b.ask_ok(side[k]));
        }
        assert(b.linked(lid));
        assert(m.level_total(bk, lid) > 0);
        if forall|i: int| 0 <= i < m.data().len() ==> share(#[trigger] m.data()[i], at_level(bk, lid)) == 0 {
            lemma_qty_sum_zero(m.data(), at_level(bk, lid));
        }
        let i = choose|i: int| 0 <= i < m.data().len() && share(#[trigger] m.data()[i], at_level(bk, lid)) != 0;
        let id = i as u32;
        assert(entry_at(m.data(), id) == m.data()[i]);
        assert(om.contains_key(id) && om[id].book_id.0 == bk && om[id].price.0 == q);
    }
    if priced(om, bk, q) {
        let id = choose|id: u32| #[trigger] om.contains_key(id) && om[id].book_id.0 == bk && om[id].price.0 == q;
        let o = entry_at(m.data(), id)->0;
        assert(m.data()[id as int] == entry_at(m.data(), id));
        assert(m.order_ok(o));
        b.lemma_linked_on_side(o.level_id.0);
        let j = choose|j: int| 0 <= j < side.len() && side[j].level_id.0 == o.level_id.0;
        if bid {
            assert(b.bid_ok(side[j]));
        } else {
            assert(b.ask_ok(side[j]));
        }
    }
}

/// Strictly decreasing price runs with the same prices are the same.
proof fn lemma_sorted_same_prices(a: Seq<PriceLevel>, b: Seq<PriceLevel>)
    requires
        side_sorted(a),
        side_sorted(b),
        forall|q: i32| #[trigger] side_has_price(a, q) <==> side_has_price(b, q),
    ensures
        a.len() == b.len(),
        forall|k: int| 0 <= k < a.len() ==> (#[trigger] a[k]).price == b[k].price,
    decreases a.len(),
{
    if a.len() == 0 {
        if b.len() > 0 {
            assert(side_has_price(b, b[0].price.0));
            assert(side_has_price(a, b[0].price.0));
        }
    } else {
        assert(side_has_price(a, a[0].price.0));
        assert(side_has_price(b, a[0].price.0));
        let k = choose|k: int| 0 <= k < b.len() && b[k].price.0 == a[0].price.0;
        assert(side_has_price(b, b[0].price.0));
        assert(side_has_price(a, b[0].price.0));
        let j = choose|j: int| 0 <= j < a.len() && a[j].price.0 == b[0].price.0;
        if k > 0 {
            assert(b[0].price.0 > b[k].price.0);
            if j > 0 {
                assert(a[0].price.0 > a[j].price.0);
            }
        }
        assert(b[0].price.0 == a[0].price.0);
        let a1 = a.subrange(1, a.len() as int);
        let b1 = b.subrange(1, b.len() as int);
        assert forall|q: i32| #[trigger] side_has_price(a1, q) <==> side_has_price(b1, q) by {
            if side_has_price(a1, q) {
                let x = choose|x: int| 0 <= x < a1.len() && a1[x].price.0 == q;
                assert(a[x + 1].price.0 == q && a[0].price.0 > q);
                assert(side_has_price(a, q));
                assert(side_has_price(b, q));
                let y = choose|y: int| 0 <= y < b.len() && b[y].price.0 == q;
                assert(y != 0);
                assert(b1[y - 1].price.0 == q);
            }
            if side_has_price(b1, q) {
                let x = choose|x: int| 0 <= x < b1.len() && b1[x].price.0 == q;
                assert(b[x + 1].price.0 == q && b[0].price.0 > q);
                assert(side_has_price(b, q));
                assert(side_has_price(a, q));
                let y = choose|y: int| 0 <= y < a.len() && a[y].price.0 == q;
                assert(y != 0);
                assert(a1[y - 1].price.0 == q);
            }
        }
        lemma_sorted_same_prices(a1, b1);
        assert forall|x: int| 0 <= x < a.len() implies (#[trigger] a[x]).price == b[x].price by {
            if x > 0 {
                assert(a1[x - 1] == a[x]);
                assert(b1[x - 1] == b[x]);
            }
        }
    }
}

/// The sum over a prefix of the index at a level is the sum by price.
proof fn lemma_level_sum_by_price(m: OrderBookManager, bk: u32, lid: u32, n: int)
    requires
        m.wf(),
        m.has_book(bk),
        m.book(bk).linked(lid),
        0 <= n <= m.data().len(),
    ensures
        qty_sum(m.data().subrange(0, n), at_level(bk, lid)) == price_sum(
            m.orders(),
            bk,
            m.book(bk).level(lid).price.0,
            n as nat,
        ),
    decreases n,
{
    if n > 0 {
        let s = m.data().subrange(0, n);
        assert(s.drop_last() =~= m.data().subrange(0, n - 1));
        lemma_level_sum_by_price(m, bk, lid, n - 1);
        let b = m.book(bk);
        let q = b.level(lid).price.0;
        let id = (n - 1) as u32;
        assert(entry_at(m.data(), id) == m.data()[n - 1]);
        assert(s.last() == m.data()[n - 1]);
        if m.data()[n - 1] is Some {
            let o = m.data()[n - 1]->0;
            assert(m.order_ok(o));
            if o.book_id.0 == bk {
                assert(b.wf());
                b.lemma_linked_on_side(lid);
                b.lemma_linked_on_side(o.level_id.0);
                if b.level(o.level_id.0).price.0 == q {
                    let side = b.side_of(q);
                    let j = choose|j: int| 0 <= j < side.len() && side[j].level_id.0 == o.level_id.0;
                    if q > 0 {
                        assert(b.bid_ok(side[j]));
                    } else {
                        assert(b.ask_ok(side[j]));
                    }
                }
            }
        }
    }
}

/// Ids at and beyond the end of the index add nothing to a price sum.
proof fn lemma_price_sum_tail(m: OrderBookManager, bk: u32, q: i32, n: nat)
    requires
        m.wf(),
        m.data().len() <= n <= u32::MAX + 1,
    ensures
        price_sum(m.orders(), bk, q, n) == price_sum(m.orders(), bk, q, m.data().len() as nat),
    decreases n,
{
    if n > m.data().len() {
        lemma_price_sum_tail(m, bk, q, (n - 1) as nat);
        assert(!m.orders().contains_key((n - 1) as u32));
    }
}

/// A level's size is the summed quantity of the book's orders at its price.
proof fn lemma_size_by_price(m: OrderBookManager, bk: u32, lid: u32)
    requires
        m.wf(),
        m.has_book(bk),
        m.book(bk).linked(lid),
    ensures
        m.book(bk).level(lid).size.0 == price_sum(
            m.orders(),
            bk,
            m.book(bk).level(lid).price.0,
            (u32::MAX + 1) as nat,
        ),
{
    lemma_level_sum_by_price(m, bk, lid, m.data().len() as int);
    assert(m.data().subrange(0, m.data().len() as int) =~= m.data());
    lemma_price_sum_tail(m, bk, m.book(bk).level(lid).price.0, (u32::MAX + 1) as nat);
}

/// The sides of the books follow from the live orders alone: two
/// well-formed managers with the same live orders show the same prices and
/// sizes, in the same order, on every side of every book.
pub proof fn lemma_sides_follow_orders(m1: OrderBookManager, m2: OrderBookManager, bk: u32, bid: bool)
    requires
        m1.wf(),
        m2.wf(),
        m1.orders() == m2.orders(),
    ensures
        side_view(m1, bk, bid) == side_view(m2, bk, bid),
{
    let om = m1.orders();
    let e1 = if m1.has_book(bk) { if bid { m1.book(bk).bids@ } else { m1.book(bk).asks@ } } else { Seq::<PriceLevel>::empty() };
    let e2 = if m2.has_book(bk) { if bid { m2.book(bk).bids@ } else { m2.book(bk).asks@ } } else { Seq::<PriceLevel>::empty() };
    assert forall|q: i32| #[trigger] side_has_price(e1, q) <==> side_has_price(e2, q) by {
        assert forall|mx: OrderBookManager| mx.wf() && mx.orders() == om && !mx.has_book(bk) implies !priced(om, bk, q) by {
            if priced(om, bk, q) {
                let id = choose|id: u32| #[trigger] om.contains_key(id) && om[id].book_id.0 == bk && om[id].price.0 == q;
                assert(mx.data()[id as int] == entry_at(mx.data(), id));
                assert(mx.order_ok(mx.data()[id as int]->0));
            }
        }
        let ok = ((q > 0) == bid);
        if m1.has_book(bk) {
            if ok {
                lemma_prices_are_orders(m1, bk, bid, q);
            } else if side_has_price(e1, q) {
                let k = choose|k: int| 0 <= k < e1.len() && e1[k].price.0 == q;
                assert(m1.book(bk).wf());
                if bid {
                    assert(m1.book(bk).bid_ok(e1[k]));
                } else {
                    assert(m1.book(bk).ask_ok(e1[k]));
                }
            }
        }
        if m2.has_book(bk) {
            if ok {
                lemma_prices_are_orders(m2, bk, bid, q);
            } else if side_has_price(e2, q) {
                let k = choose|k: int| 0 <= k < e2.len() && e2[k].price.0 == q;
                assert(m2.book(bk).wf());
                if bid {
                    assert(m2.book(bk).bid_ok(e2[k]));
                } else {
                    assert(m2.book(bk).ask_ok(e2[k]));
                }
            }
        }
    }
    if m1.has_book(bk) {
        assert(m1.book(bk).wf());
    }
    if m2.has_book(bk) {
        assert(m2.book(bk).wf());
    }
    lemma_sorted_same_prices(e1, e2);
    let v1 = side_view(m1, bk, bid);
    let v2 = side_view(m2, bk, bid);
    assert forall|k: int| 0 <= k < v1.len() implies v1[k] == v2[k] by {
        let b1 = m1.book(bk);
        let b2 = m2.book(bk);
        let l1 = e1[k].level_id.0;
        let l2 = e2[k].level_id.0;
        if bid {
            assert(b1.bid_ok(e1[k]));
            assert(b2.bid_ok(e2[k]));
        } else {
            assert(b1.ask_ok(e1[k]));
            assert(b2.ask_ok(e2[k]));
        }
        assert(b1.linked(l1));
        assert(b2.linked(l2));
        lemma_size_by_price(m1, bk, l1);
        lemma_size_by_price(m2, bk, l2);
    }
    assert(v1 =~= v2);
}

/// The head of a side carries the best price of the live orders on that
/// side, and some live order rests at it.
pub proof fn lemma_head_is_best(m: OrderBookManager, bk: u32, bid: bool)
    requires
        m.wf(),
    ensures
        forall|id: u32|
            #[trigger] m.orders().contains_key(id) && m.orders()[id].book_id.0 == bk && (
            m.orders()[id].price.0 > 0) == bid ==> {
                let side = if bid {
                    m.book(bk).bids@
                } else {
                    m.book(bk).asks@
                };
                &&& m.has_book(bk)
                &&& side.len() > 0
                &&& side[0].price.0 >= m.orders()[id].price.0
            },
        m.has_book(bk) && (if bid {
            m.book(bk).bids@
        } else {
            m.book(bk).asks@
        }).len() > 0 ==> priced(
            m.orders(),
            bk,
            (if bid {
                m.book(bk).bids@
            } else {
                m.book(bk).asks@
            })[0].price.0,
        ),
{
    let om = m.orders();
    assert forall|id: u32|
        #[trigger] om.contains_key(id) && om[id].book_id.0 == bk && (om[id].price.0 > 0) == bid implies {
            let side = if bid { m.book(bk).bids@ } else { m.book(bk).asks@ };
            &&& m.has_book(bk)
            &&& side.len() > 0
            &&& side[0].price.0 >= om[id].price.0
        } by {
        let o = entry_at(m.data(), id)->0;
        assert(m.data()[id as int] == entry_at(m.data(), id));
        assert(m.order_ok(o));
        let b = m.book(bk);
        assert(b.wf());
        b.lemma_linked_on_side(o.level_id.0);
        let side = if bid { b.bids@ } else { b.asks@ };
        let k = choose|k: int| 0 <= k < side.len() && side[k].level_id.0 == o.level_id.0;
        if bid {
            assert(b.bid_ok(side[k]));
        } else {
            assert(b.ask_ok(side[k]));
        }
        if k > 0 {
            assert(side[0].price.0 > side[k].price.0);
        }
    }
    if m.has_book(bk) {
        let b = m.book(bk);
        assert(b.wf());
        let side = if bid { b.bids@ } else { b.asks@ };
        if side.len() > 0 {
            if bid {
                assert(b.bid_ok(side[0]));
            } else {
                assert(b.ask_ok(side[0]));
            }
            assert(side_has_price(side, side[0].price.0));
            lemma_prices_are_orders(m, bk, bid, side[0].price.0);
        }
    }
}

/// A price sum over ids with no order at that price is zero.
proof fn lemma_price_sum_none(om: Map<u32, RestingOrder>, bk: u32, q: i32, n: nat)
    requires
        !priced(om, bk, q),
        n <= u32::MAX + 1,
    ensures
        price_sum(om, bk, q, n) == 0,
    decreases n,
{
    if n > 0 {
        lemma_price_sum_none(om, bk, q, (n - 1) as nat);
        let id = (n - 1) as u32;
        if om.contains_key(id) && om[id].book_id.0 == bk && om[id].price.0 == q {
            assert(priced(om, bk, q));
        }
    }
}

/// There is room for `qty` more at stored price `p` of book `bk` exactly
/// when the live orders of that book at that price leave it: their summed
/// quantity and `qty` fit in a `u32`.
pub proof fn lemma_room_by_orders(m: OrderBookManager, bk: u32, p: i32, qty: u32)
    requires
        m.wf(),
    ensures
        m.room(bk, p, qty) <==> price_sum(m.orders(), bk, p, (u32::MAX + 1) as nat) + qty <= u32::MAX,
{
    let om = m.orders();
    let total = price_sum(om, bk, p, (u32::MAX + 1) as nat);
    if m.has_book(bk) {
        let b = m.book(bk);
        assert(b.wf());
        let bid = p > 0;
        let side = if bid { b.bids@ } else { b.asks@ };
        if side_has_price(side, p) {
            let k = choose|k: int| 0 <= k < side.len() && side[k].price.0 == p;
            let lid = side[k].level_id.0;
            if bid {
                assert(b.bid_ok(side[k]));
            } else {
                assert(b.ask_ok(side[k]));
            }
            assert(b.linked(lid));
            lemma_size_by_price(m, bk, lid);
            assert forall|l: u32| b.linked(l) && #[trigger] b.level(l).price.0 == p implies l == lid by {
                b.lemma_linked_on_side(l);
            }
        } else {
            lemma_prices_are_orders(m, bk, bid, p);
            lemma_price_sum_none(om, bk, p, (u32::MAX + 1) as nat);
            assert forall|l: u32| b.linked(l) implies #[trigger] b.level(l).price.0 != p by {
                b.lemma_linked_on_side(l);
                if b.level(l).price.0 == p {
                    let j = choose|j: int| 0 <= j < side.len() && side[j].level_id.0 == l;
                    if bid {
                        assert(b.bid_ok(side[j]));
                    } else {
                        assert(b.ask_ok(side[j]));
                    }
                    assert(side_has_price(side, p));
                }
            }
        }
    } else {
        assert(!priced(om, bk, p)) by {
            if priced(om, bk, p) {
                let id = choose|id: u32| #[trigger] om.contains_key(id) && om[id].book_id.0 == bk && om[id].price.0 == p;
                assert(m.data()[id as int] == entry_at(m.data(), id));
                assert(m.order_ok(m.data()[id as int]->0));
            }
        }
        lemma_price_sum_none(om, bk, p, (u32::MAX + 1) as nat);
    }
}

} // verus!
