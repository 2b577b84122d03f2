use vstd::prelude::*;
use crate::level::LevelId;
use crate::market::MarketManager;
use crate::order::{entry_at, Order, OrderId};
use crate::invariants::lemma_head_is_best;
use crate::orderbook_manager::{crosses, take, OrderBookManager, RestingOrder};
use crate::price::{abs_price, signed_price, Price, MAX_PRICE};
use crate::quantity::Qty;
use crate::utils::BookId;

verus! {

/// One fill: the resting maker as it was just before the fill, the incoming
/// taker, the quantity and the (taker's) price.
#[derive(Debug, Clone, Copy)]
pub struct MatchDetails {
    pub maker_order: Order,
    pub taker_order: Order,
    pub exec_qty: Qty,
    pub exec_price: u32,
    pub maker_is_buyer: bool,
}

/// The summed quantity of a run of matches.
pub open spec fn exec_total(ms: Seq<MatchDetails>) -> nat
    decreases ms.len(),
{
    if ms.len() == 0 {
        0
    } else {
        exec_total(ms.drop_last()) + ms.last().exec_qty.0 as nat
    }
}

/// The matches of an incoming order all carry its side, book, price and
/// authentication, and a positive quantity.
pub open spec fn matches_of(
    ms: Seq<MatchDetails>,
    taker: Order,
    price: u32,
    is_bid: bool,
) -> bool {
    forall|i: int|
        0 <= i < ms.len() ==> {
            &&& (#[trigger] ms[i]).exec_qty.0 > 0
            &&& ms[i].exec_price == price
            &&& ms[i].maker_is_buyer == !is_bid
            &&& ms[i].taker_order == taker
            &&& ms[i].maker_order.book_id == taker.book_id
            &&& ms[i].maker_order.qty.0 >= ms[i].exec_qty.0
        }
}

/// A live order that an incoming order of side `is_bid` at stored price `p`
/// on book `bk` may trade with: same book, other side, crossed price.
pub open spec fn takeable(m: Map<u32, RestingOrder>, bk: u32, is_bid: bool, p: i32, id: u32) -> bool {
    &&& m.contains_key(id)
    &&& m[id].book_id.0 == bk
    &&& (m[id].price.0 > 0) != is_bid
    &&& crosses(is_bid, p, m[id].price.0)
}

/// Price-time priority: a better (larger) stored price first, then the
/// lower id.
pub open spec fn goes_before(m: Map<u32, RestingOrder>, a: u32, b: u32) -> bool {
    m[a].price.0 > m[b].price.0 || (m[a].price.0 == m[b].price.0 && a < b)
}

/// `id` is the takeable order of highest priority.
pub open spec fn is_next(m: Map<u32, RestingOrder>, bk: u32, is_bid: bool, p: i32, id: u32) -> bool {
    &&& takeable(m, bk, is_bid, p, id)
    &&& forall|j: u32| #[trigger] takeable(m, bk, is_bid, p, j) && j != id ==> goes_before(m, id, j)
}

/// The order of highest priority that an incoming order may take, if any.
pub open spec fn next_maker(m: Map<u32, RestingOrder>, bk: u32, is_bid: bool, p: i32) -> Option<u32> {
    if exists|id: u32| is_next(m, bk, is_bid, p, id) {
        Some(choose|id: u32| is_next(m, bk, is_bid, p, id))
    } else {
        None
    }
}

/// Matching `rem` against `m` under price-time priority: the live orders
/// left, and for each fill the maker's id, the maker as it was, and the
/// quantity filled.
pub open spec fn walk(m: Map<u32, RestingOrder>, bk: u32, is_bid: bool, p: i32, rem: nat) -> (
    Map<u32, RestingOrder>,
    Seq<(u32, RestingOrder, nat)>,
)
    decreases rem,
{
    match next_maker(m, bk, is_bid, p) {
        None => (m, Seq::empty()),
        Some(id) => {
            let e = if rem < m[id].qty.0 {
                rem
            } else {
                m[id].qty.0 as nat
            };
            if e == 0 {
                (m, Seq::empty())
            } else {
                let rest = walk(take(m, id, e as u32), bk, is_bid, p, (rem - e) as nat);
                (rest.0, seq![(id, m[id], e)] + rest.1)
            }
        },
    }
}

/// Leaving the other books alone composes.
proof fn lemma_others_same_trans(a: OrderBookManager, b: OrderBookManager, c: OrderBookManager, bk: u32)
    requires
        a.others_same(b, bk),
        b.others_same(c, bk),
    ensures
        a.others_same(c, bk),
{
    assert forall|x: u32| x != bk implies (#[trigger] c.has_book(x) == a.has_book(x)) && (a.has_book(x)
        ==> c.book(x) == a.book(x)) by {
        assert(b.has_book(x) == a.has_book(x));
        assert(c.has_book(x) == b.has_book(x));
    }
}

/// Peeling the first of the fills still to come.
proof fn lemma_walk_step(
    w: Seq<(u32, RestingOrder, nat)>,
    d: int,
    x: (u32, RestingOrder, nat),
    rest: Seq<(u32, RestingOrder, nat)>,
)
    requires
        0 <= d <= w.len(),
        w.subrange(d, w.len() as int) == seq![x] + rest,
    ensures
        d < w.len(),
        w[d] == x,
        w.subrange(d + 1, w.len() as int) == rest,
{
    let tail = w.subrange(d, w.len() as int);
    assert(tail.len() == rest.len() + 1);
    assert(tail[0] == x);
    assert forall|i: int| 0 <= i < rest.len() implies w.subrange(d + 1, w.len() as int)[i] == rest[i] by {
        assert(tail[i + 1] == rest[i]);
    }
    assert(w.subrange(d + 1, w.len() as int) =~= rest);
}

/// At most one order is the next.
proof fn lemma_next_unique(m: Map<u32, RestingOrder>, bk: u32, is_bid: bool, p: i32, id: u32)
    requires
        is_next(m, bk, is_bid, p, id),
    ensures
        next_maker(m, bk, is_bid, p) == Some(id),
{
    let c = choose|x: u32| is_next(m, bk, is_bid, p, x);
    if c != id {
        assert(takeable(m, bk, is_bid, p, c));
        assert(goes_before(m, id, c));
        assert(goes_before(m, c, id));
    }
}

/// What `get_next_match` finds is the takeable order of highest priority,
/// and when it finds nothing there is no takeable order.
proof fn lemma_next_match_is_next(m: OrderBookManager, bk: u32, is_bid: bool, p: i32, r: Option<(OrderId, Qty)>)
    requires
        m.wf(),
        m.next_match(bk, is_bid, p, r),
    ensures
        r matches Some((id, q)) ==> is_next(m.orders(), bk, is_bid, p, id.0) && q == m.orders()[id.0].qty,
        r is None ==> next_maker(m.orders(), bk, is_bid, p) is None,
        r is None ==> forall|j: u32| !#[trigger] takeable(m.orders(), bk, is_bid, p, j),
{
    let om = m.orders();
    // every takeable order rests at a level of the opposite side, no better
    // than its head
    assert forall|j: u32| #[trigger] takeable(om, bk, is_bid, p, j) implies ({
        let b = m.book(bk);
        let side = if is_bid { b.asks@ } else { b.bids@ };
        let o = entry_at(m.data(), j)->0;
        &&& m.has_book(bk)
        &&& side.len() > 0
        &&& side[0].price.0 >= om[j].price.0
        &&& (side[0].price.0 == om[j].price.0 ==> o.level_id == side[0].level_id)
        &&& o.book_id.0 == bk
    }) by {
        let o = entry_at(m.data(), j)->0;
        assert(m.data()[j as int] == entry_at(m.data(), j));
        assert(m.order_ok(o));
        let b = m.book(bk);
        assert(b.wf());
        b.lemma_linked_on_side(o.level_id.0);
        let side = if is_bid { b.asks@ } else { b.bids@ };
        assert(b.side_of(b.level(o.level_id.0).price.0) == side);
        let k = choose|k: int| 0 <= k < side.len() && side[k].level_id.0 == o.level_id.0;
        if is_bid {
            assert(b.ask_ok(side[k]));
        } else {
            assert(b.bid_ok(side[k]));
        }
        if k > 0 {
            assert(side[0].price.0 > side[k].price.0);
        }
    }
    match r {
        Some((id, q)) => {
            let b = m.book(bk);
            let side = if is_bid { b.asks@ } else { b.bids@ };
            let h = side[0];
            assert(m.opposite_head(bk, is_bid) == Some(h));
            let o = entry_at(m.data(), id.0)->0;
            assert(m.data()[id.0 as int] == entry_at(m.data(), id.0));
            assert(b.wf());
            if is_bid {
                assert(b.ask_ok(h));
            } else {
                assert(b.bid_ok(h));
            }
            assert(om.contains_key(id.0));
            assert(om[id.0].price == h.price);
            assert(takeable(om, bk, is_bid, p, id.0));
            assert forall|j: u32| #[trigger] takeable(om, bk, is_bid, p, j) && j != id.0 implies goes_before(om, id.0, j) by {
                if om[j].price.0 == h.price.0 {
                    let oj = entry_at(m.data(), j)->0;
                    if j < id.0 {
                        assert(!(entry_at(m.data(), j) matches Some(x) && x.book_id.0 == bk && x.level_id.0 == h.level_id.0));
                    }
                }
            }
        },
        None => {
            assert forall|id: u32| !#[trigger] takeable(om, bk, is_bid, p, id) by {
                if takeable(om, bk, is_bid, p, id) {
                let b = m.book(bk);
                let side = if is_bid { b.asks@ } else { b.bids@ };
                let h = side[0];
                assert(m.opposite_head(bk, is_bid) == Some(h));
                assert(!crosses(is_bid, p, h.price.0));
                assert(h.price.0 >= om[id].price.0);
                assert(crosses(is_bid, p, om[id].price.0));
                assert(b.wf());
                if is_bid {
                    assert(b.ask_ok(h));
                    assert(abs_price(om[id].price.0) >= abs_price(h.price.0));
                } else {
                    assert(b.bid_ok(h));
                }
                }
            }
        },
    }
}

/// A reported fill agrees with a fill of the walk: its quantity, and the
/// maker's book, quantity and authentication as they were.
pub open spec fn fill_of(d: MatchDetails, f: (u32, RestingOrder, nat)) -> bool {
    &&& d.exec_qty.0 == f.2
    &&& d.maker_order.book_id == f.1.book_id
    &&& d.maker_order.qty == f.1.qty
    &&& d.maker_order.trader == f.1.trader
    &&& d.maker_order.nonce == f.1.nonce
    &&& d.maker_order.expiry == f.1.expiry
    &&& d.maker_order.signature == f.1.signature
}

/// No live bid of book `bk` meets or passes a live ask of that book.
pub open spec fn uncrossed(om: Map<u32, RestingOrder>, bk: u32) -> bool {
    forall|x: u32, y: u32|
        #![trigger om.contains_key(x), om.contains_key(y)]
        om.contains_key(x) && om.contains_key(y) && om[x].book_id.0 == bk && om[y].book_id.0 == bk
            && om[x].price.0 > 0 && om[y].price.0 <= 0 ==> abs_price(om[x].price.0) < abs_price(
            om[y].price.0,
        )
}

/// In an uncrossed book the best bid lies strictly below the best ask.
pub proof fn lemma_uncrossed_heads(m: OrderBookManager, bk: u32)
    requires
        m.wf(),
        uncrossed(m.orders(), bk),
        m.has_book(bk),
        m.book(bk).bids@.len() > 0,
        m.book(bk).asks@.len() > 0,
    ensures
        abs_price(m.book(bk).bids@[0].price.0) < abs_price(m.book(bk).asks@[0].price.0),
{
    let om = m.orders();
    lemma_head_is_best(m, bk, true);
    lemma_head_is_best(m, bk, false);
    let x = choose|id: u32| #[trigger] om.contains_key(id) && om[id].book_id.0 == bk && om[id].price.0
        == m.book(bk).bids@[0].price.0;
    let y = choose|id: u32| #[trigger] om.contains_key(id) && om[id].book_id.0 == bk && om[id].price.0
        == m.book(bk).asks@[0].price.0;
    assert(m.book(bk).wf());
    assert(m.book(bk).bid_ok(m.book(bk).bids@[0]));
    assert(m.book(bk).ask_ok(m.book(bk).asks@[0]));
    assert(om.contains_key(x) && om.contains_key(y));
}

/// Matching only removes orders or lowers their quantities.
proof fn lemma_walk_shrinks(m: Map<u32, RestingOrder>, bk: u32, is_bid: bool, p: i32, rem: nat)
    ensures
        forall|id: u32|
            #[trigger] walk(m, bk, is_bid, p, rem).0.contains_key(id) ==> m.contains_key(id)
                && walk(m, bk, is_bid, p, rem).0[id].price == m[id].price && walk(m, bk, is_bid, p, rem).0[id].book_id
                == m[id].book_id,
    decreases rem,
{
    match next_maker(m, bk, is_bid, p) {
        None => {},
        Some(id) => {
            let e = if rem < m[id].qty.0 { rem } else { m[id].qty.0 as nat };
            if e != 0 {
                let t = take(m, id, e as u32);
                lemma_walk_shrinks(t, bk, is_bid, p, (rem - e) as nat);
            }
        },
    }
}

/// Matching keeps a book uncrossed: when the book of an incoming order was
/// uncrossed, it still is once the order has matched and any rest of it
/// rests (`after` is as `match_order` leaves the live orders `before`,
/// `left` the quantity it returns).
pub proof fn lemma_matching_keeps_uncrossed(
    before: Map<u32, RestingOrder>,
    after: Map<u32, RestingOrder>,
    bk: u32,
    is_bid: bool,
    price: u32,
    qty: nat,
    order_id: u32,
    rest: RestingOrder,
    left: nat,
)
    requires
        uncrossed(before, bk),
        0 < price <= MAX_PRICE,
        rest.book_id.0 == bk,
        rest.price.0 == signed_price(price, is_bid),
        left > 0 ==> forall|j: u32|
            !#[trigger] takeable(
                walk(before, bk, is_bid, signed_price(price, is_bid), qty).0,
                bk,
                is_bid,
                signed_price(price, is_bid),
                j,
            ),
        after == if left > 0 {
            walk(before, bk, is_bid, signed_price(price, is_bid), qty).0.insert(order_id, rest)
        } else {
            walk(before, bk, is_bid, signed_price(price, is_bid), qty).0
        },
    ensures
        uncrossed(after, bk),
{
    let p = signed_price(price, is_bid);
    let w = walk(before, bk, is_bid, p, qty).0;
    lemma_walk_shrinks(before, bk, is_bid, p, qty);
    assert forall|x: u32, y: u32|
        #![trigger after.contains_key(x), after.contains_key(y)]
        after.contains_key(x) && after.contains_key(y) && after[x].book_id.0 == bk && after[y].book_id.0 == bk
            && after[x].price.0 > 0 && after[y].price.0 <= 0 implies abs_price(after[x].price.0) < abs_price(
            after[y].price.0,
        ) by {
        if left > 0 && x == order_id {
            assert(w.contains_key(y) && after[y] == w[y]);
            assert(!takeable(w, bk, is_bid, p, y));
        } else if left > 0 && y == order_id {
            assert(w.contains_key(x) && after[x] == w[x]);
            assert(!takeable(w, bk, is_bid, p, x));
        } else {
            assert(w.contains_key(x) && w.contains_key(y));
            assert(before.contains_key(x) && before.contains_key(y));
        }
    }
}

/// The order books together with the market configurations.
pub struct MatchingEngine {
    pub orderbook_manager: OrderBookManager,
    pub market_manager: MarketManager,
}

impl MatchingEngine {
    pub fn new() -> (r: MatchingEngine)
        ensures
            r.orderbook_manager.wf(),
            r.orderbook_manager.orders() == Map::<u32, RestingOrder>::empty(),
            forall|bk: u32| !#[trigger] r.orderbook_manager.has_book(bk),
            forall|bk: u32| #[trigger] r.market_manager.config_of(bk) is None,
    {
        MatchingEngine { orderbook_manager: OrderBookManager::new(), market_manager: MarketManager::new() }
    }

    pub fn get_orderbook_manager(&self) -> (r: &OrderBookManager)
        ensures
            *r == self.orderbook_manager,
    {
        &self.orderbook_manager
    }

    /// Matches an incoming limit order against the opposite side of its book
    /// under price-time priority, then rests what is left of it. Returns the
    /// quantity left and the fills in the order they happened.
    pub fn match_order(
        &mut self,
        order_id: OrderId,
        book_id: BookId,
        qty: Qty,
        price: u32,
        is_bid: bool,
        trader: Option<[u8; 20]>,
        nonce: Option<u64>,
        expiry: Option<u64>,
        signature: Option<[u8; 65]>,
    ) -> (r: (Qty, Vec<MatchDetails>))
        requires
            old(self).orderbook_manager.wf(),
            qty.0 > 0,
            0 < price <= MAX_PRICE,
            !old(self).orderbook_manager.orders().contains_key(order_id.0),
            old(self).orderbook_manager.room(book_id.0, signed_price(price, is_bid), qty.0),
        ensures
            final(self).orderbook_manager.wf(),
            r.0.0 + exec_total(r.1@) == qty.0,
            matches_of(
                r.1@,
                Order { level_id: LevelId(0), book_id, qty, trader, nonce, expiry, signature },
                price,
                is_bid,
            ),
            final(self).orderbook_manager.side_total(book_id.0, !is_bid) + exec_total(r.1@) == old(
                self,
            ).orderbook_manager.side_total(book_id.0, !is_bid),
            final(self).orderbook_manager.side_total(book_id.0, is_bid) == old(
                self,
            ).orderbook_manager.side_total(book_id.0, is_bid) + r.0.0,
            old(self).orderbook_manager.others_same(final(self).orderbook_manager, book_id.0),
            r.0.0 > 0 ==> {
                &&& final(self).orderbook_manager.orders().contains_key(order_id.0)
                &&& final(self).orderbook_manager.orders()[order_id.0] == (RestingOrder {
                    book_id,
                    price: Price(signed_price(price, is_bid)),
                    qty: r.0,
                    trader,
                    nonce,
                    expiry,
                    signature,
                })
                &&& final(self).orderbook_manager.opposite_head(book_id.0, is_bid) matches Some(h)
                    ==> !crosses(is_bid, signed_price(price, is_bid), h.price.0)
            },
            r.0.0 == 0 ==> !final(self).orderbook_manager.orders().contains_key(order_id.0),
            final(self).market_manager == old(self).market_manager,
            ({
                let w = walk(
                    old(self).orderbook_manager.orders(),
                    book_id.0,
                    is_bid,
                    signed_price(price, is_bid),
                    qty.0 as nat,
                );
                &&& r.1@.len() == w.1.len()
                &&& forall|i: int| 0 <= i < w.1.len() ==> fill_of(#[trigger] r.1@[i], w.1[i])
                &&& r.0.0 > 0 ==> forall|j: u32|
                    !#[trigger] takeable(w.0, book_id.0, is_bid, signed_price(price, is_bid), j)
                &&& final(self).orderbook_manager.orders() == if r.0.0 > 0 {
                    w.0.insert(
                        order_id.0,
                        RestingOrder {
                            book_id,
                            price: Price(signed_price(price, is_bid)),
                            qty: r.0,
                            trader,
                            nonce,
                            expiry,
                            signature,
                        },
                    )
                } else {
                    w.0
                }
            }),
    {
        let mut remaining = qty;
        let sprice = Price::from_u32(price, is_bid);
        let opposite_best_price = if is_bid {
            self.orderbook_manager.get_best_ask(book_id)
        } else {
            self.orderbook_manager.get_best_bid(book_id)
        };
        let can_match = match opposite_best_price {
            Some(best) => if is_bid {
                sprice.absolute() >= best.absolute()
            } else {
                sprice.absolute() <= best.absolute()
            },
            None => false,
        };
        let taker = Order::new(qty, LevelId(0), book_id, trader, nonce, expiry, signature);
        let mut match_details: Vec<MatchDetails> = Vec::new();
        let ghost m0 = self.orderbook_manager;
        let ghost p = signed_price(price, is_bid);
        let ghost w0 = walk(m0.orders(), book_id.0, is_bid, p, qty.0 as nat);
        proof {
            assert(w0.1.subrange(0, w0.1.len() as int) =~= w0.1);
            if !can_match {
                if m0.opposite_head(book_id.0, is_bid) is Some {
                    let h = m0.opposite_head(book_id.0, is_bid)->0;
                    assert(!crosses(is_bid, p, h.price.0));
                }
                assert(m0.next_match(book_id.0, is_bid, p, None));
                lemma_next_match_is_next(m0, book_id.0, is_bid, p, None);
                assert(w0.1.len() == 0);
                assert(w0.0 == m0.orders());
            }
        }
        if can_match {
            while remaining.0 > 0
                invariant
                    self.orderbook_manager.wf(),
                    remaining.0 <= qty.0,
                    remaining.0 + exec_total(match_details@) == qty.0,
                    matches_of(match_details@, taker, price, is_bid),
                    taker == (Order { level_id: LevelId(0), book_id, qty, trader, nonce, expiry, signature }),
                    sprice.0 == p,
                    p == signed_price(price, is_bid),
                    0 < price <= MAX_PRICE,
                    self.orderbook_manager.side_total(book_id.0, !is_bid) + exec_total(match_details@)
                        == m0.side_total(book_id.0, !is_bid),
                    self.orderbook_manager.side_total(book_id.0, is_bid) == m0.side_total(book_id.0, is_bid),
                    m0.others_same(self.orderbook_manager, book_id.0),
                    !self.orderbook_manager.orders().contains_key(order_id.0),
                    self.orderbook_manager.room(book_id.0, p, qty.0),
                    self.market_manager == old(self).market_manager,
                    w0 == walk(m0.orders(), book_id.0, is_bid, p, qty.0 as nat),
                    match_details@.len() <= w0.1.len(),
                    walk(self.orderbook_manager.orders(), book_id.0, is_bid, p, remaining.0 as nat) == (
                        w0.0,
                        w0.1.subrange(match_details@.len() as int, w0.1.len() as int),
                    ),
                    forall|i: int| 0 <= i < match_details@.len() ==> fill_of(#[trigger] match_details@[i], w0.1[i]),
                ensures
                    remaining.0 > 0 ==> (self.orderbook_manager.opposite_head(book_id.0, is_bid) matches Some(h)
                        ==> !crosses(is_bid, p, h.price.0)),
                    match_details@.len() == w0.1.len(),
                    self.orderbook_manager.orders() == w0.0,
                    remaining.0 > 0 ==> forall|j: u32|
                        !#[trigger] takeable(w0.0, book_id.0, is_bid, p, j),
                decreases remaining.0,
            {
                let next = self.orderbook_manager.get_next_match(book_id, is_bid, sprice);
                match next {
                    Some((maker_id, match_qty)) => {
                        let ghost m1 = self.orderbook_manager;
                        let exec_qty = if remaining.0 < match_qty.0 {
                            remaining
                        } else {
                            match_qty
                        };
                        let maker = *self.orderbook_manager.oid_map.get(maker_id).unwrap();
                        proof {
                            lemma_next_match_is_next(m1, book_id.0, is_bid, p, next);
                            lemma_next_unique(m1.orders(), book_id.0, is_bid, p, maker_id.0);
                            let h = m1.opposite_head(book_id.0, is_bid)->0;
                            let b = m1.book(book_id.0);
                            assert(m1.book(book_id.0).wf());
                            assert(entry_at(m1.data(), maker_id.0) == Some(maker));
                            assert((maker_id.0 as int) < m1.data().len());
                            assert(m1.data()[maker_id.0 as int] == Some(maker));
                            assert(m1.order_ok(maker));
                            if is_bid {
                                assert(b.ask_ok(b.asks@[0]));
                            } else {
                                assert(b.bid_ok(b.bids@[0]));
                            }
                            assert(m1.orders().contains_key(maker_id.0));
                            assert(m1.orders()[maker_id.0].price == h.price);
                            assert((m1.orders()[maker_id.0].price.0 > 0) == !is_bid);
                        }
                        self.orderbook_manager.execute_order(maker_id, exec_qty);
                        proof {
                            assert(m1.take_effect(self.orderbook_manager, maker_id.0, exec_qty.0));
                            assert(entry_at(m1.data(), maker_id.0) == Some(maker));
                            assert(maker.book_id.0 == book_id.0);
                        }
                        let ghost before = match_details@;
                        match_details.push(
                            MatchDetails {
                                maker_order: maker,
                                taker_order: taker,
                                exec_qty,
                                exec_price: price,
                                maker_is_buyer: !is_bid,
                            },
                        );
                        remaining = Qty(remaining.0 - exec_qty.0);
                        proof {
                            assert(match_details@.drop_last() =~= before);
                            let m2 = self.orderbook_manager;
                            let bkk = book_id.0;
                            let lid = entry_at(m1.data(), maker_id.0)->0.level_id.0;
                            assert(m1.others_same(m2, bkk));
                            lemma_others_same_trans(m0, m1, m2, bkk);
                            assert forall|i: int| 0 <= i < match_details@.len() implies {
                                &&& (#[trigger] match_details@[i]).exec_qty.0 > 0
                                &&& match_details@[i].exec_price == price
                                &&& match_details@[i].maker_is_buyer == !is_bid
                                &&& match_details@[i].taker_order == taker
                                &&& match_details@[i].maker_order.book_id == taker.book_id
                                &&& match_details@[i].maker_order.qty.0 >= match_details@[i].exec_qty.0
                            } by {
                                if i < before.len() {
                                    assert(match_details@[i] == before[i]);
                                }
                            }
                            // the taker's side is untouched, so its room stays
                            let b1 = m1.book(bkk);
                            let b2 = m2.book(bkk);
                            assert forall|l: u32| b2.linked(l) && #[trigger] b2.level(l).price.0 == p implies b2.level(l).size.0 + qty.0 <= u32::MAX by {
                                if l != lid {
                                    assert(b1.linked(l));
                                } else {
                                    assert(b1.level(lid).price == m1.orders()[maker_id.0].price);
                                }
                            }
                            assert(!m2.orders().contains_key(order_id.0));
                            // one step of the walk
                            let cur = m1.orders();
                            let d = before.len() as int;
                            let x = (maker_id.0, cur[maker_id.0], exec_qty.0 as nat);
                            let rest = walk(take(cur, maker_id.0, exec_qty.0), bkk, is_bid, p, remaining.0 as nat);
                            assert(walk(cur, bkk, is_bid, p, (remaining.0 + exec_qty.0) as nat) == (rest.0, seq![x] + rest.1));
                            assert(m2.orders() == take(cur, maker_id.0, exec_qty.0));
                            lemma_walk_step(w0.1, d, x, rest.1);
                            assert(m1.data()[maker_id.0 as int] == entry_at(m1.data(), maker_id.0));
                            assert forall|i: int| 0 <= i < match_details@.len() implies fill_of(#[trigger] match_details@[i], w0.1[i]) by {
                                if i < d {
                                    assert(match_details@[i] == before[i]);
                                }
                            }
                        }
                    },
                    None => {
                        proof {
                            lemma_next_match_is_next(self.orderbook_manager, book_id.0, is_bid, p, next);
                            let d = match_details@.len() as int;
                            assert(w0.1.subrange(d, w0.1.len() as int).len() == 0);
                        }
                        break;
                    },
                }
            }
        }
        if remaining.0 > 0 {
            proof {
                assert(self.orderbook_manager.room(book_id.0, p, remaining.0));
            }
            self.orderbook_manager.add_order(
                order_id,
                book_id,
                remaining,
                price,
                is_bid,
                trader,
                nonce,
                expiry,
                signature,
            );
        }
        (remaining, match_details)
    }
}

} // verus!
