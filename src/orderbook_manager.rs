use vstd::prelude::*;
use crate::level::{Level, LevelId};
use crate::order::{
    entry_at, lemma_qty_sum_bound, lemma_qty_sum_pad, lemma_qty_sum_update, lemma_qty_sum_zero,
    qty_sum, share, OidMap, Order, OrderId,
};
use crate::orderbook::{side_holds, OrderBook};
use crate::price::{abs_price, signed_price, Price, MAX_PRICE};
use crate::quantity::Qty;
use crate::utils::{BookId, MAX_BOOKS};
use crate::invariants::{lemma_head_is_best, priced};

verus! {

/// What the manager knows of a resting order, with its level resolved to
/// the level's price.
#[derive(Debug, Clone, Copy)]
pub struct RestingOrder {
    pub book_id: BookId,
    pub price: Price,
    pub qty: Qty,
    pub trader: Option<[u8; 20]>,
    pub nonce: Option<u64>,
    pub expiry: Option<u64>,
    pub signature: Option<[u8; 65]>,
}

/// Selects the orders of book `bk` that rest at level `lid`.
pub open spec fn at_level(bk: u32, lid: u32) -> spec_fn(Order) -> bool {
    |o: Order| o.book_id.0 == bk && o.level_id.0 == lid
}

/// Whether an incoming order on side `is_bid` at stored price `price` meets a
/// resting level at stored price `level_price`.
pub open spec fn crosses(is_bid: bool, price: i32, level_price: i32) -> bool {
    if is_bid {
        abs_price(price) >= abs_price(level_price)
    } else {
        abs_price(price) <= abs_price(level_price)
    }
}

/// `m` after `qty` is taken off order `id`: the order leaves once nothing of
/// it is left.
pub open spec fn take(m: Map<u32, RestingOrder>, id: u32, qty: u32) -> Map<u32, RestingOrder> {
    let r = m[id];
    if r.qty.0 == qty {
        m.remove(id)
    } else {
        m.insert(id, RestingOrder { qty: Qty((r.qty.0 - qty) as u32), ..r })
    }
}

/// Holds the books, indexed by book id, and the order index that they share.
pub struct OrderBookManager {
    pub books: Vec<Option<OrderBook>>,
    pub oid_map: OidMap,
}

impl OrderBookManager {
    pub open spec fn data(self) -> Seq<Option<Order>> {
        self.oid_map.data@
    }

    pub open spec fn has_book(self, bk: u32) -> bool {
        (bk as int) < self.books@.len() && self.books@[bk as int] is Some
    }

    pub open spec fn book(self, bk: u32) -> OrderBook {
        self.books@[bk as int]->0
    }

    /// The summed quantity of the live orders of book `bk` at level `lid`.
    pub open spec fn level_total(self, bk: u32, lid: u32) -> nat {
        qty_sum(self.data(), at_level(bk, lid))
    }

    /// A live order sits in an existing book, at a linked level, with a
    /// positive quantity.
    pub open spec fn order_ok(self, o: Order) -> bool {
        &&& self.has_book(o.book_id.0)
        &&& o.qty.0 > 0
        &&& self.book(o.book_id.0).linked(o.level_id.0)
    }

    pub open spec fn wf(self) -> bool {
        &&& MAX_BOOKS <= self.books@.len() <= u32::MAX + 1
        &&& self.data().len() <= u32::MAX + 1
        &&& forall|bk: u32| self.has_book(bk) ==> #[trigger] self.book(bk).wf()
        &&& forall|i: int|
            0 <= i < self.data().len() && self.data()[i] is Some ==> self.order_ok(
                #[trigger] self.data()[i]->0,
            )
        &&& forall|bk: u32, lid: u32|
            self.has_book(bk) && #[trigger] self.book(bk).linked(lid) ==> self.book(bk).level(
                lid,
            ).size.0 == self.level_total(bk, lid)
    }

    pub open spec fn resting(self, o: Order) -> RestingOrder {
        RestingOrder {
            book_id: o.book_id,
            price: self.book(o.book_id.0).level(o.level_id.0).price,
            qty: o.qty,
            trader: o.trader,
            nonce: o.nonce,
            expiry: o.expiry,
            signature: o.signature,
        }
    }

    /// The live orders by id.
    pub open spec fn orders(self) -> Map<u32, RestingOrder> {
        Map::new(
            |id: u32| entry_at(self.data(), id) is Some,
            |id: u32| self.resting(entry_at(self.data(), id)->0),
        )
    }

    /// Total resting quantity of one side of a book; zero for a missing book.
    pub open spec fn side_total(self, bk: u32, bid: bool) -> nat {
        if self.has_book(bk) {
            self.book(bk).total(bid)
        } else {
            0
        }
    }

    /// Whether `qty` more fits in the level at stored price `p` of book `bk`.
    pub open spec fn room(self, bk: u32, p: i32, qty: u32) -> bool {
        self.has_book(bk) ==> forall|l: u32|
            self.book(bk).linked(l) && #[trigger] self.book(bk).level(l).price.0 == p
                ==> self.book(bk).level(l).size.0 + qty <= u32::MAX
    }

    /// A side of a book as its handles, best first; empty for a missing book.
    pub open spec fn side_seq(self, bk: u32, bid: bool) -> Seq<crate::level::PriceLevel> {
        if self.has_book(bk) {
            if bid {
                self.book(bk).bids@
            } else {
                self.book(bk).asks@
            }
        } else {
            Seq::empty()
        }
    }

    /// What resting `qty` under the new id `id` in book `bk` at stored price
    /// `sp` (on the bid side when `bid`) does, from `self` to `new`: the entry appears at a level of that
    /// price, linked on the side of its sign, which grows by `qty` or is
    /// inserted into its side; nothing else changes.
    pub open spec fn add_effect(
        self,
        new: OrderBookManager,
        id: u32,
        bk: u32,
        bid: bool,
        sp: i32,
        qty: Qty,
    ) -> bool {
        &&& (sp > 0) == bid
        &&& forall|x: u32| x != id ==> #[trigger] entry_at(new.data(), x) == entry_at(self.data(), x)
        &&& self.others_same(new, bk)
        &&& new.has_book(bk)
        &&& new.side_seq(bk, !bid) == self.side_seq(bk, !bid)
        &&& entry_at(new.data(), id) matches Some(o) && {
            let b1 = new.book(bk);
            let lid = o.level_id.0;
            let was = self.has_book(bk) && self.book(bk).linked(lid);
            &&& o.book_id.0 == bk
            &&& o.qty == qty
            &&& b1.linked(lid)
            &&& b1.level(lid).price == Price(sp)
            &&& self.has_book(bk) ==> self.book(bk).same_except(b1, lid)
            &&& was ==> {
                &&& b1.level(lid).size.0 == self.book(bk).level(lid).size.0 + qty.0
                &&& new.side_seq(bk, bid) == self.side_seq(bk, bid)
            }
            &&& !was ==> {
                &&& b1.level(lid).size == qty
                &&& exists|k: int|
                    0 <= k <= self.side_seq(bk, bid).len() && #[trigger] new.side_seq(bk, bid)
                        == self.side_seq(bk, bid).insert(
                        k,
                        crate::level::PriceLevel { level_id: o.level_id, price: Price(sp) },
                    )
            }
        }
    }

    /// Books other than `bk` are untouched.
    pub open spec fn others_same(self, other: OrderBookManager, bk: u32) -> bool {
        forall|b: u32|
            b != bk ==> (#[trigger] other.has_book(b) == self.has_book(b)) && (self.has_book(b)
                ==> other.book(b) == self.book(b))
    }
}

/// A new entry at a free slot of the index adds its share to every sum.
proof fn lemma_sum_insert(
    s: Seq<Option<Order>>,
    t: Seq<Option<Order>>,
    id: u32,
    v: Order,
    f: spec_fn(Order) -> bool,
)
    requires
        s.len() <= t.len() <= u32::MAX + 1,
        (id as int) < t.len(),
        entry_at(s, id) is None,
        forall|x: u32| #[trigger] entry_at(t, x) == if x == id {
            Some(v)
        } else {
            entry_at(s, x)
        },
    ensures
        qty_sum(t, f) == qty_sum(s, f) + share(Some(v), f),
{
    let p = Seq::new(t.len(), |i: int| if i < s.len() { s[i] } else { None });
    lemma_qty_sum_pad(s, p, f);
    assert forall|i: int| 0 <= i < t.len() implies #[trigger] t[i] == p.update(id as int, Some(v))[i] by {
        assert(entry_at(t, i as u32) == t[i]);
        if i < s.len() {
            assert(entry_at(s, i as u32) == s[i]);
        }
    }
    assert(t =~= p.update(id as int, Some(v)));
    if (id as int) < s.len() {
        assert(entry_at(s, id) == s[id as int]);
    }
    lemma_qty_sum_update(p, id as int, Some(v), f);
}

impl OrderBookManager {
    /// Grows the book vector with empty slots so that it has one for `bk`.
    fn grow_books(&mut self, bk: u32)
        requires
            old(self).wf(),
        ensures
            final(self).wf(),
            (bk as int) < final(self).books@.len(),
            final(self).oid_map == old(self).oid_map,
            forall|b: u32|
                #[trigger] final(self).has_book(b) == old(self).has_book(b) && (old(self).has_book(b)
                    ==> final(self).book(b) == old(self).book(b)),
    {
        let ghost pre = *self;
        while self.books.len() <= bk as usize
            invariant
                pre.books@.len() <= self.books@.len() <= bk + 1 || self.books@.len() == pre.books@.len(),
                pre.books@.len() <= self.books@.len(),
                self.oid_map == pre.oid_map,
                forall|i: int|
                    0 <= i < self.books@.len() ==> #[trigger] self.books@[i] == if i < pre.books@.len() {
                        pre.books@[i]
                    } else {
                        None
                    },
            decreases bk + 1 - self.books@.len(),
        {
            self.books.push(None);
        }
        proof {
            assert forall|b: u32|
                #[trigger] self.has_book(b) == pre.has_book(b) && (pre.has_book(b) ==> self.book(b)
                    == pre.book(b)) by {
                if (b as int) < self.books@.len() {
                    assert(self.books@[b as int] == if (b as int) < pre.books@.len() {
                        pre.books@[b as int]
                    } else {
                        None
                    });
                }
            }
            assert forall|bx: u32| self.has_book(bx) implies #[trigger] self.book(bx).wf() by {
                assert(pre.has_book(bx));
            }
            assert forall|i: int| 0 <= i < self.data().len() && self.data()[i] is Some implies self.order_ok(#[trigger] self.data()[i]->0) by {
                assert(pre.order_ok(pre.data()[i]->0));
            }
            assert forall|bx: u32, lid: u32| self.has_book(bx) && #[trigger] self.book(bx).linked(lid) implies self.book(bx).level(
                lid,
            ).size.0 == self.level_total(bx, lid) by {
                assert(pre.has_book(bx));
                assert(pre.book(bx).linked(lid));
            }
        }
    }

    /// Rests a new order: `price32` takes the sign of its side, the book is
    /// created if absent (the book vector grows as needed), and the order is
    /// recorded under `order_id`.
    pub fn add_order(
        &mut self,
        order_id: OrderId,
        book_id: BookId,
        qty: Qty,
        price32: u32,
        is_bid: bool,
        trader: Option<[u8; 20]>,
        nonce: Option<u64>,
        expiry: Option<u64>,
        signature: Option<[u8; 65]>,
    )
        requires
            old(self).wf(),
            qty.0 > 0,
            0 < price32 <= MAX_PRICE,
            !old(self).orders().contains_key(order_id.0),
            old(self).room(book_id.0, signed_price(price32, is_bid), qty.0),
        ensures
            final(self).wf(),
            final(self).orders() == old(self).orders().insert(
                order_id.0,
                RestingOrder {
                    book_id,
                    price: Price(signed_price(price32, is_bid)),
                    qty,
                    trader,
                    nonce,
                    expiry,
                    signature,
                },
            ),
            final(self).has_book(book_id.0),
            old(self).others_same(*final(self), book_id.0),
            final(self).side_total(book_id.0, is_bid) == old(self).side_total(book_id.0, is_bid)
                + qty.0,
            final(self).side_total(book_id.0, !is_bid) == old(self).side_total(book_id.0, !is_bid),
            final(self).opposite_head(book_id.0, is_bid) == old(self).opposite_head(book_id.0, is_bid),
            old(self).add_effect(
                *final(self),
                order_id.0,
                book_id.0,
                is_bid,
                signed_price(price32, is_bid),
                qty,
            ),
            entry_at(final(self).data(), order_id.0) matches Some(o) && o == (Order {
                level_id: o.level_id,
                book_id,
                qty,
                trader,
                nonce,
                expiry,
                signature,
            }),
    {
        let price = Price::from_u32(price32, is_bid);
        let bk = book_id.0 as usize;
        let mut order = Order::new(qty, LevelId(0), book_id, trader, nonce, expiry, signature);
        let ghost pre0 = *self;
        self.grow_books(book_id.0);
        let ghost pre = *self;
        proof {
            assert(pre.orders() =~= pre0.orders());
            assert(pre.has_book(book_id.0) == pre0.has_book(book_id.0));
            if pre0.has_book(book_id.0) {
                assert(pre.book(book_id.0) == pre0.book(book_id.0));
            }
            assert(pre.room(book_id.0, signed_price(price32, is_bid), qty.0));
            assert forall|b: u32, bid: bool| #[trigger] pre.side_seq(b, bid) == pre0.side_seq(b, bid) by {
                assert(pre.has_book(b) == pre0.has_book(b));
            }
        }
        if self.books[bk].is_none() {
            self.books[bk] = Some(OrderBook::new());
        }
        let ghost mid = *self;
        let ghost b0 = self.book(book_id.0);
        match &mut self.books[bk] {
            Some(b) => {
                b.add_order(&mut order, price, qty);
            },
            None => {},
        }
        let ghost b1 = self.book(book_id.0);
        self.oid_map.insert(order_id, &order);
        proof {
            let lid = order.level_id.0;
            let bkk = book_id.0;
            assert(forall|b: u32| b != bkk ==> (#[trigger] self.has_book(b) == pre.has_book(b)) && (pre.has_book(b) ==> self.book(b) == pre.book(b)));
            // sums after the new entry
            assert forall|b: u32, l: u32| #[trigger] qty_sum(self.data(), at_level(b, l)) == qty_sum(pre.data(), at_level(b, l)) + share(Some(order), at_level(b, l)) by {
                lemma_sum_insert(pre.data(), self.data(), order_id.0, order, at_level(b, l));
            }
            // the level was empty of orders if it was not linked before
            if !b0.linked(lid) {
                assert forall|i: int| 0 <= i < pre.data().len() implies share(#[trigger] pre.data()[i], at_level(bkk, lid)) == 0 by {
                    if pre.data()[i] is Some {
                        assert(pre.order_ok(pre.data()[i]->0));
                    }
                }
                lemma_qty_sum_zero(pre.data(), at_level(bkk, lid));
            }
            assert forall|bx: u32| self.has_book(bx) implies #[trigger] self.book(bx).wf() by {}
            assert forall|i: int| 0 <= i < self.data().len() && self.data()[i] is Some implies self.order_ok(#[trigger] self.data()[i]->0) by {
                assert(entry_at(self.data(), i as u32) == self.data()[i]);
                if i != order_id.0 as int {
                    assert(entry_at(pre.data(), i as u32) == self.data()[i]);
                    assert(pre.data()[i] == self.data()[i]);
                    assert(pre.order_ok(pre.data()[i]->0));
                    let o = pre.data()[i]->0;
                    if o.book_id.0 == bkk {
                        assert(b0.linked(o.level_id.0));
                    }
                }
            }
            assert forall|bx: u32, l: u32| self.has_book(bx) && #[trigger] self.book(bx).linked(l) implies self.book(bx).level(l).size.0 == self.level_total(bx, l) by {
                if bx != bkk {
                    assert(pre.book(bx).linked(l));
                } else if l != lid {
                    assert(b0.linked(l));
                    assert(pre.has_book(bkk));
                } else if b0.linked(lid) {
                    assert(pre.has_book(bkk));
                }
            }
            assert forall|x: u32| #[trigger] self.orders().contains_key(x) == pre.orders().insert(order_id.0, RestingOrder {
                    book_id,
                    price: Price(signed_price(price32, is_bid)),
                    qty,
                    trader,
                    nonce,
                    expiry,
                    signature,
                }).contains_key(x) by {}
            assert forall|x: u32| #[trigger] self.orders().contains_key(x) implies self.orders()[x] == pre.orders().insert(order_id.0, RestingOrder {
                    book_id,
                    price: Price(signed_price(price32, is_bid)),
                    qty,
                    trader,
                    nonce,
                    expiry,
                    signature,
                })[x] by {
                if x != order_id.0 {
                    let o = entry_at(pre.data(), x)->0;
                    assert((x as int) < pre.data().len());
                    assert(pre.data()[x as int] == entry_at(pre.data(), x));
                    assert(pre.order_ok(pre.data()[x as int]->0));
                    if o.book_id.0 == bkk {
                        assert(b0.linked(o.level_id.0));
                    }
                }
            }
            assert(self.orders() =~= pre.orders().insert(order_id.0, RestingOrder {
                    book_id,
                    price: Price(signed_price(price32, is_bid)),
                    qty,
                    trader,
                    nonce,
                    expiry,
                    signature,
                }));
            assert(entry_at(self.data(), order_id.0) == Some(order));
            assert(pre.side_seq(bkk, is_bid) == if pre.has_book(bkk) { b0.side_of(price.0) } else { Seq::empty() });
            assert(self.side_seq(bkk, is_bid) == b1.side_of(price.0));
            assert(self.side_seq(bkk, !is_bid) == pre.side_seq(bkk, !is_bid));
            assert(pre.side_seq(bkk, true) == pre0.side_seq(bkk, true));
            assert(pre.side_seq(bkk, false) == pre0.side_seq(bkk, false));
            assert(pre.side_total(bkk, is_bid) == pre0.side_total(bkk, is_bid));
            assert(pre.side_total(bkk, !is_bid) == pre0.side_total(bkk, !is_bid));
            if !pre.has_book(bkk) {
                assert(b0.bids@.len() == 0 && b0.asks@.len() == 0);
                assert(!side_holds(b0.bids@, lid) && !side_holds(b0.asks@, lid));
            } else {
                assert(b0 == pre.book(bkk));
            }
            let was = pre0.has_book(bkk) && pre0.book(bkk).linked(lid);
            assert(was == b0.linked(lid));
            let e = crate::level::PriceLevel { level_id: order.level_id, price: Price(signed_price(price32, is_bid)) };
            if !was {
                let k = choose|k: int| 0 <= k <= b0.side_of(price.0).len() && #[trigger] b1.side_of(price.0) == b0.side_of(price.0).insert(k, e);
                assert(self.side_seq(bkk, is_bid) == pre0.side_seq(bkk, is_bid).insert(k, e));
            }
            assert(order == (Order { level_id: order.level_id, book_id, qty, trader, nonce, expiry, signature }));
        }
    }
}

impl OrderBookManager {
    /// What taking `qty` off the live order `id` does, from `self` to `new`:
    /// the order's entry loses `qty` (and leaves once nothing is left), its
    /// level loses `qty` (and, once empty, is unlinked from its side and its
    /// id pushed on the pool's free-list), and nothing else changes.
    pub open spec fn take_effect(self, new: OrderBookManager, id: u32, qty: u32) -> bool {
        let o = entry_at(self.data(), id)->0;
        let bk = o.book_id.0;
        let lid = o.level_id.0;
        let b0 = self.book(bk);
        let b1 = new.book(bk);
        let lv = b0.level(lid);
        let bid = lv.price.0 > 0;
        &&& new.orders() == self.after_take(id, qty)
        &&& forall|x: u32| x != id ==> #[trigger] entry_at(new.data(), x) == entry_at(self.data(), x)
        &&& entry_at(new.data(), id) == if o.qty.0 == qty {
            None
        } else {
            Some(Order { qty: Qty((o.qty.0 - qty) as u32), ..o })
        }
        &&& self.others_same(new, bk)
        &&& new.has_book(bk)
        &&& b0.same_except(b1, lid)
        &&& new.side_total(bk, bid) + qty == self.side_total(bk, bid)
        &&& new.side_total(bk, !bid) == self.side_total(bk, !bid)
        &&& lv.size.0 == qty ==> {
            &&& !b1.linked(lid)
            &&& b1.free_ids() == b0.free_ids().push(o.level_id)
            &&& exists|k: int|
                0 <= k < b0.side_of(lv.price.0).len() && b0.side_of(lv.price.0)[k].level_id
                    == o.level_id && #[trigger] b1.side_of(lv.price.0) == b0.side_of(
                    lv.price.0,
                ).remove(k)
            &&& bid ==> b1.asks@ == b0.asks@
            &&& !bid ==> b1.bids@ == b0.bids@
        }
        &&& lv.size.0 != qty ==> {
            &&& b1.linked(lid)
            &&& b1.level(lid) == (Level { size: Qty((lv.size.0 - qty) as u32), ..lv })
            &&& b1.bids@ == b0.bids@
            &&& b1.asks@ == b0.asks@
        }
    }

    /// The live orders after `qty` is taken off order `order_id`.
    pub open spec fn after_take(self, order_id: u32, qty: u32) -> Map<u32, RestingOrder> {
        take(self.orders(), order_id, qty)
    }

    /// Takes `qty` off a live order; the order leaves the index, and its level
    /// the book when emptied, once nothing of it is left.
    fn settle(&mut self, order_id: OrderId, qty: Qty)
        requires
            old(self).wf(),
            old(self).orders().contains_key(order_id.0),
            old(self).orders()[order_id.0].qty.0 >= qty.0,
        ensures
            final(self).wf(),
            old(self).take_effect(*final(self), order_id.0, qty.0),
    {
        let ghost pre = *self;
        let o = *self.oid_map.get(order_id).unwrap();
        let bk = o.book_id.0 as usize;
        let ghost idx = order_id.0 as int;
        let ghost lid = o.level_id.0;
        let ghost b0 = self.book(o.book_id.0);
        proof {
            assert(pre.data()[idx] == Some(o));
            assert(pre.order_ok(o));
            lemma_qty_sum_bound(pre.data(), idx, at_level(o.book_id.0, lid));
        }
        let whole = o.qty.0 == qty.0;
        if whole {
            match &mut self.books[bk] {
                Some(b) => {
                    b.remove_order(&o);
                },
                None => {},
            }
            self.oid_map.remove(order_id);
        } else {
            match &mut self.books[bk] {
                Some(b) => {
                    b.reduce_order(&o, qty);
                },
                None => {},
            }
            self.oid_map.update_qty(order_id, qty);
        }
        proof {
            let bkk = o.book_id.0;
            let b1 = self.book(bkk);
            let nv = if whole { None } else { Some(Order { qty: Qty((o.qty.0 - qty.0) as u32), ..o }) };
            assert(self.data() == pre.data().update(idx, nv));
            assert forall|b: u32, l: u32| #[trigger] qty_sum(self.data(), at_level(b, l)) + share(Some(o), at_level(b, l)) == qty_sum(pre.data(), at_level(b, l)) + share(nv, at_level(b, l)) by {
                lemma_qty_sum_update(pre.data(), idx, nv, at_level(b, l));
            }
            // a level that emptied holds no live order any more
            if !b1.linked(lid) {
                assert(qty_sum(self.data(), at_level(bkk, lid)) == 0);
                assert forall|j: int| 0 <= j < self.data().len() && self.data()[j] is Some implies !(#[trigger] self.data()[j]->0.book_id.0 == bkk && self.data()[j]->0.level_id.0 == lid) by {
                    lemma_qty_sum_bound(self.data(), j, at_level(bkk, lid));
                    if j != idx {
                        assert(pre.data()[j] == self.data()[j]);
                        assert(pre.order_ok(pre.data()[j]->0));
                    }
                }
            }
            assert forall|bx: u32| self.has_book(bx) implies #[trigger] self.book(bx).wf() by {
                if bx != bkk {
                    assert(pre.has_book(bx));
                    assert(pre.book(bx).wf());
                    assert(self.book(bx) == pre.book(bx));
                }
            }
            assert forall|i: int| 0 <= i < self.data().len() && self.data()[i] is Some implies self.order_ok(#[trigger] self.data()[i]->0) by {
                if i != idx {
                    assert(pre.data()[i] == self.data()[i]);
                    assert(pre.order_ok(pre.data()[i]->0));
                    let p = pre.data()[i]->0;
                    if p.book_id.0 == bkk && p.level_id.0 != lid {
                        assert(b0.linked(p.level_id.0));
                    }
                    if p.book_id.0 == bkk && p.level_id.0 == lid {
                        assert(b1.linked(lid));
                    }
                }
            }
            assert forall|bx: u32, l: u32| self.has_book(bx) && #[trigger] self.book(bx).linked(l) implies self.book(bx).level(l).size.0 == self.level_total(bx, l) by {
                if bx != bkk {
                    assert(pre.book(bx).linked(l));
                } else if l != lid {
                    assert(b0.linked(l));
                }
            }
            let want = pre.after_take(order_id.0, qty.0);
            assert forall|x: u32| #[trigger] self.orders().contains_key(x) == want.contains_key(x) by {
                if x == order_id.0 {
                    assert(entry_at(self.data(), x) == nv);
                } else {
                    assert(entry_at(self.data(), x) == entry_at(pre.data(), x));
                }
            }
            assert forall|x: u32| #[trigger] self.orders().contains_key(x) implies self.orders()[x] == want[x] by {
                if x != order_id.0 {
                    assert(entry_at(self.data(), x) == entry_at(pre.data(), x));
                    let p = entry_at(pre.data(), x)->0;
                    assert(pre.data()[x as int] == entry_at(pre.data(), x));
                    assert(pre.order_ok(p));
                    assert(self.data()[x as int] == entry_at(self.data(), x));
                    assert(self.order_ok(p));
                    if p.book_id.0 == bkk && p.level_id.0 != lid {
                        assert(b0.linked(p.level_id.0));
                    }
                } else {
                    assert(entry_at(self.data(), x) == nv);
                }
            }
            assert(self.orders() =~= want);
        }
    }

    /// Removes a live order from its book and from the index; an unknown id
    /// changes nothing.
    pub fn remove_order(&mut self, order_id: OrderId)
        requires
            old(self).wf(),
        ensures
            final(self).wf(),
            final(self).orders() == old(self).orders().remove(order_id.0),
            old(self).orders().contains_key(order_id.0) ==> old(self).take_effect(
                *final(self),
                order_id.0,
                old(self).orders()[order_id.0].qty.0,
            ),
            !old(self).orders().contains_key(order_id.0) ==> *final(self) == *old(self),
    {
        match self.oid_map.get(order_id) {
            Some(o) => {
                let q = o.qty;
                self.settle(order_id, q);
            },
            None => {
                proof {
                    assert(self.orders() =~= self.orders().remove(order_id.0));
                }
            },
        }
    }

    /// Takes `qty` off a live order; taking all of it removes the order.
    pub fn cancel_order(&mut self, order_id: OrderId, qty: Qty)
        requires
            old(self).wf(),
            old(self).orders().contains_key(order_id.0) ==> old(self).orders()[order_id.0].qty.0
                >= qty.0,
        ensures
            final(self).wf(),
            old(self).orders().contains_key(order_id.0) ==> old(self).take_effect(
                *final(self),
                order_id.0,
                qty.0,
            ),
            !old(self).orders().contains_key(order_id.0) ==> *final(self) == *old(self),
    {
        if self.oid_map.get(order_id).is_some() {
            self.settle(order_id, qty);
        }
    }

    /// Executes `qty` of a resting order: all of it removes the order, less
    /// reduces it.
    pub fn execute_order(&mut self, order_id: OrderId, qty: Qty)
        requires
            old(self).wf(),
            old(self).orders().contains_key(order_id.0) ==> old(self).orders()[order_id.0].qty.0
                >= qty.0,
        ensures
            final(self).wf(),
            old(self).orders().contains_key(order_id.0) ==> old(self).take_effect(
                *final(self),
                order_id.0,
                qty.0,
            ),
            !old(self).orders().contains_key(order_id.0) ==> *final(self) == *old(self),
    {
        if self.oid_map.get(order_id).is_some() {
            self.settle(order_id, qty);
        }
    }
}

impl OrderBookManager {
    /// The head handle of the side opposite to `is_bid` in book `bk`.
    pub open spec fn opposite_head(self, bk: u32, is_bid: bool) -> Option<crate::level::PriceLevel> {
        if self.has_book(bk) {
            let side = if is_bid {
                self.book(bk).asks@
            } else {
                self.book(bk).bids@
            };
            if side.len() > 0 {
                Some(side[0])
            } else {
                None
            }
        } else {
            None
        }
    }

    /// `id` is the lowest id of the live orders of book `bk` at level `lid`.
    pub open spec fn first_at(self, bk: u32, lid: u32, id: u32) -> bool {
        &&& entry_at(self.data(), id) matches Some(o) && o.book_id.0 == bk && o.level_id.0 == lid
        &&& forall|j: u32|
            j < id ==> !(#[trigger] entry_at(self.data(), j) matches Some(p) && p.book_id.0 == bk
                && p.level_id.0 == lid)
    }

    /// What the next match of an incoming order is: the earliest order at
    /// the best opposite level, when that level's price is crossed.
    pub open spec fn next_match(self, bk: u32, is_bid: bool, price: i32, r: Option<(OrderId, Qty)>) -> bool {
        match self.opposite_head(bk, is_bid) {
            None => r is None,
            Some(h) => if crosses(is_bid, price, h.price.0) {
                r matches Some((id, q)) && self.first_at(bk, h.level_id.0, id.0) && q == entry_at(
                    self.data(),
                    id.0,
                )->0.qty
            } else {
                r is None
            },
        }
    }

    /// An empty manager with `MAX_BOOKS` empty book slots to start with; more
    /// are added as books with larger ids are created.
    pub fn new() -> (r: OrderBookManager)
        ensures
            r.wf(),
            r.orders() == Map::<u32, RestingOrder>::empty(),
            forall|bk: u32| !#[trigger] r.has_book(bk),
    {
        let mut books: Vec<Option<OrderBook>> = Vec::new();
        while books.len() < MAX_BOOKS
            invariant
                books@.len() <= MAX_BOOKS,
                forall|i: int| 0 <= i < books@.len() ==> #[trigger] books@[i] is None,
            decreases MAX_BOOKS - books@.len(),
        {
            books.push(None);
        }
        let r = OrderBookManager { books, oid_map: OidMap::new() };
        proof {
            assert(r.orders() =~= Map::<u32, RestingOrder>::empty());
        }
        r
    }

    /// Replaces a live order by a new one on the same book and side, with a
    /// new id, quantity and price; the authentication fields are not carried
    /// over. An unknown id changes nothing.
    pub fn replace_order(&mut self, order_id: OrderId, new_order_id: OrderId, new_qty: Qty, new_price: u32)
        requires
            old(self).wf(),
            old(self).orders().contains_key(order_id.0) ==> {
                let r = old(self).orders()[order_id.0];
                &&& new_qty.0 > 0
                &&& 0 < new_price <= MAX_PRICE
                &&& new_order_id == order_id || !old(self).orders().contains_key(new_order_id.0)
                &&& old(self).room(r.book_id.0, signed_price(new_price, r.price.0 > 0), new_qty.0)
            },
        ensures
            final(self).wf(),
            old(self).orders().contains_key(order_id.0) ==> {
                let r = old(self).orders()[order_id.0];
                final(self).orders() == old(self).orders().remove(order_id.0).insert(
                    new_order_id.0,
                    RestingOrder {
                        book_id: r.book_id,
                        price: Price(signed_price(new_price, r.price.0 > 0)),
                        qty: new_qty,
                        trader: None,
                        nonce: None,
                        expiry: None,
                        signature: None,
                    },
                )
            },
            !old(self).orders().contains_key(order_id.0) ==> *final(self) == *old(self),
    {
        let o = match self.oid_map.get(order_id) {
            Some(o) => *o,
            None => {
                return;
            },
        };
        let ghost pre = *self;
        let ghost lid = o.level_id.0;
        let bk = o.book_id;
        proof {
            assert(pre.data()[order_id.0 as int] == Some(o));
            assert(pre.order_ok(o));
            pre.book(bk.0).lemma_linked_on_side(lid);
        }
        let is_bid = match &self.books[bk.0 as usize] {
            Some(b) => b.level_pool.get(o.level_id).unwrap().price.is_bid(),
            None => true,
        };
        self.settle(order_id, o.qty);
        proof {
            let p = signed_price(new_price, is_bid);
            let b0 = pre.book(bk.0);
            let b1 = self.book(bk.0);
            assert(entry_at(pre.data(), order_id.0) == Some(o));
            assert(pre.take_effect(*self, order_id.0, o.qty.0));
            assert forall|l: u32| b1.linked(l) && #[trigger] b1.level(l).price.0 == p implies b1.level(l).size.0 + new_qty.0 <= u32::MAX by {
                if l != lid {
                    assert(b0.linked(l));
                } else {
                    assert(b0.linked(lid));
                    assert(b0.level(lid).size.0 != o.qty.0);
                    lemma_qty_sum_bound(pre.data(), order_id.0 as int, at_level(bk.0, lid));
                    assert(b0.level(lid).size.0 >= o.qty.0);
                    assert(b1.level(lid).price == b0.level(lid).price);
                    assert(b0.level(lid).price.0 == p);
                    assert(b1.level(lid).size.0 <= b0.level(lid).size.0);
                }
            }
            assert(entry_at(self.data(), new_order_id.0) is None) by {
                assert(!self.orders().contains_key(new_order_id.0));
            }
        }
        self.add_order(new_order_id, bk, new_qty, new_price, is_bid, None, None, None, None);
    }

    /// The best bid price of a book, if it exists and has bids: the highest
    /// price of its live bids.
    pub fn get_best_bid(&self, book_id: BookId) -> (r: Option<Price>)
        requires
            self.wf(),
        ensures
            r == if self.has_book(book_id.0) {
                self.book(book_id.0).best_bid()
            } else {
                None
            },
            r matches Some(p) ==> p.0 > 0 && priced(self.orders(), book_id.0, p.0),
            forall|id: u32|
                #[trigger] self.orders().contains_key(id) && self.orders()[id].book_id == book_id
                    && self.orders()[id].price.0 > 0 ==> (r matches Some(p) && self.orders()[id].price.0
                    <= p.0),
    {
        proof {
            lemma_head_is_best(*self, book_id.0, true);
            if self.has_book(book_id.0) && self.book(book_id.0).bids@.len() > 0 {
                assert(self.book(book_id.0).wf());
                assert(self.book(book_id.0).bid_ok(self.book(book_id.0).bids@[0]));
            }
        }
        let i = book_id.0 as usize;
        if i >= self.books.len() {
            return None;
        }
        match &self.books[i] {
            Some(b) => b.get_best_bid(),
            None => None,
        }
    }

    /// The best ask price of a book, if it exists and has asks: the highest
    /// stored (lowest external) price of its live asks.
    pub fn get_best_ask(&self, book_id: BookId) -> (r: Option<Price>)
        requires
            self.wf(),
        ensures
            r == if self.has_book(book_id.0) {
                self.book(book_id.0).best_ask()
            } else {
                None
            },
            r matches Some(p) ==> p.0 < 0 && priced(self.orders(), book_id.0, p.0),
            forall|id: u32|
                #[trigger] self.orders().contains_key(id) && self.orders()[id].book_id == book_id
                    && self.orders()[id].price.0 <= 0 ==> (r matches Some(p) && self.orders()[id].price.0
                    <= p.0),
    {
        proof {
            lemma_head_is_best(*self, book_id.0, false);
            if self.has_book(book_id.0) && self.book(book_id.0).asks@.len() > 0 {
                assert(self.book(book_id.0).wf());
                assert(self.book(book_id.0).ask_ok(self.book(book_id.0).asks@[0]));
            }
        }
        let i = book_id.0 as usize;
        if i >= self.books.len() {
            return None;
        }
        match &self.books[i] {
            Some(b) => b.get_best_ask(),
            None => None,
        }
    }

    /// The earliest resting order at the best level opposite to `is_bid`,
    /// with its quantity, provided that level's price is crossed by `price`.
    pub fn get_next_match(&self, book_id: BookId, is_bid: bool, price: Price) -> (r: Option<(OrderId, Qty)>)
        requires
            self.wf(),
        ensures
            self.next_match(book_id.0, is_bid, price.0, r),
    {
        let i = book_id.0 as usize;
        if i >= self.books.len() {
            return None;
        }
        let book = match &self.books[i] {
            Some(b) => b,
            None => {
                return None;
            },
        };
        let level = if is_bid {
            book.get_best_ask_level()
        } else {
            book.get_best_bid_level()
        };
        let lid = match level {
            Some(l) => l,
            None => {
                return None;
            },
        };
        proof {
            assert(self.book(book_id.0).wf());
            if is_bid {
                assert(book.ask_ok(book.asks@[0]));
                assert(book.linked(lid.0));
            } else {
                assert(book.bid_ok(book.bids@[0]));
                assert(book.linked(lid.0));
            }
        }
        let level_price = book.level_pool.get(lid).unwrap().price;
        let can_match = if is_bid {
            price.absolute() >= level_price.absolute()
        } else {
            price.absolute() <= level_price.absolute()
        };
        if !can_match {
            return None;
        }
        let n = self.oid_map.data.len();
        let mut k: usize = 0;
        let ghost h = if is_bid { book.asks@[0] } else { book.bids@[0] };
        proof {
            assert(self.opposite_head(book_id.0, is_bid) == Some(h));
        }
        while k < n
            invariant
                self.wf(),
                self.has_book(book_id.0),
                *book == self.book(book_id.0),
                book.linked(lid.0),
                self.opposite_head(book_id.0, is_bid) == Some(h),
                h.level_id == lid,
                crosses(is_bid, price.0, h.price.0),
                n == self.data().len(),
                n <= u32::MAX + 1,
                k <= n,
                forall|j: int|
                    0 <= j < k ==> !(#[trigger] self.data()[j] matches Some(p) && p.book_id.0
                        == book_id.0 && p.level_id.0 == lid.0),
            decreases n - k,
        {
            match &self.oid_map.data[k] {
                Some(o) => {
                    if o.book_id.0 == book_id.0 && o.level_id.0 == lid.0 {
                        proof {
                            assert forall|j: u32| j < k as u32 implies !(#[trigger] entry_at(self.data(), j) matches Some(p)
                                && p.book_id.0 == book_id.0 && p.level_id.0 == lid.0) by {
                                assert(entry_at(self.data(), j) == self.data()[j as int]);
                            }
                            assert(entry_at(self.data(), k as u32) == self.data()[k as int]);
                        }
                        return Some((OrderId(k as u32), o.qty));
                    }
                },
                None => {},
            }
            k += 1;
        }
        proof {
            assert forall|j: int| 0 <= j < self.data().len() implies share(#[trigger] self.data()[j], at_level(book_id.0, lid.0)) == 0 by {}
            lemma_qty_sum_zero(self.data(), at_level(book_id.0, lid.0));
            assert(book.level(lid.0).size.0 > 0);
            assert(false);
        }
        None
    }
}

impl OrderBookManager {
    /// Whether `qty` more fits at external price `price32` on the given side
    /// of a book (always, for a book that does not exist yet).
    pub fn has_room(&self, book_id: BookId, price32: u32, is_bid: bool, qty: Qty) -> (r: bool)
        requires
            self.wf(),
            price32 <= MAX_PRICE,
        ensures
            r == self.room(book_id.0, signed_price(price32, is_bid), qty.0),
    {
        let i = book_id.0 as usize;
        if i >= self.books.len() {
            return true;
        }
        match &self.books[i] {
            Some(b) => {
                proof {
                    assert(self.book(book_id.0).wf());
                }
                let r = b.has_room(Price::from_u32(price32, is_bid), qty);
                proof {
                    let p = signed_price(price32, is_bid);
                    assert(forall|l: u32| #[trigger] b.level(l).price == Price(p) <==> b.level(l).price.0 == p);
                }
                r
            },
            None => true,
        }
    }
}

} // verus!
