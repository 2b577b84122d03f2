use vstd::prelude::*;
use crate::level::{Level, LevelId, PriceLevel};
use crate::order::Order;
use crate::pool::LevelPool;
use crate::price::Price;
use crate::quantity::Qty;

verus! {

/// The bid and ask sides of one market, over a pool of level records.
///
/// Each side is a sequence of `(LevelId, price)` handles sorted by signed
/// price, best first. Bids carry positive prices and asks negative ones.
pub struct OrderBook {
    pub level_pool: LevelPool,
    pub bids: Vec<PriceLevel>,
    pub asks: Vec<PriceLevel>,
}

/// Strictly decreasing signed prices: no two handles share a price.
pub open spec fn side_sorted(side: Seq<PriceLevel>) -> bool {
    forall|i: int, j: int| 0 <= i < j < side.len() ==> side[i].price.0 > side[j].price.0
}

/// Whether a handle on `side` refers to level `lid`.
pub open spec fn side_holds(side: Seq<PriceLevel>, lid: u32) -> bool {
    exists|k: int| 0 <= k < side.len() && side[k].level_id.0 == lid
}

/// Whether a handle on `side` has price `p`.
pub open spec fn side_has_price(side: Seq<PriceLevel>, p: i32) -> bool {
    exists|k: int| 0 <= k < side.len() && side[k].price.0 == p
}

/// The sum of the sizes of the levels that `side` refers to.
pub open spec fn side_total(side: Seq<PriceLevel>, levels: Seq<Level>) -> nat
    decreases side.len(),
{
    if side.len() == 0 {
        0
    } else {
        side_total(side.drop_last(), levels) + levels[side.last().level_id.0 as int].size.0 as nat
    }
}

impl OrderBook {
    pub open spec fn levels(self) -> Seq<Level> {
        self.level_pool.levels@
    }

    pub open spec fn free_ids(self) -> Seq<LevelId> {
        self.level_pool.free_list@
    }

    /// Whether level `lid` is linked on either side.
    pub open spec fn linked(self, lid: u32) -> bool {
        side_holds(self.bids@, lid) || side_holds(self.asks@, lid)
    }

    pub open spec fn level(self, lid: u32) -> Level {
        self.levels()[lid as int]
    }

    /// The side that a level of stored price `p` belongs on.
    pub open spec fn side_of(self, p: i32) -> Seq<PriceLevel> {
        if p > 0 {
            self.bids@
        } else {
            self.asks@
        }
    }

    /// Total resting size on the bid side (`bid`) or the ask side.
    pub open spec fn total(self, bid: bool) -> nat {
        if bid {
            side_total(self.bids@, self.levels())
        } else {
            side_total(self.asks@, self.levels())
        }
    }

    /// A handle names a live level of its own price, of positive size.
    pub open spec fn handle_ok(self, e: PriceLevel) -> bool {
        &&& (e.level_id.0 as int) < self.levels().len()
        &&& self.level(e.level_id.0).price == e.price
        &&& self.level(e.level_id.0).size.0 > 0
    }

    pub open spec fn bid_ok(self, e: PriceLevel) -> bool {
        e.price.0 > 0 && self.handle_ok(e)
    }

    pub open spec fn ask_ok(self, e: PriceLevel) -> bool {
        e.price.0 < 0 && e.price.0 > i32::MIN && self.handle_ok(e)
    }

    pub open spec fn wf(self) -> bool {
        &&& side_sorted(self.bids@)
        &&& side_sorted(self.asks@)
        &&& forall|k: int| 0 <= k < self.bids@.len() ==> self.bid_ok(#[trigger] self.bids@[k])
        &&& forall|k: int| 0 <= k < self.asks@.len() ==> self.ask_ok(#[trigger] self.asks@[k])
        &&& forall|k: int|
            0 <= k < self.free_ids().len() ==> (#[trigger] self.free_ids()[k].0 as int)
                < self.levels().len() && !self.linked(self.free_ids()[k].0)
        &&& forall|i: int, j: int|
            0 <= i < j < self.free_ids().len() ==> self.free_ids()[i] != self.free_ids()[j]
        &&& self.levels().len() <= self.bids@.len() + self.asks@.len() + self.free_ids().len()
    }

    /// Nothing but level `lid` changed: every other level keeps its link and
    /// its record.
    pub open spec fn same_except(self, other: OrderBook, lid: u32) -> bool {
        forall|l: u32|
            l != lid ==> (#[trigger] other.linked(l) == self.linked(l)) && (self.linked(l)
                ==> other.level(l) == self.level(l))
    }

    /// The best (first) price of the bid side, if any.
    pub open spec fn best_bid(self) -> Option<Price> {
        if self.bids@.len() > 0 {
            Some(self.bids@[0].price)
        } else {
            None
        }
    }

    /// The best (first) price of the ask side, if any.
    pub open spec fn best_ask(self) -> Option<Price> {
        if self.asks@.len() > 0 {
            Some(self.asks@[0].price)
        } else {
            None
        }
    }
}

/// The first position of `side` whose price is not above `p`.
fn find_slot(side: &Vec<PriceLevel>, p: i32) -> (k: usize)
    requires
        side_sorted(side@),
    ensures
        k <= side@.len(),
        forall|i: int| 0 <= i < k ==> #[trigger] side@[i].price.0 > p,
        forall|i: int| k <= i < side@.len() ==> #[trigger] side@[i].price.0 <= p,
        side_has_price(side@, p) <==> (k < side@.len() && side@[k as int].price.0 == p),
{
    let mut k: usize = 0;
    while k < side.len() && side[k].price.0 > p
        invariant
            k <= side@.len(),
            side_sorted(side@),
            forall|i: int| 0 <= i < k ==> #[trigger] side@[i].price.0 > p,
        decreases side@.len() - k,
    {
        k += 1;
    }
    assert forall|i: int| k <= i < side@.len() implies #[trigger] side@[i].price.0 <= p by {
        if i > k {
            assert(side@[k as int].price.0 > side@[i].price.0);
        }
    }
    k
}

proof fn lemma_insert_sorted(side: Seq<PriceLevel>, k: int, e: PriceLevel)
    requires
        side_sorted(side),
        0 <= k <= side.len(),
        forall|i: int| 0 <= i < k ==> #[trigger] side[i].price.0 > e.price.0,
        forall|i: int| k <= i < side.len() ==> #[trigger] side[i].price.0 < e.price.0,
    ensures
        side_sorted(side.insert(k, e)),
{
    side.insert_ensures(k, e);
    let s = side.insert(k, e);
    assert forall|i: int, j: int| 0 <= i < j < s.len() implies s[i].price.0 > s[j].price.0 by {
        if j < k {
        } else if j == k {
        } else if i < k {
            assert(s[j] == side[j - 1]);
        } else if i == k {
            assert(s[j] == side[j - 1]);
        } else {
            assert(s[i] == side[i - 1]);
            assert(s[j] == side[j - 1]);
        }
    }
}

proof fn lemma_remove_sorted(side: Seq<PriceLevel>, k: int)
    requires
        side_sorted(side),
        0 <= k < side.len(),
    ensures
        side_sorted(side.remove(k)),
        forall|i: int|
            0 <= i < side.remove(k).len() ==> #[trigger] side.remove(k)[i] == if i < k {
                side[i]
            } else {
                side[i + 1]
            },
{
    side.remove_ensures(k);
}

/// Totals are read through the levels that the side names, and no others.
proof fn lemma_total_frame(side: Seq<PriceLevel>, a: Seq<Level>, b: Seq<Level>)
    requires
        forall|k: int|
            0 <= k < side.len() ==> #[trigger] a[side[k].level_id.0 as int].size == b[side[k].level_id.0 as int].size,
    ensures
        side_total(side, a) == side_total(side, b),
    decreases side.len(),
{
    if side.len() > 0 {
        lemma_total_frame(side.drop_last(), a, b);
        assert(a[side.last().level_id.0 as int].size == b[side.last().level_id.0 as int].size);
    }
}

proof fn lemma_total_insert(side: Seq<PriceLevel>, k: int, e: PriceLevel, levels: Seq<Level>)
    requires
        0 <= k <= side.len(),
    ensures
        side_total(side.insert(k, e), levels) == side_total(side, levels)
            + levels[e.level_id.0 as int].size.0,
    decreases side.len(),
{
    side.insert_ensures(k, e);
    if k == side.len() {
        assert(side.insert(k, e).drop_last() =~= side);
    } else {
        let d = side.drop_last();
        assert(side.insert(k, e).drop_last() =~= d.insert(k, e));
        lemma_total_insert(d, k, e, levels);
    }
}

proof fn lemma_total_remove(side: Seq<PriceLevel>, k: int, levels: Seq<Level>)
    requires
        0 <= k < side.len(),
    ensures
        side_total(side.remove(k), levels) + levels[side[k].level_id.0 as int].size.0
            == side_total(side, levels),
    decreases side.len(),
{
    side.remove_ensures(k);
    if k == side.len() - 1 {
        assert(side.remove(k) =~= side.drop_last());
    } else {
        let d = side.drop_last();
        assert(side.remove(k).drop_last() =~= d.remove(k));
        lemma_total_remove(d, k, levels);
    }
}

/// Changing the record of a level that the side names at `k` alone moves the
/// total by the change of its size.
proof fn lemma_total_update(side: Seq<PriceLevel>, k: int, levels: Seq<Level>, lv: Level)
    requires
        0 <= k < side.len(),
        forall|j: int| 0 <= j < side.len() && j != k ==> #[trigger] side[j].level_id != side[k].level_id,
        forall|j: int| 0 <= j < side.len() ==> (#[trigger] side[j].level_id.0 as int) < levels.len(),
    ensures
        side_total(side, levels.update(side[k].level_id.0 as int, lv)) + levels[side[k].level_id.0 as int].size.0
            == side_total(side, levels) + lv.size.0,
{
    let lid = side[k].level_id.0 as int;
    let upd = levels.update(lid, lv);
    lemma_total_remove(side, k, levels);
    lemma_total_remove(side, k, upd);
    side.remove_ensures(k);
    let r = side.remove(k);
    assert forall|j: int| 0 <= j < r.len() implies #[trigger] upd[r[j].level_id.0 as int].size
        == levels[r[j].level_id.0 as int].size by {
        if j < k {
            assert(r[j] == side[j]);
        } else {
            assert(r[j] == side[j + 1]);
        }
    }
    lemma_total_frame(r, upd, levels);
}

/// A strictly decreasing run of prices within `[lo, hi]` has at most
/// `hi - lo + 1` entries.
proof fn lemma_sorted_len(side: Seq<PriceLevel>, lo: int, hi: int)
    requires
        side_sorted(side),
        lo <= hi + 1,
        forall|k: int| 0 <= k < side.len() ==> lo <= #[trigger] side[k].price.0 <= hi,
    ensures
        side.len() <= hi - lo + 1,
    decreases side.len(),
{
    if side.len() > 0 {
        let rest = side.subrange(1, side.len() as int);
        assert forall|k: int| 0 <= k < rest.len() implies lo <= #[trigger] rest[k].price.0 <= side[0].price.0 - 1 by {
            assert(rest[k] == side[k + 1]);
        }
        lemma_sorted_len(rest, lo, side[0].price.0 - 1);
    }
}

proof fn lemma_holds_insert(side: Seq<PriceLevel>, k: int, e: PriceLevel)
    requires
        0 <= k <= side.len(),
    ensures
        forall|l: u32| #[trigger] side_holds(side.insert(k, e), l) <==> (side_holds(side, l) || l == e.level_id.0),
{
    side.insert_ensures(k, e);
    let s = side.insert(k, e);
    assert forall|l: u32| #[trigger] side_holds(s, l) <==> (side_holds(side, l) || l == e.level_id.0) by {
        if side_holds(s, l) {
            let j = choose|j: int| 0 <= j < s.len() && s[j].level_id.0 == l;
            if j < k {
                assert(side[j] == s[j]);
            } else if j > k {
                assert(side[j - 1] == s[j]);
            }
        }
        if side_holds(side, l) {
            let j = choose|j: int| 0 <= j < side.len() && side[j].level_id.0 == l;
            if j < k {
                assert(side[j] == s[j]);
            } else {
                assert(side[j] == s[j + 1]);
            }
        }
        if l == e.level_id.0 {
            assert(s[k] == e);
        }
    }
}

proof fn lemma_holds_remove(side: Seq<PriceLevel>, k: int)
    requires
        0 <= k < side.len(),
        forall|j: int| 0 <= j < side.len() && j != k ==> #[trigger] side[j].level_id != side[k].level_id,
    ensures
        forall|l: u32| #[trigger] side_holds(side.remove(k), l) <==> (side_holds(side, l) && l != side[k].level_id.0),
{
    side.remove_ensures(k);
    let s = side.remove(k);
    assert forall|l: u32| #[trigger] side_holds(s, l) <==> (side_holds(side, l) && l != side[k].level_id.0) by {
        if side_holds(s, l) {
            let j = choose|j: int| 0 <= j < s.len() && s[j].level_id.0 == l;
            if j < k {
                assert(side[j] == s[j]);
            } else {
                assert(side[j + 1] == s[j]);
            }
        }
        if side_holds(side, l) && l != side[k].level_id.0 {
            let j = choose|j: int| 0 <= j < side.len() && side[j].level_id.0 == l;
            if j < k {
                assert(side[j] == s[j]);
            } else {
                assert(j != k);
                assert(side[j] == s[j - 1]);
            }
        }
    }
}

impl OrderBook {
    /// No two handles name the same level.
    pub proof fn lemma_handles_distinct(self)
        requires
            self.wf(),
        ensures
            forall|i: int, j: int|
                0 <= i < self.bids@.len() && 0 <= j < self.bids@.len() && i != j
                    ==> #[trigger] self.bids@[i].level_id != #[trigger] self.bids@[j].level_id,
            forall|i: int, j: int|
                0 <= i < self.asks@.len() && 0 <= j < self.asks@.len() && i != j
                    ==> #[trigger] self.asks@[i].level_id != #[trigger] self.asks@[j].level_id,
            forall|i: int, j: int|
                0 <= i < self.bids@.len() && 0 <= j < self.asks@.len()
                    ==> #[trigger] self.bids@[i].level_id != #[trigger] self.asks@[j].level_id,
    {
        assert forall|i: int, j: int|
            0 <= i < self.bids@.len() && 0 <= j < self.bids@.len() && i != j
                implies #[trigger] self.bids@[i].level_id != #[trigger] self.bids@[j].level_id by {
            assert(self.bid_ok(self.bids@[i]) && self.bid_ok(self.bids@[j]));
            if i < j {
                assert(self.bids@[i].price.0 > self.bids@[j].price.0);
            } else {
                assert(self.bids@[j].price.0 > self.bids@[i].price.0);
            }
        }
        assert forall|i: int, j: int|
            0 <= i < self.asks@.len() && 0 <= j < self.asks@.len() && i != j
                implies #[trigger] self.asks@[i].level_id != #[trigger] self.asks@[j].level_id by {
            assert(self.ask_ok(self.asks@[i]) && self.ask_ok(self.asks@[j]));
            if i < j {
                assert(self.asks@[i].price.0 > self.asks@[j].price.0);
            } else {
                assert(self.asks@[j].price.0 > self.asks@[i].price.0);
            }
        }
        assert forall|i: int, j: int|
            0 <= i < self.bids@.len() && 0 <= j < self.asks@.len()
                implies #[trigger] self.bids@[i].level_id != #[trigger] self.asks@[j].level_id by {
            assert(self.bid_ok(self.bids@[i]) && self.ask_ok(self.asks@[j]));
            assert(self.bids@[i].price.0 > 0 && self.asks@[j].price.0 <= 0);
        }
    }

    /// A linked level sits on the side of its sign, at the handle of its price.
    pub proof fn lemma_linked_on_side(self, lid: u32)
        requires
            self.wf(),
            self.linked(lid),
        ensures
            (lid as int) < self.levels().len(),
            self.level(lid).size.0 > 0,
            side_holds(self.side_of(self.level(lid).price.0), lid),
            self.level(lid).price.0 > i32::MIN,
            forall|k: int|
                0 <= k < self.side_of(self.level(lid).price.0).len() && #[trigger] self.side_of(
                    self.level(lid).price.0,
                )[k].price == self.level(lid).price ==> self.side_of(
                    self.level(lid).price.0,
                )[k].level_id.0 == lid,
    {
        self.lemma_handles_distinct();
        if side_holds(self.bids@, lid) {
            let j = choose|j: int| 0 <= j < self.bids@.len() && self.bids@[j].level_id.0 == lid;
            assert(self.bid_ok(self.bids@[j]));
            assert forall|k: int|
                0 <= k < self.bids@.len() && #[trigger] self.bids@[k].price == self.level(lid).price
                    implies self.bids@[k].level_id.0 == lid by {
                if k < j {
                    assert(self.bids@[k].price.0 > self.bids@[j].price.0);
                } else if k > j {
                    assert(self.bids@[j].price.0 > self.bids@[k].price.0);
                }
            }
        } else {
            let j = choose|j: int| 0 <= j < self.asks@.len() && self.asks@[j].level_id.0 == lid;
            assert(self.ask_ok(self.asks@[j]));
            assert forall|k: int|
                0 <= k < self.asks@.len() && #[trigger] self.asks@[k].price == self.level(lid).price
                    implies self.asks@[k].level_id.0 == lid by {
                if k < j {
                    assert(self.asks@[k].price.0 > self.asks@[j].price.0);
                } else if k > j {
                    assert(self.asks@[j].price.0 > self.asks@[k].price.0);
                }
            }
        }
    }

    pub fn new() -> (r: OrderBook)
        ensures
            r.wf(),
            r.bids@.len() == 0,
            r.asks@.len() == 0,
    {
        OrderBook { level_pool: LevelPool::new(), bids: Vec::new(), asks: Vec::new() }
    }

    /// Sets the size of a linked level to another positive value.
    fn resize_level(&mut self, lid: LevelId, size: Qty)
        requires
            old(self).wf(),
            old(self).linked(lid.0),
            size.0 > 0,
        ensures
            final(self).wf(),
            final(self).linked(lid.0),
            final(self).level(lid.0) == (Level { size, ..old(self).level(lid.0) }),
            old(self).same_except(*final(self), lid.0),
            final(self).free_ids() == old(self).free_ids(),
            final(self).bids@ == old(self).bids@,
            final(self).asks@ == old(self).asks@,
            final(self).total(old(self).level(lid.0).price.0 > 0) + old(self).level(lid.0).size.0
                == old(self).total(old(self).level(lid.0).price.0 > 0) + size.0,
            final(self).total(!(old(self).level(lid.0).price.0 > 0)) == old(self).total(
                !(old(self).level(lid.0).price.0 > 0),
            ),
    {
        proof {
            self.lemma_linked_on_side(lid.0);
            self.lemma_handles_distinct();
        }
        let ghost pre = *self;
        let lv = *self.level_pool.get(lid).unwrap();
        self.level_pool.set_level(lid, Level::new(lv.price, size));
        proof {
            let upd = pre.levels().update(lid.0 as int, Level { size, ..lv });
            assert(self.levels() == upd);
            assert forall|k: int| 0 <= k < self.bids@.len() implies self.bid_ok(#[trigger] self.bids@[k]) by {
                assert(pre.bid_ok(pre.bids@[k]));
            }
            assert forall|k: int| 0 <= k < self.asks@.len() implies self.ask_ok(#[trigger] self.asks@[k]) by {
                assert(pre.ask_ok(pre.asks@[k]));
            }
            assert forall|k: int| 0 <= k < self.free_ids().len() implies (#[trigger] self.free_ids()[k].0 as int)
                < self.levels().len() && !self.linked(self.free_ids()[k].0) by {
                assert(!pre.linked(pre.free_ids()[k].0));
            }
            let bid = lv.price.0 > 0;
            let side = pre.side_of(lv.price.0);
            let k = choose|k: int| 0 <= k < side.len() && side[k].level_id.0 == lid.0;
            assert forall|j: int| 0 <= j < side.len() implies (#[trigger] side[j].level_id.0 as int) < pre.levels().len() by {
                if bid {
                    assert(pre.bid_ok(pre.bids@[j]));
                } else {
                    assert(pre.ask_ok(pre.asks@[j]));
                }
            }
            lemma_total_update(side, k, pre.levels(), Level { size, ..lv });
            let other = if bid { pre.asks@ } else { pre.bids@ };
            assert forall|j: int| 0 <= j < other.len() implies #[trigger] upd[other[j].level_id.0 as int].size
                == pre.levels()[other[j].level_id.0 as int].size by {
                if bid {
                    assert(pre.ask_ok(pre.asks@[j]));
                    assert(pre.asks@[j].level_id != pre.bids@[k].level_id);
                } else {
                    assert(pre.bid_ok(pre.bids@[j]));
                    assert(pre.bids@[j].level_id != pre.asks@[k].level_id);
                }
            }
            lemma_total_frame(other, upd, pre.levels());
        }
    }
}

impl OrderBook {
    /// Rests `qty` at `price`: the level of that price on the side of its sign
    /// grows, or a new level is allocated and linked at its sorted position.
    /// The order is pointed at that level.
    pub fn add_order(&mut self, order: &mut Order, price: Price, qty: Qty)
        requires
            old(self).wf(),
            qty.0 > 0,
            price.0 > i32::MIN,
            price.0 != 0,
            forall|l: u32|
                old(self).linked(l) && #[trigger] old(self).level(l).price == price ==> old(self).level(
                    l,
                ).size.0 + qty.0 <= u32::MAX,
        ensures
            final(self).wf(),
            *final(order) == (Order { level_id: final(order).level_id, ..*old(order) }),
            final(self).linked(final(order).level_id.0),
            final(self).level(final(order).level_id.0).price == price,
            old(self).linked(final(order).level_id.0) ==> {
                &&& old(self).level(final(order).level_id.0).price == price
                &&& final(self).level(final(order).level_id.0).size.0 == old(self).level(
                    final(order).level_id.0,
                ).size.0 + qty.0
            },
            !old(self).linked(final(order).level_id.0) ==> {
                &&& final(self).level(final(order).level_id.0).size == qty
                &&& forall|l: u32| old(self).linked(l) ==> #[trigger] old(self).level(l).price != price
            },
            old(self).same_except(*final(self), final(order).level_id.0),
            final(self).total(price.0 > 0) == old(self).total(price.0 > 0) + qty.0,
            final(self).total(!(price.0 > 0)) == old(self).total(!(price.0 > 0)),
            price.0 > 0 ==> final(self).asks@ == old(self).asks@,
            price.0 <= 0 ==> final(self).bids@ == old(self).bids@,
            old(self).linked(final(order).level_id.0) ==> final(self).side_of(price.0) == old(
                self,
            ).side_of(price.0),
            !old(self).linked(final(order).level_id.0) ==> exists|k: int|
                0 <= k <= old(self).side_of(price.0).len() && #[trigger] final(self).side_of(price.0)
                    == old(self).side_of(price.0).insert(
                    k,
                    PriceLevel { level_id: final(order).level_id, price },
                ),
    {
        let is_bid = price.0 > 0;
        let k = if is_bid {
            find_slot(&self.bids, price.0)
        } else {
            find_slot(&self.asks, price.0)
        };
        let found = if is_bid {
            k < self.bids.len() && self.bids[k].price.0 == price.0
        } else {
            k < self.asks.len() && self.asks[k].price.0 == price.0
        };
        let ghost pre = *self;
        proof {
            pre.lemma_handles_distinct();
        }
        if found {
            let lid = if is_bid {
                self.bids[k].level_id
            } else {
                self.asks[k].level_id
            };
            proof {
                let side = pre.side_of(price.0);
                if is_bid {
                    assert(pre.bid_ok(side[k as int]));
                } else {
                    assert(pre.ask_ok(side[k as int]));
                }
                assert(pre.linked(lid.0));
                assert(pre.level(lid.0).price == price);
            }
            let lv = *self.level_pool.get(lid).unwrap();
            self.resize_level(lid, Qty(lv.size.0 + qty.0));
            order.level_id = lid;
        } else {
            proof {
                if pre.free_ids().len() == 0 {
                    lemma_sorted_len(pre.bids@, 1, 0x7fff_ffff);
                    lemma_sorted_len(pre.asks@, -0x7fff_ffff, -1);
                }
            }
            let lid = self.level_pool.allocate();
            proof {
                assert(!pre.linked(lid.0)) by {
                    if pre.free_ids().len() > 0 {
                        assert(pre.free_ids()[pre.free_ids().len() - 1] == lid);
                    } else {
                        if side_holds(pre.bids@, lid.0) {
                            let j = choose|j: int| 0 <= j < pre.bids@.len() && pre.bids@[j].level_id.0 == lid.0;
                            assert(pre.bid_ok(pre.bids@[j]));
                        }
                        if side_holds(pre.asks@, lid.0) {
                            let j = choose|j: int| 0 <= j < pre.asks@.len() && pre.asks@[j].level_id.0 == lid.0;
                            assert(pre.ask_ok(pre.asks@[j]));
                        }
                    }
                }
            }
            let ghost mid = *self;
            self.level_pool.set_level(lid, Level::new(price, qty));
            let e = PriceLevel { level_id: lid, price };
            let ghost before_insert = *self;
            if is_bid {
                self.bids.insert(k, e);
            } else {
                self.asks.insert(k, e);
            }
            order.level_id = lid;
            proof {
                let lv = Level { price, size: qty };
                let upd = mid.levels().update(lid.0 as int, lv);
                assert((lid.0 as int) < mid.levels().len());
                assert(self.levels() == upd);
                let side = pre.side_of(price.0);
                let other = if is_bid { pre.asks@ } else { pre.bids@ };
                assert forall|i: int| k <= i < side.len() implies #[trigger] side[i].price.0 < price.0 by {
                    assert(side[i].price.0 != price.0);
                }
                lemma_insert_sorted(side, k as int, e);
                lemma_holds_insert(side, k as int, e);
                // old handles keep their records
                assert forall|l: u32| pre.linked(l) implies (l as int) < pre.levels().len() && #[trigger] self.level(l) == pre.level(l) by {
                    if side_holds(pre.bids@, l) {
                        let j = choose|j: int| 0 <= j < pre.bids@.len() && pre.bids@[j].level_id.0 == l;
                        assert(pre.bid_ok(pre.bids@[j]));
                    } else {
                        let j = choose|j: int| 0 <= j < pre.asks@.len() && pre.asks@[j].level_id.0 == l;
                        assert(pre.ask_ok(pre.asks@[j]));
                    }
                }
                let ns = side.insert(k as int, e);
                side.insert_ensures(k as int, e);
                assert forall|j: int| 0 <= j < self.bids@.len() implies self.bid_ok(#[trigger] self.bids@[j]) by {
                    if is_bid {
                        if j < k {
                            assert(self.bids@[j] == pre.bids@[j]);
                            assert(pre.bid_ok(pre.bids@[j]));
                            assert(pre.linked(pre.bids@[j].level_id.0));
                        } else if j > k {
                            assert(self.bids@[j] == pre.bids@[j - 1]);
                            assert(pre.bid_ok(pre.bids@[j - 1]));
                            assert(pre.linked(pre.bids@[j - 1].level_id.0));
                        }
                    } else {
                        assert(pre.bid_ok(pre.bids@[j]));
                        assert(pre.linked(pre.bids@[j].level_id.0));
                    }
                }
                assert forall|j: int| 0 <= j < self.asks@.len() implies self.ask_ok(#[trigger] self.asks@[j]) by {
                    if !is_bid {
                        if j < k {
                            assert(self.asks@[j] == pre.asks@[j]);
                            assert(pre.ask_ok(pre.asks@[j]));
                            assert(pre.linked(pre.asks@[j].level_id.0));
                        } else if j > k {
                            assert(self.asks@[j] == pre.asks@[j - 1]);
                            assert(pre.ask_ok(pre.asks@[j - 1]));
                            assert(pre.linked(pre.asks@[j - 1].level_id.0));
                        }
                    } else {
                        assert(pre.ask_ok(pre.asks@[j]));
                        assert(pre.linked(pre.asks@[j].level_id.0));
                    }
                }
                assert forall|j: int| 0 <= j < self.free_ids().len() implies (#[trigger] self.free_ids()[j].0 as int)
                    < self.levels().len() && !self.linked(self.free_ids()[j].0) by {
                    assert(self.free_ids()[j] == pre.free_ids()[j]);
                    assert(!pre.linked(pre.free_ids()[j].0));
                    if pre.free_ids().len() > 0 {
                        assert(pre.free_ids()[j] != pre.free_ids()[pre.free_ids().len() - 1]);
                    }
                }
                // totals
                assert forall|j: int| 0 <= j < side.len() implies #[trigger] upd[side[j].level_id.0 as int].size
                    == pre.levels()[side[j].level_id.0 as int].size by {
                    assert(pre.linked(side[j].level_id.0));
                    assert(self.level(side[j].level_id.0) == pre.level(side[j].level_id.0));
                }
                lemma_total_frame(side, upd, pre.levels());
                lemma_total_insert(side, k as int, e, upd);
                assert forall|j: int| 0 <= j < other.len() implies #[trigger] upd[other[j].level_id.0 as int].size
                    == pre.levels()[other[j].level_id.0 as int].size by {
                    assert(pre.linked(other[j].level_id.0));
                    assert(self.level(other[j].level_id.0) == pre.level(other[j].level_id.0));
                }
                lemma_total_frame(other, upd, pre.levels());
                assert forall|l: u32| pre.linked(l) implies #[trigger] pre.level(l).price != price by {
                    if side_holds(pre.bids@, l) {
                        let j = choose|j: int| 0 <= j < pre.bids@.len() && pre.bids@[j].level_id.0 == l;
                        assert(pre.bid_ok(pre.bids@[j]));
                        if is_bid {
                            assert(side[j].price.0 != price.0);
                        }
                    } else {
                        let j = choose|j: int| 0 <= j < pre.asks@.len() && pre.asks@[j].level_id.0 == l;
                        assert(pre.ask_ok(pre.asks@[j]));
                        if !is_bid {
                            assert(side[j].price.0 != price.0);
                        }
                    }
                }
            }
        }
    }
}

impl OrderBook {
    /// Takes the order's quantity off its level; a level left empty is
    /// unlinked and its id returned to the pool.
    pub fn remove_order(&mut self, order: &Order)
        requires
            old(self).wf(),
            old(self).linked(order.level_id.0),
            old(self).level(order.level_id.0).size.0 >= order.qty.0,
        ensures
            final(self).wf(),
            old(self).level(order.level_id.0).size.0 == order.qty.0 ==> {
                let p = old(self).level(order.level_id.0).price.0;
                &&& !final(self).linked(order.level_id.0)
                &&& final(self).free_ids() == old(self).free_ids().push(order.level_id)
                &&& exists|k: int|
                    0 <= k < old(self).side_of(p).len() && old(self).side_of(p)[k].level_id
                        == order.level_id && #[trigger] final(self).side_of(p) == old(self).side_of(
                        p,
                    ).remove(k)
                &&& p > 0 ==> final(self).asks@ == old(self).asks@
                &&& p <= 0 ==> final(self).bids@ == old(self).bids@
            },
            old(self).level(order.level_id.0).size.0 > order.qty.0 ==> {
                &&& final(self).bids@ == old(self).bids@
                &&& final(self).asks@ == old(self).asks@
                &&& final(self).linked(order.level_id.0)
                &&& final(self).level(order.level_id.0) == (Level {
                    size: Qty((old(self).level(order.level_id.0).size.0 - order.qty.0) as u32),
                    ..old(self).level(order.level_id.0)
                })
            },
            old(self).same_except(*final(self), order.level_id.0),
            final(self).total(old(self).level(order.level_id.0).price.0 > 0) + order.qty.0
                == old(self).total(old(self).level(order.level_id.0).price.0 > 0),
            final(self).total(!(old(self).level(order.level_id.0).price.0 > 0)) == old(self).total(
                !(old(self).level(order.level_id.0).price.0 > 0),
            ),
    {
        let lid = order.level_id;
        proof {
            self.lemma_linked_on_side(lid.0);
        }
        let lv = *self.level_pool.get(lid).unwrap();
        let size = lv.size.0 - order.qty.0;
        if size > 0 {
            self.resize_level(lid, Qty(size));
            return;
        }
        let ghost pre = *self;
        proof {
            pre.lemma_handles_distinct();
        }
        let is_bid = lv.price.0 > 0;
        let k = if is_bid {
            find_slot(&self.bids, lv.price.0)
        } else {
            find_slot(&self.asks, lv.price.0)
        };
        proof {
            let side = pre.side_of(lv.price.0);
            let j = choose|j: int| 0 <= j < side.len() && side[j].level_id.0 == lid.0;
            if is_bid {
                assert(pre.bid_ok(side[j]));
            } else {
                assert(pre.ask_ok(side[j]));
            }
            assert(side_has_price(side, lv.price.0));
            assert(side[k as int].level_id.0 == lid.0);
        }
        self.level_pool.set_level(lid, Level::new(lv.price, Qty(0)));
        if is_bid {
            self.bids.remove(k);
        } else {
            self.asks.remove(k);
        }
        self.level_pool.free(lid);
        proof {
            let side = pre.side_of(lv.price.0);
            let other = if is_bid { pre.asks@ } else { pre.bids@ };
            let z = Level { price: lv.price, size: Qty(0) };
            let upd = pre.levels().update(lid.0 as int, z);
            assert(self.levels() == upd);
            lemma_remove_sorted(side, k as int);
            lemma_holds_remove(side, k as int);
            assert(!side_holds(other, lid.0)) by {
                if side_holds(other, lid.0) {
                    let j = choose|j: int| 0 <= j < other.len() && other[j].level_id.0 == lid.0;
                    if is_bid {
                        assert(pre.asks@[j].level_id != pre.bids@[k as int].level_id);
                    } else {
                        assert(pre.bids@[j].level_id != pre.asks@[k as int].level_id);
                    }
                }
            }
            assert forall|l: u32| pre.linked(l) && l != lid.0 implies (l as int) < pre.levels().len() && #[trigger] self.level(l) == pre.level(l) by {
                if side_holds(pre.bids@, l) {
                    let j = choose|j: int| 0 <= j < pre.bids@.len() && pre.bids@[j].level_id.0 == l;
                    assert(pre.bid_ok(pre.bids@[j]));
                } else {
                    let j = choose|j: int| 0 <= j < pre.asks@.len() && pre.asks@[j].level_id.0 == l;
                    assert(pre.ask_ok(pre.asks@[j]));
                }
            }
            assert forall|j: int| 0 <= j < self.bids@.len() implies self.bid_ok(#[trigger] self.bids@[j]) by {
                if is_bid {
                    if j < k {
                        assert(self.bids@[j] == pre.bids@[j]);
                        assert(pre.bid_ok(pre.bids@[j]));
                        assert(pre.linked(pre.bids@[j].level_id.0));
                    } else {
                        assert(self.bids@[j] == pre.bids@[j + 1]);
                        assert(pre.bid_ok(pre.bids@[j + 1]));
                        assert(pre.linked(pre.bids@[j + 1].level_id.0));
                    }
                } else {
                    assert(pre.bid_ok(pre.bids@[j]));
                    assert(pre.linked(pre.bids@[j].level_id.0));
                }
            }
            assert forall|j: int| 0 <= j < self.asks@.len() implies self.ask_ok(#[trigger] self.asks@[j]) by {
                if !is_bid {
                    if j < k {
                        assert(self.asks@[j] == pre.asks@[j]);
                        assert(pre.ask_ok(pre.asks@[j]));
                        assert(pre.linked(pre.asks@[j].level_id.0));
                    } else {
                        assert(self.asks@[j] == pre.asks@[j + 1]);
                        assert(pre.ask_ok(pre.asks@[j + 1]));
                        assert(pre.linked(pre.asks@[j + 1].level_id.0));
                    }
                } else {
                    assert(pre.ask_ok(pre.asks@[j]));
                    assert(pre.linked(pre.asks@[j].level_id.0));
                }
            }
            assert forall|j: int| 0 <= j < self.free_ids().len() implies (#[trigger] self.free_ids()[j].0 as int)
                < self.levels().len() && !self.linked(self.free_ids()[j].0) by {
                if j < pre.free_ids().len() {
                    assert(self.free_ids()[j] == pre.free_ids()[j]);
                    assert(!pre.linked(pre.free_ids()[j].0));
                }
            }
            assert forall|i: int, j: int| 0 <= i < j < self.free_ids().len() implies self.free_ids()[i] != self.free_ids()[j] by {
                if j == pre.free_ids().len() {
                    assert(!pre.linked(pre.free_ids()[i].0));
                }
            }
            // totals
            assert forall|j: int| 0 <= j < side.len() implies (#[trigger] side[j].level_id.0 as int) < pre.levels().len() by {
                if is_bid {
                    assert(pre.bid_ok(pre.bids@[j]));
                } else {
                    assert(pre.ask_ok(pre.asks@[j]));
                }
            }
            if is_bid {
                assert forall|j: int| 0 <= j < side.len() && j != k implies #[trigger] side[j].level_id != side[k as int].level_id by {}
            } else {
                assert forall|j: int| 0 <= j < side.len() && j != k implies #[trigger] side[j].level_id != side[k as int].level_id by {}
            }
            lemma_total_update(side, k as int, pre.levels(), z);
            lemma_total_remove(side, k as int, upd);
            assert forall|j: int| 0 <= j < other.len() implies #[trigger] upd[other[j].level_id.0 as int].size
                == pre.levels()[other[j].level_id.0 as int].size by {
                assert(pre.linked(other[j].level_id.0));
                assert(other[j].level_id.0 != lid.0);
            }
            lemma_total_frame(other, upd, pre.levels());
        }
    }

    /// Takes `qty` off the level of an order that keeps resting.
    pub fn reduce_order(&mut self, order: &Order, qty: Qty)
        requires
            old(self).wf(),
            old(self).linked(order.level_id.0),
            order.qty.0 > qty.0,
            old(self).level(order.level_id.0).size.0 >= order.qty.0,
        ensures
            final(self).wf(),
            final(self).linked(order.level_id.0),
            final(self).level(order.level_id.0) == (Level {
                size: Qty((old(self).level(order.level_id.0).size.0 - qty.0) as u32),
                ..old(self).level(order.level_id.0)
            }),
            old(self).same_except(*final(self), order.level_id.0),
            final(self).free_ids() == old(self).free_ids(),
            final(self).bids@ == old(self).bids@,
            final(self).asks@ == old(self).asks@,
            final(self).total(old(self).level(order.level_id.0).price.0 > 0) + qty.0 == old(
                self,
            ).total(old(self).level(order.level_id.0).price.0 > 0),
            final(self).total(!(old(self).level(order.level_id.0).price.0 > 0)) == old(self).total(
                !(old(self).level(order.level_id.0).price.0 > 0),
            ),
    {
        proof {
            self.lemma_linked_on_side(order.level_id.0);
        }
        let lv = *self.level_pool.get(order.level_id).unwrap();
        self.resize_level(order.level_id, Qty(lv.size.0 - qty.0));
    }

    /// The price at the head of the bid side.
    #[inline]
    pub fn get_best_bid(&self) -> (r: Option<Price>)
        ensures
            r == self.best_bid(),
    {
        if self.bids.len() > 0 {
            Some(self.bids[0].price)
        } else {
            None
        }
    }

    /// The price at the head of the ask side.
    #[inline]
    pub fn get_best_ask(&self) -> (r: Option<Price>)
        ensures
            r == self.best_ask(),
    {
        if self.asks.len() > 0 {
            Some(self.asks[0].price)
        } else {
            None
        }
    }

    /// The level at the head of the bid side.
    #[inline]
    pub fn get_best_bid_level(&self) -> (r: Option<LevelId>)
        ensures
            r == if self.bids@.len() > 0 {
                Some(self.bids@[0].level_id)
            } else {
                None::<LevelId>
            },
    {
        if self.bids.len() > 0 {
            Some(self.bids[0].level_id)
        } else {
            None
        }
    }

    /// The level at the head of the ask side.
    #[inline]
    pub fn get_best_ask_level(&self) -> (r: Option<LevelId>)
        ensures
            r == if self.asks@.len() > 0 {
                Some(self.asks@[0].level_id)
            } else {
                None::<LevelId>
            },
    {
        if self.asks.len() > 0 {
            Some(self.asks[0].level_id)
        } else {
            None
        }
    }
}

impl OrderBook {
    /// Whether `qty` more fits in the level of `price`, if there is one.
    pub fn has_room(&self, price: Price, qty: Qty) -> (r: bool)
        requires
            self.wf(),
        ensures
            r == forall|l: u32|
                self.linked(l) && #[trigger] self.level(l).price == price ==> self.level(l).size.0
                    + qty.0 <= u32::MAX,
    {
        let is_bid = price.0 > 0;
        let k = if is_bid {
            find_slot(&self.bids, price.0)
        } else {
            find_slot(&self.asks, price.0)
        };
        let found = if is_bid {
            k < self.bids.len() && self.bids[k].price.0 == price.0
        } else {
            k < self.asks.len() && self.asks[k].price.0 == price.0
        };
        if !found {
            proof {
                assert forall|l: u32| self.linked(l) implies #[trigger] self.level(l).price != price by {
                    self.lemma_linked_on_side(l);
                    if self.level(l).price == price {
                        let side = self.side_of(price.0);
                        let j = choose|j: int| 0 <= j < side.len() && side[j].level_id.0 == l;
                        if is_bid {
                            assert(self.bid_ok(side[j]));
                        } else {
                            assert(self.ask_ok(side[j]));
                        }
                        assert(side_has_price(side, price.0));
                    }
                }
            }
            return true;
        }
        let lid = if is_bid {
            self.bids[k].level_id
        } else {
            self.asks[k].level_id
        };
        proof {
            if is_bid {
                assert(self.bid_ok(self.bids@[k as int]));
            } else {
                assert(self.ask_ok(self.asks@[k as int]));
            }
            assert(self.linked(lid.0));
            assert forall|l: u32| self.linked(l) && #[trigger] self.level(l).price == price implies l == lid.0 by {
                self.lemma_linked_on_side(l);
            }
        }
        let size = self.level_pool.get(lid).unwrap().size.0;
        size as u64 + qty.0 as u64 <= 0xffff_ffff
    }
}

} // verus!
