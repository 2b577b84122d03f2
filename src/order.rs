use vstd::prelude::*;
use crate::level::LevelId;
use crate::quantity::Qty;
use crate::utils::{BookId, INITIAL_ORDER_COUNT};

verus! {

/// Identifier of an order, dense from zero; it indexes the order index.
#[derive(Debug, Clone, Copy, PartialEq, Eq, Structural, Hash)]
pub struct OrderId(pub u32);

/// A resting order: its quantity, the level it rests at, its book, and the
/// optional authentication tuple that travels with it to settlement.
#[derive(Debug, Clone, Copy)]
pub struct Order {
    pub level_id: LevelId,
    pub book_id: BookId,
    pub qty: Qty,
    pub trader: Option<[u8; 20]>,
    pub nonce: Option<u64>,
    pub expiry: Option<u64>,
    pub signature: Option<[u8; 65]>,
}

/// Two orders are equal when their level, book and quantity are.
impl PartialEq for Order {
    fn eq(&self, other: &Order) -> (r: bool) {
        self.level_id.0 == other.level_id.0 && self.book_id.0 == other.book_id.0 && self.qty.0
            == other.qty.0
    }
}

impl vstd::std_specs::cmp::PartialEqSpecImpl for Order {
    open spec fn obeys_eq_spec() -> bool {
        true
    }

    open spec fn eq_spec(&self, other: &Order) -> bool {
        self.level_id == other.level_id && self.book_id == other.book_id && self.qty == other.qty
    }
}

impl Order {
    #[inline]
    pub fn new(
        qty: Qty,
        level_id: LevelId,
        book_id: BookId,
        trader: Option<[u8; 20]>,
        nonce: Option<u64>,
        expiry: Option<u64>,
        signature: Option<[u8; 65]>,
    ) -> (r: Order)
        ensures
            r == (Order { level_id, book_id, qty, trader, nonce, expiry, signature }),
    {
        Order { qty, level_id, book_id, trader, nonce, expiry, signature }
    }

    /// Takes the level, book and quantity of `order`; the authentication
    /// fields stay.
    #[inline]
    pub fn replace(&mut self, order: Order)
        ensures
            *final(self) == (Order {
                level_id: order.level_id,
                book_id: order.book_id,
                qty: order.qty,
                ..*old(self)
            }),
    {
        self.level_id = order.level_id;
        self.book_id = order.book_id;
        self.qty = order.qty;
    }

    #[inline]
    pub fn qty(&self) -> (r: Qty)
        ensures
            r == self.qty,
    {
        self.qty
    }

    #[inline]
    pub fn book_id(&self) -> (r: BookId)
        ensures
            r == self.book_id,
    {
        self.book_id
    }

    #[inline]
    pub fn level_id(&self) -> (r: LevelId)
        ensures
            r == self.level_id,
    {
        self.level_id
    }

    #[inline]
    pub fn set_qty(&mut self, qty: Qty)
        ensures
            *final(self) == (Order { qty, ..*old(self) }),
    {
        self.qty = qty;
    }

    #[inline]
    pub fn set_book_id(&mut self, book_id: BookId)
        ensures
            *final(self) == (Order { book_id, ..*old(self) }),
    {
        self.book_id = book_id;
    }

    #[inline]
    pub fn set_level_id(&mut self, level_id: LevelId)
        ensures
            *final(self) == (Order { level_id, ..*old(self) }),
    {
        self.level_id = level_id;
    }

    pub fn trader(&self) -> (r: Option<[u8; 20]>)
        ensures
            r == self.trader,
    {
        self.trader
    }

    pub fn nonce(&self) -> (r: Option<u64>)
        ensures
            r == self.nonce,
    {
        self.nonce
    }

    pub fn expiry(&self) -> (r: Option<u64>)
        ensures
            r == self.expiry,
    {
        self.expiry
    }

    pub fn signature(&self) -> (r: Option<[u8; 65]>)
        ensures
            r == self.signature,
    {
        self.signature
    }
}

/// The entry of the index at `id`, absent beyond its end.
pub open spec fn entry_at(s: Seq<Option<Order>>, id: u32) -> Option<Order> {
    if (id as int) < s.len() {
        s[id as int]
    } else {
        None
    }
}

/// The live entries of `s[..n]`, in index order.
pub open spec fn live_entries(s: Seq<Option<Order>>, n: int) -> Seq<(OrderId, Order)>
    decreases n,
{
    if n <= 0 {
        Seq::empty()
    } else {
        let prefix = live_entries(s, n - 1);
        match s[n - 1] {
            Some(o) => prefix.push((OrderId((n - 1) as u32), o)),
            None => prefix,
        }
    }
}

/// A dense map from order id to order; an absent slot holds `None`.
pub struct OidMap {
    pub data: Vec<Option<Order>>,
}

impl OidMap {
    #[inline]
    pub fn new() -> (r: OidMap)
        ensures
            r.data@.len() == 0,
    {
        OidMap { data: Vec::with_capacity(INITIAL_ORDER_COUNT) }
    }

    /// Grows the backing vector so that it has a slot for `oid`.
    pub fn reserve(&mut self, oid: OrderId)
        ensures
            final(self).data@.len() == if (oid.0 as int) < old(self).data@.len() {
                old(self).data@.len() as int
            } else {
                oid.0 as int + 1
            },
            forall|i: int|
                0 <= i < final(self).data@.len() ==> #[trigger] final(self).data@[i] == if i
                    < old(self).data@.len() {
                    old(self).data@[i]
                } else {
                    None
                },
    {
        let idx = oid.0 as usize;
        while self.data.len() <= idx
            invariant
                old(self).data@.len() <= self.data@.len(),
                self.data@.len() <= old(self).data@.len() || self.data@.len() <= idx + 1,
                forall|i: int|
                    0 <= i < self.data@.len() ==> #[trigger] self.data@[i] == if i < old(
                        self,
                    ).data@.len() {
                        old(self).data@[i]
                    } else {
                        None
                    },
            decreases idx + 1 - self.data@.len(),
        {
            self.data.push(None);
        }
    }

    /// Stores a copy of `value` under `oid`, growing the map if needed.
    #[inline]
    pub fn insert(&mut self, oid: OrderId, value: &Order)
        ensures
            final(self).data@.len() == if (oid.0 as int) < old(self).data@.len() {
                old(self).data@.len() as int
            } else {
                oid.0 as int + 1
            },
            forall|id: u32|
                #[trigger] entry_at(final(self).data@, id) == if id == oid.0 {
                    Some(*value)
                } else {
                    entry_at(old(self).data@, id)
                },
    {
        self.reserve(oid);
        let idx = oid.0 as usize;
        self.data[idx] = Some(*value);
    }

    /// Empties the slot of `oid`.
    #[inline]
    pub fn remove(&mut self, oid: OrderId)
        ensures
            final(self).data@ == if (oid.0 as int) < old(self).data@.len() {
                old(self).data@.update(oid.0 as int, None)
            } else {
                old(self).data@
            },
    {
        let idx = oid.0 as usize;
        if idx < self.data.len() {
            self.data[idx] = None;
        }
    }

    /// Takes `qty` off the quantity of the order under `oid`, if there is one.
    #[inline]
    pub fn update_qty(&mut self, oid: OrderId, qty: Qty)
        requires
            entry_at(old(self).data@, oid.0) matches Some(o) ==> o.qty.0 >= qty.0,
        ensures
            final(self).data@ == match entry_at(old(self).data@, oid.0) {
                Some(o) => old(self).data@.update(
                    oid.0 as int,
                    Some(Order { qty: Qty((o.qty.0 - qty.0) as u32), ..o }),
                ),
                None => old(self).data@,
            },
    {
        let idx = oid.0 as usize;
        if idx < self.data.len() {
            if let Some(order) = self.data[idx] {
                let mut changed = order;
                changed.qty = Qty(order.qty.0 - qty.0);
                self.data[idx] = Some(changed);
            }
        }
    }

    #[inline]
    pub fn get(&self, oid: OrderId) -> (r: Option<&Order>)
        ensures
            r == match entry_at(self.data@, oid.0) {
                Some(o) => Some(&o),
                None => None,
            },
    {
        let idx = oid.0 as usize;
        if idx < self.data.len() {
            match &self.data[idx] {
                Some(o) => Some(o),
                None => None,
            }
        } else {
            None
        }
    }

    #[inline]
    pub fn get_mut(&mut self, oid: OrderId) -> (r: Option<&mut Order>)
        ensures
            entry_at(old(self).data@, oid.0) matches Some(o) ==> {
                &&& r is Some
                &&& *r->0 == o
                &&& final(self).data@ == old(self).data@.update(oid.0 as int, Some(*final(r->0)))
            },
            entry_at(old(self).data@, oid.0) is None ==> r is None && final(self).data@ == old(
                self,
            ).data@,
    {
        let idx = oid.0 as usize;
        if idx < self.data.len() {
            match &mut self.data[idx] {
                Some(o) => Some(o),
                None => None,
            }
        } else {
            None
        }
    }

    /// The live entries, in index order.
    pub fn iter(&self) -> (r: Vec<(OrderId, Order)>)
        requires
            self.data@.len() <= u32::MAX + 1,
        ensures
            r@ == live_entries(self.data@, self.data@.len() as int),
    {
        let mut out: Vec<(OrderId, Order)> = Vec::new();
        let n = self.data.len();
        let mut i: usize = 0;
        while i < n
            invariant
                n == self.data@.len(),
                n <= u32::MAX + 1,
                i <= n,
                out@ == live_entries(self.data@, i as int),
            decreases n - i,
        {
            match self.data[i] {
                Some(o) => {
                    out.push((OrderId(i as u32), o));
                },
                None => {},
            }
            i += 1;
        }
        out
    }
}

/// The quantity that an index entry contributes to a sum over orders selected
/// by `f`.
pub open spec fn share(x: Option<Order>, f: spec_fn(Order) -> bool) -> nat {
    match x {
        Some(o) => if f(o) {
            o.qty.0 as nat
        } else {
            0
        },
        None => 0,
    }
}

/// The total quantity of the live orders of `s` that `f` selects.
pub open spec fn qty_sum(s: Seq<Option<Order>>, f: spec_fn(Order) -> bool) -> nat
    decreases s.len(),
{
    if s.len() == 0 {
        0
    } else {
        qty_sum(s.drop_last(), f) + share(s.last(), f)
    }
}

/// Replacing one entry moves the sum by the change of that entry's share.
pub proof fn lemma_qty_sum_update(s: Seq<Option<Order>>, i: int, v: Option<Order>, f: spec_fn(Order) -> bool)
    requires
        0 <= i < s.len(),
    ensures
        qty_sum(s.update(i, v), f) + share(s[i], f) == qty_sum(s, f) + share(v, f),
    decreases s.len(),
{
    let u = s.update(i, v);
    if i == s.len() - 1 {
        assert(u.drop_last() =~= s.drop_last());
    } else {
        assert(u.drop_last() =~= s.drop_last().update(i, v));
        lemma_qty_sum_update(s.drop_last(), i, v, f);
    }
}

/// Every share is bounded by the sum.
pub proof fn lemma_qty_sum_bound(s: Seq<Option<Order>>, i: int, f: spec_fn(Order) -> bool)
    requires
        0 <= i < s.len(),
    ensures
        share(s[i], f) <= qty_sum(s, f),
    decreases s.len(),
{
    if i < s.len() - 1 {
        lemma_qty_sum_bound(s.drop_last(), i, f);
    }
}

/// A sum with no share is zero.
pub proof fn lemma_qty_sum_zero(s: Seq<Option<Order>>, f: spec_fn(Order) -> bool)
    requires
        forall|i: int| 0 <= i < s.len() ==> share(#[trigger] s[i], f) == 0,
    ensures
        qty_sum(s, f) == 0,
    decreases s.len(),
{
    if s.len() > 0 {
        lemma_qty_sum_zero(s.drop_last(), f);
        assert(share(s[s.len() - 1], f) == 0);
    }
}

/// Absent entries appended to the index change no sum.
pub proof fn lemma_qty_sum_pad(s: Seq<Option<Order>>, t: Seq<Option<Order>>, f: spec_fn(Order) -> bool)
    requires
        s.len() <= t.len(),
        forall|i: int| 0 <= i < t.len() ==> #[trigger] t[i] == if i < s.len() {
            s[i]
        } else {
            None
        },
    ensures
        qty_sum(t, f) == qty_sum(s, f),
    decreases t.len(),
{
    if t.len() == s.len() {
        assert(t =~= s);
    } else {
        lemma_qty_sum_pad(s, t.drop_last(), f);
    }
}

} // verus!
