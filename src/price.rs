use vstd::prelude::*;

verus! {

/// The book-internal price. A bid at external price `p` is stored as `+p`, an
/// ask as `-p`, so that on either side a larger stored value is a better price.
#[derive(Debug, Clone, Copy, PartialEq, Eq, Structural)]
pub struct Price(pub i32);

/// The largest external price that the sign convention can store.
pub const MAX_PRICE: u32 = 0x7fff_ffff;

/// The stored value for external price `p` on the given side.
pub open spec fn signed_price(p: u32, is_bid: bool) -> i32 {
    if is_bid {
        p as i32
    } else {
        (-(p as int)) as i32
    }
}

/// The magnitude of a stored value.
pub open spec fn abs_price(v: i32) -> nat {
    if v < 0 {
        (-v) as nat
    } else {
        v as nat
    }
}

impl Price {
    /// Applies the sign convention to an external price.
    pub fn from_u32(price: u32, is_bid: bool) -> (r: Price)
        requires
            price <= MAX_PRICE,
        ensures
            r.0 == signed_price(price, is_bid),
            abs_price(r.0) == price,
    {
        if is_bid {
            Price(price as i32)
        } else {
            Price(-(price as i32))
        }
    }

    #[inline]
    pub fn value(&self) -> (r: i32)
        ensures
            r == self.0,
    {
        self.0
    }

    /// The external magnitude of the price.
    pub fn absolute(&self) -> (r: u32)
        ensures
            r == abs_price(self.0),
    {
        if self.0 < 0 {
            (-(self.0 as i64)) as u32
        } else {
            self.0 as u32
        }
    }

    /// Whether the stored value is that of a bid.
    #[inline]
    pub fn is_bid(&self) -> (r: bool)
        ensures
            r == (self.0 > 0),
    {
        self.0 > 0
    }
}

} // verus!
