use vstd::prelude::*;
use crate::price::Price;
use crate::quantity::Qty;

verus! {

/// Index of a level in the pool of one book.
#[derive(Debug, Clone, Copy, PartialEq, Eq, Structural)]
pub struct LevelId(pub u32);

/// The aggregate of all resting orders at one price on one side of a book.
#[derive(Debug, Clone, Copy, PartialEq, Eq, Structural)]
pub struct Level {
    pub price: Price,
    pub size: Qty,
}

impl Level {
    pub fn new(price: Price, size: Qty) -> (r: Level)
        ensures
            r.price == price,
            r.size == size,
    {
        Level { price, size }
    }

    #[inline]
    pub fn price(&self) -> (r: Price)
        ensures
            r == self.price,
    {
        self.price
    }

    #[inline]
    pub fn size(&self) -> (r: Qty)
        ensures
            r == self.size,
    {
        self.size
    }
}

/// An entry of a side sequence: a level handle beside its price, so that the
/// sequence can be searched without reading the pool.
#[derive(Debug, Clone, Copy, PartialEq, Eq, Structural)]
pub struct PriceLevel {
    pub level_id: LevelId,
    pub price: Price,
}

impl PriceLevel {
    #[inline]
    pub fn level_id(&self) -> (r: LevelId)
        ensures
            r == self.level_id,
    {
        self.level_id
    }

    #[inline]
    pub fn price(&self) -> (r: Price)
        ensures
            r == self.price,
    {
        self.price
    }
}

} // verus!
