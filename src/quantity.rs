use vstd::prelude::*;

verus! {

/// A count of units. Arithmetic on it is done on the inner value, by callers
/// that have shown it cannot overflow or underflow.
#[derive(Debug, Clone, Copy, PartialEq, Eq, Structural, PartialOrd, Ord)]
pub struct Qty(pub u32);

impl Qty {
    #[inline]
    pub fn value(&self) -> (r: u32)
        ensures
            r == self.0,
    {
        self.0
    }

    #[inline]
    pub fn is_empty(&self) -> (r: bool)
        ensures
            r == (self.0 == 0),
    {
        self.0 == 0
    }
}

} // verus!
