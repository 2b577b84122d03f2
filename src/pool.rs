use vstd::prelude::*;
use crate::level::{Level, LevelId};
use crate::price::Price;
use crate::quantity::Qty;

verus! {

/// An arena of level records with a LIFO free-list of retired ids.
pub struct LevelPool {
    pub levels: Vec<Level>,
    pub free_list: Vec<LevelId>,
}

/// The record that a freshly grown slot holds until it is set.
pub open spec fn blank_level() -> Level {
    Level { price: Price(0), size: Qty(0) }
}

impl LevelPool {
    #[inline]
    pub fn new() -> (r: LevelPool)
        ensures
            r.levels@.len() == 0,
            r.free_list@.len() == 0,
    {
        LevelPool { levels: Vec::new(), free_list: Vec::new() }
    }

    pub fn new_with_capacity(capacity: usize) -> (r: LevelPool)
        ensures
            r.levels@.len() == 0,
            r.free_list@.len() == 0,
    {
        LevelPool { levels: Vec::with_capacity(capacity), free_list: Vec::with_capacity(capacity) }
    }

    /// Hands out the most recently freed id, or grows the arena by one slot.
    pub fn allocate(&mut self) -> (r: LevelId)
        requires
            old(self).free_list@.len() > 0 || old(self).levels@.len() <= u32::MAX,
        ensures
            old(self).free_list@.len() > 0 ==> {
                &&& r == old(self).free_list@.last()
                &&& final(self).free_list@ == old(self).free_list@.drop_last()
                &&& final(self).levels@ == old(self).levels@
            },
            old(self).free_list@.len() == 0 ==> {
                &&& r.0 == old(self).levels@.len()
                &&& final(self).levels@ == old(self).levels@.push(blank_level())
                &&& final(self).free_list@ == old(self).free_list@
            },
    {
        match self.free_list.pop() {
            Some(id) => id,
            None => {
                let id = LevelId(self.levels.len() as u32);
                self.levels.push(Level::new(Price(0), Qty(0)));
                id
            },
        }
    }

    /// Returns an id to the free-list; the slot keeps its stale contents.
    pub fn free(&mut self, id: LevelId)
        ensures
            final(self).free_list@ == old(self).free_list@.push(id),
            final(self).levels@ == old(self).levels@,
    {
        self.free_list.push(id);
    }

    #[inline]
    pub fn get(&self, id: LevelId) -> (r: Option<&Level>)
        ensures
            (id.0 as int) < self.levels@.len() ==> r == Some(&self.levels@[id.0 as int]),
            (id.0 as int) >= self.levels@.len() ==> r is None,
    {
        let i = id.0 as usize;
        if i < self.levels.len() {
            Some(&self.levels[i])
        } else {
            None
        }
    }

    pub fn get_mut(&mut self, id: LevelId) -> (r: Option<&mut Level>)
        ensures
            (id.0 as int) < old(self).levels@.len() ==> {
                &&& r is Some
                &&& *r->0 == old(self).levels@[id.0 as int]
                &&& final(self).levels@ == old(self).levels@.update(id.0 as int, *final(r->0))
                &&& final(self).free_list@ == old(self).free_list@
            },
            (id.0 as int) >= old(self).levels@.len() ==> r is None && *final(self) == *old(self),
    {
        let i = id.0 as usize;
        if i < self.levels.len() {
            Some(&mut self.levels[i])
        } else {
            None
        }
    }

    /// Overwrites the record of an id that the arena holds.
    pub fn set_level(&mut self, id: LevelId, level: Level)
        ensures
            (id.0 as int) < old(self).levels@.len() ==> final(self).levels@ == old(
                self,
            ).levels@.update(id.0 as int, level),
            (id.0 as int) >= old(self).levels@.len() ==> final(self).levels@ == old(self).levels@,
            final(self).free_list@ == old(self).free_list@,
    {
        let i = id.0 as usize;
        if i < self.levels.len() {
            self.levels[i] = level;
        }
    }
}

} // verus!
