use vstd::prelude::*;
use std::collections::hash_map::DefaultHasher;
use std::hash::Hasher;
use vstd::std_specs::hash::DefaultHasherAdditionalSpecFns;
use crate::order_intake::OrderIntakeError;

verus! {

/// The 64-bit hash of a name: its UTF-8 bytes written once into a fresh
/// `DefaultHasher`.
pub open spec fn name_hash(name: Seq<char>) -> u64 {
    DefaultHasher::spec_finish(seq![vstd::utf8::encode_utf8(name)])
}

/// Initial capacity of the order index.
pub const INITIAL_ORDER_COUNT: usize = 1048576;
/// Number of book slots of a book manager.
pub const MAX_BOOKS: usize = 16384;
/// Initial capacity of a level pool.
pub const MAX_LEVELS: usize = 1048576;

/// Identifier of a book, dense from zero.
#[derive(Debug, Clone, Copy, PartialEq, Eq, Structural, Hash)]
pub struct BookId(pub u32);

impl BookId {
    #[inline]
    pub fn value(&self) -> (r: u32)
        ensures
            r == self.0,
    {
        self.0
    }

    /// The identifier of a book name: the low 32 bits of its hash.
    pub fn from_str(s: &str) -> (r: Result<BookId, OrderIntakeError>)
        ensures
            r == Ok::<BookId, OrderIntakeError>(BookId(name_hash(s@) as u32)),
    {
        let mut hasher = DefaultHasher::new();
        hasher.write(s.as_bytes());
        Ok(BookId::from_hash(hasher.finish()))
    }

    /// The identifier taken from a 64-bit hash of a name: its low 32 bits.
    pub fn from_hash(h: u64) -> (r: BookId)
        ensures
            r.0 == h as u32,
    {
        BookId(h as u32)
    }
}

} // verus!
