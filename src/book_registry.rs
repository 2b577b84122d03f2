use vstd::prelude::*;
use std::collections::hash_map::DefaultHasher;
use std::hash::Hasher;
use crate::utils::{name_hash, BookId};

verus! {

/// Why a registry request failed.
#[derive(Debug, Clone, Copy, PartialEq, Eq, Structural)]
pub enum BookRegistryError {
    BookAlreadyExists,
    BookNotFound,
    InvalidBookId,
}

/// The id registered for `name` among `entries` (the latest entry wins).
pub open spec fn lookup(entries: Seq<(String, BookId)>, name: Seq<char>) -> Option<BookId>
    decreases entries.len(),
{
    if entries.len() == 0 {
        None
    } else if entries.last().0@ == name {
        Some(entries.last().1)
    } else {
        lookup(entries.drop_last(), name)
    }
}

/// Maps book names to book ids; the id of a name is derived from its hash.
pub struct BookRegistry {
    pub books: Vec<(String, BookId)>,
}

/// Whether `name` is registered among `entries`.
pub open spec fn registered(entries: Seq<(String, BookId)>, name: Seq<char>) -> bool {
    exists|i: int| 0 <= i < entries.len() && (#[trigger] entries[i]).0@ == name
}

proof fn lemma_lookup_registered(entries: Seq<(String, BookId)>, name: Seq<char>)
    ensures
        lookup(entries, name) is Some <==> registered(entries, name),
    decreases entries.len(),
{
    if entries.len() > 0 {
        let d = entries.drop_last();
        lemma_lookup_registered(d, name);
        if registered(entries, name) && entries.last().0@ != name {
            let i = choose|i: int| 0 <= i < entries.len() && (#[trigger] entries[i]).0@ == name;
            assert(d[i] == entries[i]);
        }
        if registered(d, name) {
            let i = choose|i: int| 0 <= i < d.len() && (#[trigger] d[i]).0@ == name;
            assert(d[i] == entries[i]);
        }
    }
}

impl BookRegistry {
    /// Each name is registered at most once.
    pub open spec fn wf(self) -> bool {
        forall|i: int, j: int|
            0 <= i < j < self.books@.len() ==> (#[trigger] self.books@[i]).0@ != (
            #[trigger] self.books@[j]).0@
    }

    /// The id registered for `name`, if any.
    pub open spec fn id_of(self, name: Seq<char>) -> Option<BookId> {
        lookup(self.books@, name)
    }

    /// The registered names, in order of registration.
    pub open spec fn names(self) -> Seq<Seq<char>> {
        self.books@.map_values(|e: (String, BookId)| e.0@)
    }

    pub fn new() -> (r: BookRegistry)
        ensures
            r.wf(),
            forall|n: Seq<char>| #[trigger] r.id_of(n) is None,
            r.names().len() == 0,
    {
        BookRegistry { books: Vec::new() }
    }

    fn find(&self, name: &String) -> (r: Option<BookId>)
        ensures
            r == self.id_of(name@),
    {
        let mut i: usize = self.books.len();
        proof {
            assert(self.books@.subrange(0, i as int) =~= self.books@);
        }
        while i > 0
            invariant
                i <= self.books@.len(),
                lookup(self.books@.subrange(0, i as int), name@) == self.id_of(name@),
            decreases i,
        {
            proof {
                assert(self.books@.subrange(0, i as int).drop_last() =~= self.books@.subrange(
                    0,
                    i - 1,
                ));
            }
            if self.books[i - 1].0 == *name {
                return Some(self.books[i - 1].1);
            }
            i -= 1;
        }
        None
    }

    /// Registers a new name under the low 32 bits of its hash; a name that
    /// is already registered is refused.
    pub fn register_book(&mut self, book_name: String) -> (r: Result<BookId, BookRegistryError>)
        requires
            old(self).wf(),
        ensures
            final(self).wf(),
            old(self).id_of(book_name@) is Some ==> r == Err::<BookId, BookRegistryError>(
                BookRegistryError::BookAlreadyExists,
            ) && final(self).books@ == old(self).books@,
            old(self).id_of(book_name@) is None ==> {
                &&& r == Ok::<BookId, BookRegistryError>(BookId(name_hash(book_name@) as u32))
                &&& final(self).id_of(book_name@) == Some(BookId(name_hash(book_name@) as u32))
                &&& forall|n: Seq<char>|
                    n != book_name@ ==> #[trigger] final(self).id_of(n) == old(self).id_of(n)
                &&& final(self).names() == old(self).names().push(book_name@)
            },
    {
        if self.find(&book_name).is_some() {
            return Err(BookRegistryError::BookAlreadyExists);
        }
        let mut hasher = DefaultHasher::new();
        hasher.write(book_name.as_str().as_bytes());
        let book_id = BookId::from_hash(hasher.finish());
        let ghost pre = self.books@;
        self.books.push((book_name, book_id));
        proof {
            lemma_lookup_registered(pre, book_name@);
            assert forall|i: int, j: int| 0 <= i < j < self.books@.len() implies (#[trigger] self.books@[i]).0@ != (
                #[trigger] self.books@[j]).0@ by {
                if j == pre.len() {
                    assert(self.books@[i] == pre[i]);
                } else {
                    assert(self.books@[i] == pre[i] && self.books@[j] == pre[j]);
                }
            }
            assert(self.books@.drop_last() =~= pre);
            assert(self.names() =~= pre.map_values(|e: (String, BookId)| e.0@).push(book_name@));
        }
        Ok(book_id)
    }

    pub fn get_book_id(&self, book_name: &str) -> (r: Result<BookId, BookRegistryError>)
        ensures
            r == match self.id_of(book_name@) {
                Some(id) => Ok::<BookId, BookRegistryError>(id),
                None => Err(BookRegistryError::BookNotFound),
            },
    {
        let name = book_name.to_owned();
        match self.find(&name) {
            Some(id) => Ok(id),
            None => Err(BookRegistryError::BookNotFound),
        }
    }

    /// The registered names, in order of registration.
    pub fn list_books(&self) -> (r: Vec<String>)
        ensures
            r@.map_values(|s: String| s@) == self.names(),
    {
        let mut out: Vec<String> = Vec::new();
        let mut i: usize = 0;
        while i < self.books.len()
            invariant
                i <= self.books@.len(),
                out@.map_values(|s: String| s@) == self.names().subrange(0, i as int),
            decreases self.books@.len() - i,
        {
            let name = self.books[i].0.clone();
            let ghost pre = out@;
            out.push(name);
            proof {
                assert(out@.map_values(|s: String| s@) =~= pre.map_values(|s: String| s@).push(
                    self.books@[i as int].0@,
                ));
                assert(self.names().subrange(0, i + 1) =~= self.names().subrange(0, i as int).push(
                    self.books@[i as int].0@,
                ));
            }
            i += 1;
        }
        proof {
            assert(self.names().subrange(0, i as int) =~= self.names());
        }
        out
    }
}

} // verus!
