use vstd::prelude::*;
use crate::utils::BookId;

verus! {

/// The settlement parameters of one market.
#[derive(Debug, Clone, Copy)]
pub struct MarketConfig {
    pub base_token: [u8; 20],
    pub security_token: [u8; 20],
    pub fee_recipient: [u8; 20],
    pub pool: [u8; 20],
    pub signature_type: u8,
}

/// Market configurations by book id.
pub struct MarketManager {
    pub configs: Vec<Option<MarketConfig>>,
}

impl MarketManager {
    /// The configuration registered for book `bk`, if any.
    pub open spec fn config_of(self, bk: u32) -> Option<MarketConfig> {
        if (bk as int) < self.configs@.len() {
            self.configs@[bk as int]
        } else {
            None
        }
    }

    pub fn new() -> (r: MarketManager)
        ensures
            forall|bk: u32| #[trigger] r.config_of(bk) is None,
    {
        MarketManager { configs: Vec::new() }
    }

    /// Registers (or overwrites) the configuration of a book.
    pub fn add_market(&mut self, book_id: BookId, config: MarketConfig)
        ensures
            forall|bk: u32| #[trigger] final(self).config_of(bk) == if bk == book_id.0 {
                Some(config)
            } else {
                old(self).config_of(bk)
            },
    {
        let idx = book_id.0 as usize;
        while self.configs.len() <= idx
            invariant
                old(self).configs@.len() <= self.configs@.len(),
                self.configs@.len() <= old(self).configs@.len() || self.configs@.len() <= idx + 1,
                forall|i: int|
                    0 <= i < self.configs@.len() ==> #[trigger] self.configs@[i] == if i < old(
                        self,
                    ).configs@.len() {
                        old(self).configs@[i]
                    } else {
                        None
                    },
            decreases idx + 1 - self.configs@.len(),
        {
            self.configs.push(None);
        }
        self.configs[idx] = Some(config);
    }

    pub fn get_config(&self, book_id: BookId) -> (r: Option<&MarketConfig>)
        ensures
            r == match self.config_of(book_id.0) {
                Some(c) => Some(&c),
                None => None,
            },
    {
        let idx = book_id.0 as usize;
        if idx < self.configs.len() {
            match &self.configs[idx] {
                Some(c) => Some(c),
                None => None,
            }
        } else {
            None
        }
    }
}

} // verus!
