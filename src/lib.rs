//! A multi-book limit order book: price levels held in per-book pools, a dense
//! order index, a price-time priority matching engine and a translator from
//! matches to settlement records.

pub mod quantity;
pub mod price;
pub mod level;
pub mod utils;
pub mod pool;
pub mod order;
pub mod orderbook;
pub mod orderbook_manager;
pub mod market;
pub mod matching;
pub mod translator;
pub mod order_intake;
pub mod book_registry;
pub mod invariants;
