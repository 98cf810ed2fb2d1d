//! Matching core of a crypto-asset exchange.
//!
//! The library keeps, per trading pair, a book of resting limit orders and
//! matches incoming orders against it under price-time priority.  All prices
//! and amounts are unsigned fixed-width integers; no floating point is used
//! anywhere, so settlement is exact and deterministic.

pub mod exchange;
pub mod field;
pub mod laws;
pub mod matching;
pub mod order;
pub mod order_book;
pub mod pair;
pub mod persistent;

pub use exchange::Exchange;
pub use field::Field;
pub use order::{CoreError, Order, Side, Trade};
pub use order_book::{OrderBook, SubmitOutcome};
pub use pair::Pair;
pub use persistent::Persistent;
