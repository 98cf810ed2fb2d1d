//! A single trading pair: a display name and the pair's order book.

use vstd::prelude::*;
use crate::order_book::{empty_book, OrderBook};

verus! {

/// One trading pair of the exchange.  The name is display-only: lookup and
/// routing go by the pair's identifier key, which the exchange keeps beside
/// the pair.
pub struct Pair {
    /// Display name of this pair.
    pub name: String,
    /// Order book of this pair.
    pub order_book: OrderBook,
}

impl Pair {
    /// Creates a pair with an empty order book.
    pub fn new(name: String) -> (r: Pair)
        ensures
            r.name@ == name@,
            r.order_book@ == empty_book(),
            r.order_book@.wf(),
    {
        Pair { name, order_book: OrderBook::new() }
    }
}

} // verus!
