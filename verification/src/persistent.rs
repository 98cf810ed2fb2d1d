//! Marker for state a persistence collaborator may save and restore.

use vstd::prelude::*;
use crate::order_book::OrderBook;

verus! {

/// Marker trait for the parts of the core whose state can be written out and
/// read back by a persistence collaborator.  The order book qualifies: its
/// full resting-order set is observable through `OrderBook::side_snapshot`.
pub trait Persistent {

}

impl Persistent for OrderBook {

}

} // verus!
