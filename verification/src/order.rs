//! Orders, trades and the core's error values.

use vstd::prelude::*;
use crate::field::Field;

verus! {

/// Which side of the book an order stands on.
#[derive(Clone, Copy, Debug, PartialEq, Eq, Structural)]
pub enum Side {
    Buy,
    Sell,
}

/// One limit order.  `sequence` is assigned by the book when the order is
/// admitted and establishes time priority among orders at the same price;
/// `maker` is carried through opaquely for trade reporting.
#[derive(Clone, Copy, Debug)]
pub struct Order {
    pub side: Side,
    pub price: u64,
    pub amount: u64,
    pub maker: Field,
    pub sequence: u64,
}

/// One execution: the resting (maker) participant is `maker_a`, the incoming
/// (aggressor) participant is `maker_b`.  The price is always the resting
/// order's price.
#[derive(Clone, Copy, Debug)]
pub struct Trade {
    pub maker_a: Field,
    pub maker_b: Field,
    pub price: u64,
    pub quantity: u64,
    pub maker_a_sequence: u64,
    pub maker_b_sequence: u64,
}

/// The value-returned failures of the core.
#[derive(Clone, Copy, Debug, PartialEq, Eq, Structural)]
pub enum CoreError {
    /// An order with a zero price or a zero amount was submitted.
    InvalidOrder,
    /// A pair key that was never registered was used.
    UnknownPair,
    /// A pair key was registered a second time.
    DuplicatePair,
}

impl Order {
    /// Admission check for a raw order record: the price and the amount must
    /// both be positive.  The sequence number is not settable here; the book
    /// assigns it when the order is submitted, so a fresh order carries 0.
    pub fn new(side: Side, price: u64, amount: u64, maker: Field) -> (r: Result<Order, CoreError>)
        ensures
            r matches Ok(o) ==> o.side == side && o.price == price && o.amount == amount
                && o.maker == maker && o.sequence == 0,
            r is Ok <==> (price > 0 && amount > 0),
            r is Err ==> r == Result::<Order, CoreError>::Err(CoreError::InvalidOrder),
    {
        if price == 0 || amount == 0 {
            Err(CoreError::InvalidOrder)
        } else {
            Ok(Order { side, price, amount, maker, sequence: 0 })
        }
    }
}

/// Book priority among two orders of one side: the better price comes first,
/// and at equal price the smaller (earlier) sequence number comes first.
/// For bids a higher price is better; for asks a lower one.
pub open spec fn prior(side: Side, a: Order, b: Order) -> bool {
    match side {
        Side::Buy => a.price > b.price || (a.price == b.price && a.sequence < b.sequence),
        Side::Sell => a.price < b.price || (a.price == b.price && a.sequence < b.sequence),
    }
}

/// An incoming order at `price` is marketable against a resting order at
/// `best` on the opposite side.
pub open spec fn marketable(side: Side, price: u64, best: u64) -> bool {
    match side {
        Side::Buy => price >= best,
        Side::Sell => price <= best,
    }
}

/// The side a submission matches against.
pub open spec fn opposite(side: Side) -> Side {
    match side {
        Side::Buy => Side::Sell,
        Side::Sell => Side::Buy,
    }
}

} // verus!
