//! Scenario tests of the order book: matching, resting, rejection and
//! cancellation behaviour on concrete orders.

use exchange_core::order_book::OrderBook;
use exchange_core::{CoreError, Field, Order, Side};

fn ident(tag: u8) -> Field {
    let mut bytes = [0u8; 32];
    bytes[0] = tag;
    Field::new(bytes)
}

#[test]
fn resting_bid_on_empty_book() {
    let mut book = OrderBook::new();
    let a = ident(1);
    let out = book.submit(Side::Buy, 100, 5, a).unwrap();
    assert_eq!(out.sequence, 1);
    assert_eq!(out.trades.len(), 0);
    assert_eq!(out.residual, 5);
    assert_eq!(book.best_bid(), Some(100));
    assert_eq!(book.best_ask(), None);
    let bids = book.side_snapshot(Side::Buy);
    assert_eq!(bids.len(), 1);
    assert_eq!(bids[0].price, 100);
    assert_eq!(bids[0].amount, 5);
    assert_eq!(bids[0].sequence, 1);
    assert!(bids[0].maker.equals(&a));
}

#[test]
fn aggressive_sell_fills_at_resting_bid_price() {
    let mut book = OrderBook::new();
    let a = ident(1);
    let b = ident(2);
    book.submit(Side::Buy, 100, 5, a).unwrap();
    let out = book.submit(Side::Sell, 90, 3, b).unwrap();
    assert_eq!(out.trades.len(), 1);
    let t = &out.trades[0];
    assert!(t.maker_a.equals(&a));
    assert!(t.maker_b.equals(&b));
    assert_eq!(t.price, 100);
    assert_eq!(t.quantity, 3);
    assert_eq!(t.maker_a_sequence, 1);
    assert_eq!(t.maker_b_sequence, 2);
    assert_eq!(out.residual, 0);
    let bids = book.side_snapshot(Side::Buy);
    assert_eq!(bids.len(), 1);
    assert_eq!(bids[0].price, 100);
    assert_eq!(bids[0].amount, 2);
    assert_eq!(book.side_snapshot(Side::Sell).len(), 0);
    assert_eq!(book.last_trade_price(), Some(100));
}

#[test]
fn equal_price_asks_fill_in_fifo_order() {
    let mut book = OrderBook::new();
    let a = ident(1);
    let b = ident(2);
    let c = ident(3);
    book.submit(Side::Sell, 50, 4, a).unwrap();
    book.submit(Side::Sell, 50, 4, c).unwrap();
    let out = book.submit(Side::Buy, 50, 6, b).unwrap();
    assert_eq!(out.trades.len(), 2);
    assert!(out.trades[0].maker_a.equals(&a));
    assert_eq!(out.trades[0].quantity, 4);
    assert_eq!(out.trades[0].maker_a_sequence, 1);
    assert!(out.trades[1].maker_a.equals(&c));
    assert_eq!(out.trades[1].quantity, 2);
    assert_eq!(out.trades[1].maker_a_sequence, 2);
    assert_eq!(out.residual, 0);
    let asks = book.side_snapshot(Side::Sell);
    assert_eq!(asks.len(), 1);
    assert!(asks[0].maker.equals(&c));
    assert_eq!(asks[0].amount, 2);
    assert_eq!(book.side_snapshot(Side::Buy).len(), 0);
}

#[test]
fn zero_price_is_rejected_and_book_unchanged() {
    let mut book = OrderBook::new();
    let a = ident(1);
    let r = book.submit(Side::Buy, 0, 5, a);
    assert!(matches!(r, Err(CoreError::InvalidOrder)));
    assert_eq!(book.best_bid(), None);
    assert_eq!(book.best_ask(), None);
    assert_eq!(book.side_snapshot(Side::Buy).len(), 0);
    let out = book.submit(Side::Buy, 100, 5, a).unwrap();
    assert_eq!(out.sequence, 1);
}

#[test]
fn zero_amount_is_rejected() {
    let mut book = OrderBook::new();
    let r = book.submit(Side::Sell, 10, 0, ident(1));
    assert!(matches!(r, Err(CoreError::InvalidOrder)));
    assert_eq!(book.side_snapshot(Side::Sell).len(), 0);
}

#[test]
fn cancel_of_unknown_sequence_is_false_and_harmless() {
    let mut book = OrderBook::new();
    let a = ident(1);
    book.submit(Side::Buy, 100, 5, a).unwrap();
    assert!(!book.cancel(99));
    assert_eq!(book.best_bid(), Some(100));
    assert_eq!(book.side_snapshot(Side::Buy).len(), 1);
}

#[test]
fn cancel_is_idempotent() {
    let mut book = OrderBook::new();
    let a = ident(1);
    let out = book.submit(Side::Buy, 100, 5, a).unwrap();
    assert!(book.cancel(out.sequence));
    assert!(!book.cancel(out.sequence));
    assert_eq!(book.best_bid(), None);
    assert_eq!(book.side_snapshot(Side::Buy).len(), 0);
}

#[test]
fn partial_fill_rests_the_residual() {
    let mut book = OrderBook::new();
    let a = ident(1);
    let b = ident(2);
    book.submit(Side::Sell, 70, 2, a).unwrap();
    let out = book.submit(Side::Buy, 75, 5, b).unwrap();
    assert_eq!(out.trades.len(), 1);
    assert_eq!(out.trades[0].price, 70);
    assert_eq!(out.trades[0].quantity, 2);
    assert_eq!(out.residual, 3);
    assert_eq!(book.best_bid(), Some(75));
    assert_eq!(book.best_ask(), None);
    let bids = book.side_snapshot(Side::Buy);
    assert_eq!(bids.len(), 1);
    assert_eq!(bids[0].amount, 3);
}

#[test]
fn price_priority_fills_better_priced_ask_first() {
    let mut book = OrderBook::new();
    let a = ident(1);
    let c = ident(3);
    let b = ident(2);
    book.submit(Side::Sell, 60, 1, a).unwrap();
    book.submit(Side::Sell, 55, 1, c).unwrap();
    let out = book.submit(Side::Buy, 60, 2, b).unwrap();
    assert_eq!(out.trades.len(), 2);
    assert_eq!(out.trades[0].price, 55);
    assert!(out.trades[0].maker_a.equals(&c));
    assert_eq!(out.trades[1].price, 60);
    assert!(out.trades[1].maker_a.equals(&a));
}

#[test]
fn book_never_rests_crossed() {
    let mut book = OrderBook::new();
    book.submit(Side::Buy, 100, 5, ident(1)).unwrap();
    book.submit(Side::Sell, 101, 5, ident(2)).unwrap();
    let bid = book.best_bid().unwrap();
    let ask = book.best_ask().unwrap();
    assert!(bid < ask);
    book.submit(Side::Buy, 101, 2, ident(3)).unwrap();
    if let (Some(bid2), Some(ask2)) = (book.best_bid(), book.best_ask()) {
        assert!(bid2 < ask2);
    }
}

#[test]
fn conservation_of_amounts_across_a_submit() {
    let mut book = OrderBook::new();
    book.submit(Side::Sell, 50, 4, ident(1)).unwrap();
    book.submit(Side::Sell, 52, 3, ident(2)).unwrap();
    let before: u64 = book.side_snapshot(Side::Sell).iter().map(|o| o.amount).sum();
    assert_eq!(before, 7);
    let out = book.submit(Side::Buy, 51, 6, ident(3)).unwrap();
    let traded: u64 = out.trades.iter().map(|t| t.quantity).sum();
    let after: u64 = book.side_snapshot(Side::Sell).iter().map(|o| o.amount).sum();
    assert_eq!(traded, 4);
    assert_eq!(out.residual, 2);
    assert_eq!(traded + out.residual, 6);
    assert_eq!(after + traded, before);
}

#[test]
fn replaying_the_same_calls_gives_identical_books() {
    let run = || {
        let mut book = OrderBook::new();
        let mut log: Vec<(u64, u64, u64)> = Vec::new();
        let o1 = book.submit(Side::Buy, 100, 5, ident(1)).unwrap();
        for t in &o1.trades {
            log.push((t.price, t.quantity, t.maker_a_sequence));
        }
        let o2 = book.submit(Side::Sell, 95, 3, ident(2)).unwrap();
        for t in &o2.trades {
            log.push((t.price, t.quantity, t.maker_a_sequence));
        }
        book.cancel(1);
        let o3 = book.submit(Side::Sell, 90, 4, ident(3)).unwrap();
        for t in &o3.trades {
            log.push((t.price, t.quantity, t.maker_a_sequence));
        }
        let bids: Vec<(u64, u64, u64)> =
            book.side_snapshot(Side::Buy).iter().map(|o| (o.price, o.amount, o.sequence)).collect();
        let asks: Vec<(u64, u64, u64)> =
            book.side_snapshot(Side::Sell).iter().map(|o| (o.price, o.amount, o.sequence)).collect();
        (log, bids, asks, book.best_bid(), book.best_ask())
    };
    assert_eq!(run(), run());
}

#[test]
fn order_construction_validates_price_and_amount() {
    let a = ident(1);
    assert!(matches!(Order::new(Side::Buy, 0, 5, a), Err(CoreError::InvalidOrder)));
    assert!(matches!(Order::new(Side::Sell, 5, 0, a), Err(CoreError::InvalidOrder)));
    let o = Order::new(Side::Buy, 5, 7, a).unwrap();
    assert_eq!(o.price, 5);
    assert_eq!(o.amount, 7);
    assert_eq!(o.sequence, 0);
    assert_eq!(o.side, Side::Buy);
    assert!(o.maker.equals(&a));
}

#[test]
fn snapshot_and_restore_round_trip() {
    let mut book = OrderBook::new();
    book.submit(Side::Buy, 100, 5, ident(1)).unwrap();
    book.submit(Side::Sell, 110, 4, ident(2)).unwrap();
    book.submit(Side::Sell, 105, 2, ident(3)).unwrap();
    let bids = book.side_snapshot(Side::Buy);
    let asks = book.side_snapshot(Side::Sell);
    let mut copy = OrderBook::restore(bids, asks, book.last_trade_price(), 4).unwrap();
    assert_eq!(copy.best_bid(), book.best_bid());
    assert_eq!(copy.best_ask(), book.best_ask());
    let out_a = book.submit(Side::Buy, 106, 3, ident(4)).unwrap();
    let out_b = copy.submit(Side::Buy, 106, 3, ident(4)).unwrap();
    assert_eq!(out_a.sequence, out_b.sequence);
    assert_eq!(out_a.trades.len(), out_b.trades.len());
    assert_eq!(out_a.trades[0].price, 105);
    assert_eq!(out_a.residual, out_b.residual);
}

#[test]
fn corrupt_snapshots_are_rejected() {
    // A crossed book: resting bid at or above the resting ask.
    let bid = Order::new(Side::Buy, 100, 5, ident(1)).unwrap();
    let mut bid1 = bid;
    bid1.sequence = 1;
    let ask = Order::new(Side::Sell, 90, 5, ident(2)).unwrap();
    let mut ask2 = ask;
    ask2.sequence = 2;
    assert!(OrderBook::restore(vec![bid1], vec![ask2], None, 3).is_none());
    // A reused sequence number across the two sides.
    let mut ask1 = ask;
    ask1.sequence = 1;
    ask1.price = 200;
    assert!(OrderBook::restore(vec![bid1], vec![ask1], None, 3).is_none());
    // A side that is not sorted best first.
    let mut worse = bid;
    worse.price = 90;
    worse.sequence = 2;
    let mut better = bid;
    better.sequence = 3;
    assert!(OrderBook::restore(vec![worse, better], vec![], None, 4).is_none());
    // A dead order.
    let mut dead = bid;
    dead.amount = 0;
    dead.sequence = 1;
    assert!(OrderBook::restore(vec![dead], vec![], None, 2).is_none());
    // A sequence number the book could not have issued yet.
    assert!(OrderBook::restore(vec![bid1], vec![], None, 1).is_none());
    // A consistent snapshot is accepted.
    let mut far_ask = ask;
    far_ask.price = 150;
    far_ask.sequence = 2;
    assert!(OrderBook::restore(vec![bid1], vec![far_ask], None, 3).is_some());
}

#[test]
fn sequence_numbers_grow_by_one_per_admitted_order() {
    let mut book = OrderBook::new();
    assert_eq!(book.next_sequence(), 1);
    book.submit(Side::Buy, 100, 5, ident(1)).unwrap();
    assert_eq!(book.next_sequence(), 2);
    // A rejected order is not admitted and consumes no sequence number.
    let _ = book.submit(Side::Buy, 0, 5, ident(1));
    assert_eq!(book.next_sequence(), 2);
    // A cancellation consumes no sequence number either.
    book.cancel(1);
    assert_eq!(book.next_sequence(), 2);
}
