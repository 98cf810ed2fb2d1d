//! Tests of the pair registry: registration, routing, and the identifier
//! type itself.

use exchange_core::{CoreError, Exchange, Field, Side};

fn key(tag: u8) -> Field {
    let mut bytes = [0u8; 32];
    bytes[31] = tag;
    Field::new(bytes)
}

#[test]
fn duplicate_pair_is_rejected_and_only_one_book_exists() {
    let mut ex = Exchange::new();
    let k = key(7);
    assert!(ex.add_pair(String::from("X"), k).is_ok());
    let second = ex.add_pair(String::from("X"), k);
    assert!(matches!(second, Err(CoreError::DuplicatePair)));
    assert_eq!(ex.pair_count(), 1);
}

#[test]
fn distinct_keys_register_distinct_pairs() {
    let mut ex = Exchange::new();
    assert!(ex.add_pair(String::from("AB"), key(1)).is_ok());
    assert!(ex.add_pair(String::from("CD"), key(2)).is_ok());
    assert_eq!(ex.pair_count(), 2);
}

#[test]
fn unknown_pair_is_rejected_on_submit_and_cancel() {
    let mut ex = Exchange::new();
    ex.add_pair(String::from("AB"), key(1)).unwrap();
    let r = ex.submit(&key(9), Side::Buy, 10, 1, key(5));
    assert!(matches!(r, Err(CoreError::UnknownPair)));
    let c = ex.cancel(&key(9), 1);
    assert!(matches!(c, Err(CoreError::UnknownPair)));
}

#[test]
fn submissions_are_routed_to_their_pair() {
    let mut ex = Exchange::new();
    let ka = key(1);
    let kb = key(2);
    ex.add_pair(String::from("AB"), ka).unwrap();
    ex.add_pair(String::from("CD"), kb).unwrap();
    let maker = key(100);
    let o1 = ex.submit(&ka, Side::Buy, 100, 5, maker).unwrap();
    assert_eq!(o1.sequence, 1);
    assert_eq!(o1.trades.len(), 0);
    // The other pair's book is untouched: its sequence numbers start fresh
    // and the resting bid of the first pair cannot match there.
    let o2 = ex.submit(&kb, Side::Sell, 90, 5, maker).unwrap();
    assert_eq!(o2.sequence, 1);
    assert_eq!(o2.trades.len(), 0);
    assert_eq!(o2.residual, 5);
    // Back on the first pair the resting bid does match.
    let o3 = ex.submit(&ka, Side::Sell, 90, 5, maker).unwrap();
    assert_eq!(o3.trades.len(), 1);
    assert_eq!(o3.trades[0].price, 100);
}

#[test]
fn cancel_through_the_exchange_is_idempotent() {
    let mut ex = Exchange::new();
    let k = key(1);
    ex.add_pair(String::from("AB"), k).unwrap();
    let o = ex.submit(&k, Side::Buy, 100, 5, key(9)).unwrap();
    assert_eq!(ex.cancel(&k, o.sequence).unwrap(), true);
    assert_eq!(ex.cancel(&k, o.sequence).unwrap(), false);
}

#[test]
fn invalid_order_is_rejected_by_the_routed_book() {
    let mut ex = Exchange::new();
    let k = key(1);
    ex.add_pair(String::from("AB"), k).unwrap();
    let r = ex.submit(&k, Side::Buy, 0, 5, key(9));
    assert!(matches!(r, Err(CoreError::InvalidOrder)));
}

#[test]
fn identifier_equality_and_order_go_by_the_bytes() {
    let a = key(1);
    let b = key(1);
    let c = key(2);
    assert!(a.equals(&b));
    assert!(!a.equals(&c));
    assert!(a.lt(&c));
    assert!(!c.lt(&a));
    assert!(!a.lt(&b));
    let mut high = [0u8; 32];
    high[0] = 1;
    let d = Field::new(high);
    assert!(c.lt(&d));
    let z = Field::default();
    assert!(z.lt(&c));
    assert!(!z.equals(&c));
}

#[test]
fn route_finds_the_registered_book_only() {
    let mut ex = Exchange::new();
    let k = key(1);
    ex.add_pair(String::from("AB"), k).unwrap();
    ex.submit(&k, Side::Buy, 100, 5, key(9)).unwrap();
    let book = ex.route(&k).unwrap();
    assert_eq!(book.best_bid(), Some(100));
    assert!(ex.route(&key(2)).is_none());
}
