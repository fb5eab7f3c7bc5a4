use limit_order_book::decimal::Dec;
use limit_order_book::exchange_data::binance::{L2OrderBook, Side};
use limit_order_book::exchange_data::Level;

#[test]
fn upsert_bid_inserts_new_level() {
    let bid = Level { price: Dec::new(920041, 6), qty: Dec::new(24123, 3) };

    let mut book = L2OrderBook::new();

    book.upsert(bid, Side::Bid);

    assert!(book.bids.len() == 1);
    assert!(book.asks.len() == 0);
}

#[test]
fn upsert_bid_overwrites_existing_level() {
    let mut bid = Level { price: Dec::new(920041, 6), qty: Dec::new(24123, 3) };

    let mut book = L2OrderBook::new();

    book.upsert(bid, Side::Bid);

    assert!(book.bids.len() == 1);
    assert_eq!(*book.bids.get(&Dec::new(920041, 6)).unwrap(), Dec::new(24123, 3));
    assert!(book.asks.len() == 0);

    bid.qty = Dec::new(500, 2);
    book.upsert(bid, Side::Bid);

    assert!(book.bids.len() == 1);
    assert_eq!(*book.bids.get(&Dec::new(920041, 6)).unwrap(), Dec::new(500, 2));
    assert!(book.asks.len() == 0);
}

#[test]
fn upsert_ask_inserts_new_level() {
    let ask = Level { price: Dec::new(920041, 6), qty: Dec::new(24123, 3) };

    let mut book = L2OrderBook::new();

    book.upsert(ask, Side::Ask);

    assert!(book.bids.len() == 0);
    assert!(book.asks.len() == 1);
}

#[test]
fn upsert_ask_overwrites_existing_level() {
    let mut ask = Level { price: Dec::new(920041, 6), qty: Dec::new(24123, 3) };

    let mut book = L2OrderBook::new();

    book.upsert(ask, Side::Ask);

    assert!(book.asks.len() == 1);
    assert_eq!(*book.asks.get(&Dec::new(920041, 6)).unwrap(), Dec::new(24123, 3));
    assert!(book.bids.len() == 0);

    ask.qty = Dec::new(500, 2);
    book.upsert(ask, Side::Ask);

    assert!(book.asks.len() == 1);
    assert_eq!(*book.asks.get(&Dec::new(920041, 6)).unwrap(), Dec::new(500, 2));
    assert!(book.bids.len() == 0);
}

#[test]
fn upsert_zero_quantity_removes_level() {
    let mut book = L2OrderBook::new();
    book.upsert(Level { price: Dec::new(15, 1), qty: Dec::new(3, 0) }, Side::Bid);
    book.upsert(Level { price: Dec::new(16, 1), qty: Dec::new(4, 0) }, Side::Bid);

    // 1.50 names the level at 1.5.
    book.upsert(Level { price: Dec::new(150, 2), qty: Dec::new(0, 3) }, Side::Bid);

    assert_eq!(book.bids.len(), 1);
    assert!(book.bids.get(&Dec::new(15, 1)).is_none());
    assert_eq!(*book.bids.get(&Dec::new(16, 1)).unwrap(), Dec::new(4, 0));
}

#[test]
fn upsert_zero_quantity_on_missing_level_changes_nothing() {
    let mut book = L2OrderBook::new();
    book.upsert(Level { price: Dec::new(2, 0), qty: Dec::new(1, 0) }, Side::Ask);

    book.upsert(Level { price: Dec::new(3, 0), qty: Dec::new(0, 0) }, Side::Ask);

    assert_eq!(book.asks.len(), 1);
    assert!(!book.asks.contains_key(&Dec::new(3, 0)));
}

#[test]
fn upsert_keeps_levels_in_price_order() {
    let mut book = L2OrderBook::new();
    for p in [5i64, 1, 3, 4, 2] {
        book.upsert(Level { price: Dec::new(p, 0), qty: Dec::new(p * 10, 0) }, Side::Ask);
    }
    assert_eq!(book.asks.len(), 5);
    assert_eq!(*book.asks.first_key_value().unwrap().0, Dec::new(1, 0));
    assert_eq!(*book.asks.last_key_value().unwrap().0, Dec::new(5, 0));
    // An overwrite keeps the price as the level was created with.
    book.upsert(Level { price: Dec::new(300, 2), qty: Dec::new(7, 0) }, Side::Ask);
    let (k, v) = book.asks.get_key_value(&Dec::new(3, 0)).unwrap();
    assert_eq!(k.scale(), 0);
    assert_eq!(*v, Dec::new(7, 0));
}
