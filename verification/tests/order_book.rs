use std::collections::VecDeque;

use limit_order_book::book::{ErrorKind, LimitOrder, MatchResult, OrderBook, OrderState, PriceLevels, Side};
use limit_order_book::clock::Timestamp;
use limit_order_book::decimal::Dec;
use limit_order_book::engine::{CancellationEvent, EngineEvent, InstrumentKey, OrdersMatchedEvent};

fn now() -> Timestamp {
    let t = chrono::Local::now();
    Timestamp { secs: t.timestamp(), subsec_nanos: t.timestamp_subsec_nanos() }
}

fn dec(num: i64, scale: u32) -> Dec {
    Dec::new(num, scale)
}

fn create_orders(
    ids: (u64, u64),
    prices: (Dec, Dec),
    sides: (Side, Side),
    quantities: (Dec, Dec),
) -> (LimitOrder, LimitOrder) {
    (
        LimitOrder {
            instrument: InstrumentKey::Btc,
            id: ids.0,
            limit_price: prices.0,
            quantity: quantities.0,
            placed_at: now(),
            side: sides.0,
            quantity_traded: dec(0, 0),
            quantity_remaining: quantities.0,
            state: OrderState::New,
        },
        LimitOrder {
            instrument: InstrumentKey::Btc,
            id: ids.1,
            limit_price: prices.1,
            quantity: quantities.1,
            placed_at: now(),
            side: sides.1,
            quantity_traded: dec(0, 0),
            quantity_remaining: quantities.1,
            state: OrderState::New,
        },
    )
}

fn resting(id: u64, price: Dec, side: Side) -> LimitOrder {
    LimitOrder {
        instrument: InstrumentKey::Btc,
        id,
        limit_price: price,
        quantity: dec(10, 0),
        placed_at: now(),
        side,
        quantity_traded: dec(0, 0),
        quantity_remaining: dec(0, 0),
        state: OrderState::Open,
    }
}

#[test]
fn book_new_initialises() {
    let order_book = OrderBook::new(InstrumentKey::Btc);

    assert_eq!(PriceLevels::new(), order_book.asks);
    assert_eq!(PriceLevels::new(), order_book.bids);
}

#[test]
fn book_insert_new_bids() {
    let (bid1, bid2) = create_orders(
        (1, 2),
        (dec(12002134, 4), dec(12002136, 4)),
        (Side::Buy, Side::Buy),
        (dec(10, 0), dec(10, 0)),
    );

    let mut order_book = OrderBook::new(InstrumentKey::Btc);

    order_book.insert(bid1);
    order_book.insert(bid2);

    assert!(order_book.asks.is_empty());
    assert_eq!(order_book.bids.len(), 2);
    assert!(order_book.bids.contains_key(&dec(12002134, 4)));
    assert!(order_book.bids.contains_key(&dec(12002136, 4)));
}

#[test]
fn book_insert_existing_bid_level() {
    let (mut bid1, mut bid2) = create_orders(
        (1, 2),
        (dec(12002134, 4), dec(12002134, 4)),
        (Side::Buy, Side::Buy),
        (dec(10, 0), dec(10, 0)),
    );

    let mut order_book = OrderBook::new(InstrumentKey::Btc);

    order_book.insert(bid1.clone());
    order_book.insert(bid2.clone());

    bid1.state = OrderState::Open;
    bid2.state = OrderState::Open;
    let expected = VecDeque::from([bid1, bid2]);

    assert_eq!(order_book.bids.len(), 1);
    assert!(order_book.bids.contains_key(&dec(12002134, 4)));
    assert_eq!(order_book.bids.get(&dec(12002134, 4)).unwrap(), &expected);
}

#[test]
fn book_insert_new_asks() {
    let (ask1, ask2) = create_orders(
        (1, 2),
        (dec(12002134, 4), dec(12002136, 4)),
        (Side::Sell, Side::Sell),
        (dec(10, 0), dec(10, 0)),
    );

    let mut order_book = OrderBook::new(InstrumentKey::Btc);

    order_book.insert(ask1);
    order_book.insert(ask2);

    assert!(order_book.bids.is_empty());
    assert_eq!(order_book.asks.len(), 2);
    assert!(order_book.asks.contains_key(&dec(12002134, 4)));
    assert!(order_book.asks.contains_key(&dec(12002136, 4)));
}

#[test]
fn book_insert_existing_ask_level() {
    let (mut ask1, mut ask2) = create_orders(
        (1, 2),
        (dec(12002134, 4), dec(12002134, 4)),
        (Side::Sell, Side::Sell),
        (dec(10, 0), dec(10, 0)),
    );

    let mut order_book = OrderBook::new(InstrumentKey::Btc);

    order_book.insert(ask1.clone());
    order_book.insert(ask2.clone());

    ask1.state = OrderState::Open;
    ask2.state = OrderState::Open;
    let expected = VecDeque::from([ask1, ask2]);

    assert_eq!(order_book.asks.len(), 1);
    assert!(order_book.asks.contains_key(&dec(12002134, 4)));
    assert_eq!(order_book.asks.get(&dec(12002134, 4)).unwrap(), &expected);
}

#[test]
fn book_insert_routes_to_correct_side() {
    let (mut bid, mut ask) = create_orders(
        (1, 2),
        (dec(12002134, 4), dec(12002136, 4)),
        (Side::Buy, Side::Sell),
        (dec(10, 0), dec(10, 0)),
    );

    let mut order_book = OrderBook::new(InstrumentKey::Btc);

    order_book.insert(bid.clone());
    order_book.insert(ask.clone());

    bid.state = OrderState::Open;
    ask.state = OrderState::Open;
    let expected_bids = VecDeque::from([bid]);
    let expected_asks = VecDeque::from([ask]);

    assert_eq!(order_book.asks.len(), 1);
    assert!(order_book.asks.contains_key(&dec(12002136, 4)));
    assert_eq!(order_book.asks.get(&dec(12002136, 4)).unwrap(), &expected_asks);

    assert_eq!(order_book.bids.len(), 1);
    assert!(order_book.bids.contains_key(&dec(12002134, 4)));
    assert_eq!(order_book.bids.get(&dec(12002134, 4)).unwrap(), &expected_bids);
}

#[test]
fn book_insert_orders_placed_count() {
    let (bid, ask) = create_orders(
        (1, 2),
        (dec(12002134, 4), dec(12002136, 4)),
        (Side::Buy, Side::Sell),
        (dec(10, 0), dec(10, 0)),
    );

    let mut order_book = OrderBook::new(InstrumentKey::Btc);

    assert_eq!(order_book.orders_placed(), 0);

    order_book.insert(bid.clone());

    assert_eq!(order_book.orders_placed(), 1);

    order_book.insert(ask.clone());

    assert_eq!(order_book.orders_placed(), 2);
}

#[test]
fn book_insert_order_states() {
    let (bid, ask) = create_orders(
        (1, 2),
        (dec(12002134, 4), dec(12002136, 4)),
        (Side::Buy, Side::Sell),
        (dec(10, 0), dec(10, 0)),
    );

    let mut order_book = OrderBook::new(InstrumentKey::Btc);

    assert_eq!(bid.state, OrderState::New);

    order_book.insert(bid);

    assert_eq!(
        order_book.bids.get(&dec(12002134, 4)).unwrap().front().unwrap().state,
        OrderState::Open
    );
    assert_eq!(ask.state, OrderState::New);

    order_book.insert(ask);

    assert_eq!(
        order_book.asks.get(&dec(12002136, 4)).unwrap().front().unwrap().state,
        OrderState::Open
    );
}

#[test]
fn book_insert_fifo_order_within_price_level() {
    let bid1 = resting(1, dec(12002134, 4), Side::Buy);
    let bid2 = resting(2, dec(12002134, 4), Side::Buy);
    let bid3 = resting(3, dec(12002134, 4), Side::Buy);

    let mut order_book = OrderBook::new(InstrumentKey::Btc);

    order_book.insert(bid1.clone());
    order_book.insert(bid2.clone());
    order_book.insert(bid3.clone());

    let expected = VecDeque::from([bid1.clone(), bid2.clone(), bid3.clone()]);

    assert_eq!(order_book.bids.len(), 1);
    assert!(order_book.bids.contains_key(&dec(12002134, 4)));
    assert_eq!(order_book.bids.get(&dec(12002134, 4)).unwrap().front().unwrap(), &bid1);
    assert_eq!(order_book.bids.get(&dec(12002134, 4)).unwrap().back().unwrap(), &bid3);
    assert_eq!(order_book.bids.get(&dec(12002134, 4)).unwrap(), &expected);
}

#[test]
fn book_match_sides_bid_above_ask() {
    let (bid, ask) = create_orders(
        (1, 3),
        (dec(12002134, 4), dec(12002133, 4)),
        (Side::Buy, Side::Sell),
        (dec(10, 0), dec(10, 0)),
    );

    let mut order_book = OrderBook::new(InstrumentKey::Btc);

    let expected = MatchResult {
        ask_id: ask.id,
        bid_id: bid.id,
        bid_price: bid.limit_price,
        ask_price: ask.limit_price,
    };

    order_book.insert(bid);
    order_book.insert(ask);

    assert_eq!(order_book.match_sides().unwrap(), expected);
}

#[test]
fn book_match_sides_bid_matching_ask() {
    let (bid, ask) = create_orders(
        (1, 2),
        (dec(12002134, 4), dec(12002134, 4)),
        (Side::Buy, Side::Sell),
        (dec(10, 0), dec(10, 0)),
    );

    let mut order_book = OrderBook::new(InstrumentKey::Btc);

    let expected = MatchResult {
        ask_id: ask.id,
        bid_id: bid.id,
        bid_price: bid.limit_price,
        ask_price: ask.limit_price,
    };

    order_book.insert(bid);
    order_book.insert(ask);

    assert_eq!(order_book.match_sides().unwrap(), expected);
}

#[test]
fn book_match_sides_bid_below_ask() {
    let (bid, ask) = create_orders(
        (1, 2),
        (dec(12002132, 4), dec(12002134, 4)),
        (Side::Buy, Side::Sell),
        (dec(10, 0), dec(10, 0)),
    );

    let mut order_book = OrderBook::new(InstrumentKey::Btc);

    order_book.insert(bid);
    order_book.insert(ask);

    assert_eq!(order_book.match_sides(), None);
}

#[test]
fn book_match_sides_no_bids() {
    let ask = LimitOrder { id: 3, ..resting(3, dec(12002133, 4), Side::Sell) };

    let mut order_book = OrderBook::new(InstrumentKey::Btc);

    order_book.insert(ask);

    assert_eq!(order_book.match_sides(), None);
}

#[test]
fn book_match_sides_no_asks() {
    let bid = LimitOrder { id: 3, ..resting(3, dec(12002133, 4), Side::Buy) };

    let mut order_book = OrderBook::new(InstrumentKey::Btc);

    order_book.insert(bid);

    assert_eq!(order_book.match_sides(), None);
}

#[test]
fn book_match_sides_fifo_order() {
    let (bid1, ask1) = create_orders(
        (1, 3),
        (dec(12002134, 4), dec(12002133, 4)),
        (Side::Buy, Side::Sell),
        (dec(10, 0), dec(10, 0)),
    );
    let (bid2, ask2) = create_orders(
        (2, 4),
        (dec(12002134, 4), dec(12002133, 4)),
        (Side::Buy, Side::Sell),
        (dec(10, 0), dec(10, 0)),
    );

    let mut order_book = OrderBook::new(InstrumentKey::Btc);

    let expected = MatchResult {
        ask_id: ask1.id,
        bid_id: bid1.id,
        bid_price: bid1.limit_price,
        ask_price: ask1.limit_price,
    };

    order_book.insert(bid1);
    order_book.insert(bid2);
    order_book.insert(ask1);
    order_book.insert(ask2);

    assert_eq!(order_book.match_sides().unwrap(), expected);
}

#[test]
fn book_match_sides_empty_order_book() {
    let order_book = OrderBook::new(InstrumentKey::Btc);

    assert_eq!(order_book.match_sides(), None);
}

fn matched(bid_id: u64, ask_id: u64, bid_price: Dec, ask_price: Dec) -> EngineEvent {
    EngineEvent::OrdersMatched(OrdersMatchedEvent {
        instrument: InstrumentKey::Btc,
        bid_order_id: bid_id,
        ask_order_id: ask_id,
        bid_price,
        ask_price,
        matched_at: now(),
    })
}

#[test]
fn book_process_match_open_orders() {
    let (bid, ask) = create_orders(
        (1, 2),
        (dec(12002134, 4), dec(12002134, 4)),
        (Side::Buy, Side::Sell),
        (dec(15, 0), dec(10, 0)),
    );

    let mut order_book = OrderBook::new(InstrumentKey::Btc);

    let bid_id = bid.id;
    let ask_id = ask.id;
    let ask_price = ask.limit_price;
    let bid_price = bid.limit_price;

    order_book.insert(bid);
    order_book.insert(ask);

    let result = order_book.process(&matched(bid_id, ask_id, bid_price, ask_price));

    let EngineEvent::TradeExecuted(trade) = result.unwrap() else {
        panic!("Expected TradeExecuted event.");
    };

    assert_eq!(trade.executed_quantity, dec(10, 0));
    assert_eq!(trade.ask_order_id, 2);
    assert_eq!(trade.bid_order_id, 1);
    assert_eq!(trade.execution_price, ask_price);

    assert_eq!(order_book.asks.len(), 0);
    assert_eq!(order_book.bids.get_key_value(&dec(12002134, 4)).unwrap().1.len(), 1);
}

#[test]
fn book_process_match_partially_filled_orders() {
    let (mut bid, mut ask) = create_orders(
        (1, 2),
        (dec(12002134, 4), dec(12002134, 4)),
        (Side::Buy, Side::Sell),
        (dec(15, 0), dec(10, 0)),
    );
    bid.state = OrderState::PartiallyFulfilled;
    bid.quantity_remaining = Dec::new(bid.quantity_remaining.mantissa() as i64 - 5, 0);
    bid.quantity_traded = Dec::new(bid.quantity_traded.mantissa() as i64 + 5, 0);

    ask.state = OrderState::PartiallyFulfilled;
    ask.quantity_remaining = Dec::new(ask.quantity_remaining.mantissa() as i64 - 5, 0);
    ask.quantity_traded = Dec::new(ask.quantity_traded.mantissa() as i64 + 5, 0);

    let mut order_book = OrderBook::new(InstrumentKey::Btc);

    let bid_id = bid.id;
    let ask_id = ask.id;
    let ask_price = ask.limit_price;
    let bid_price = bid.limit_price;

    order_book.insert(bid);
    order_book.insert(ask);

    let result = order_book.process(&matched(bid_id, ask_id, bid_price, ask_price));

    let EngineEvent::TradeExecuted(trade) = result.unwrap() else {
        panic!("Expected TradeExecuted event.");
    };

    assert_eq!(trade.executed_quantity, dec(5, 0));
    assert_eq!(trade.ask_order_id, 2);
    assert_eq!(trade.bid_order_id, 1);
    assert_eq!(trade.execution_price, ask_price);

    assert_eq!(order_book.asks.len(), 0);
    assert_eq!(order_book.bids.get_key_value(&dec(12002134, 4)).unwrap().1.len(), 1);
}

#[test]
fn book_process_match_price_level_does_not_exist() {
    let (bid, ask) = create_orders(
        (1, 2),
        (dec(12002134, 4), dec(12002134, 4)),
        (Side::Buy, Side::Sell),
        (dec(15, 0), dec(10, 0)),
    );

    let mut order_book = OrderBook::new(InstrumentKey::Btc);

    let bid_id = bid.id;
    let ask_id = ask.id;

    order_book.insert(bid);
    order_book.insert(ask);

    let result =
        order_book.process(&matched(bid_id, ask_id, dec(12002134, 4), dec(1500, 0)));

    let err = result.unwrap_err();

    assert_eq!(err.kind(), ErrorKind::NotFound);
    assert_eq!(err.to_string(), "Unable to find price level on ask side");
}

#[test]
fn book_process_match_invalid_order_state() {
    let (bid, ask) = create_orders(
        (1, 2),
        (dec(12002134, 4), dec(12002134, 4)),
        (Side::Buy, Side::Sell),
        (dec(15, 0), dec(10, 0)),
    );

    let mut order_book = OrderBook::new(InstrumentKey::Btc);

    let bid_id = bid.id;
    let ask_id = ask.id;
    let bid_price = bid.limit_price;

    order_book.insert(bid);
    order_book.insert(ask);

    let bid = order_book.bids.get_mut(&bid_price).unwrap().front_mut().unwrap();
    bid.state = OrderState::Fulfilled;

    let result =
        order_book.process(&matched(bid_id, ask_id, dec(12002134, 4), dec(12002134, 4)));

    let err = result.unwrap_err();

    assert_eq!(err.kind(), ErrorKind::InvalidData);
    assert_eq!(err.to_string(), "Invalid order state. Bid: Fulfilled; Ask: Open");
}

#[test]
fn book_process_cancellation() {
    let (bid, ask) = create_orders(
        (1, 2),
        (dec(12002134, 4), dec(12002134, 4)),
        (Side::Buy, Side::Sell),
        (dec(15, 0), dec(10, 0)),
    );

    let mut order_book = OrderBook::new(InstrumentKey::Btc);

    order_book.insert(bid);
    order_book.insert(ask);

    let result = order_book.process(&EngineEvent::OrderCancelled(CancellationEvent {
        instrument: InstrumentKey::Btc,
        order_id: 1,
        cancelled_at: now(),
        limit_price: dec(12002134, 4),
        quantity: dec(15, 0),
        side: Side::Buy,
        quantity_traded: dec(0, 0),
        quantity_remaining: dec(15, 0),
    }));

    let err = result.unwrap_err();

    assert_eq!(err.kind(), ErrorKind::Unsupported);
    assert_eq!(err.to_string(), "Not implemented");
}

#[test]
fn book_match_uses_best_levels() {
    let mut order_book = OrderBook::new(InstrumentKey::Btc);
    for (id, p) in [(1u64, 100i64), (2, 102), (3, 101)] {
        order_book.insert(resting(id, dec(p, 0), Side::Buy));
    }
    for (id, p) in [(4u64, 105i64), (5, 103), (6, 104)] {
        order_book.insert(resting(id, dec(p, 0), Side::Sell));
    }
    assert_eq!(order_book.match_sides(), None);

    order_book.insert(resting(7, dec(1030, 1), Side::Buy));

    assert_eq!(
        order_book.match_sides(),
        Some(MatchResult { bid_id: 7, ask_id: 5, bid_price: dec(103, 0), ask_price: dec(103, 0) })
    );
    // The level at 103 was created with the bid's own price, 103.0.
    assert_eq!(order_book.bids.last_key_value().unwrap().0.scale(), 1);
    assert_eq!(order_book.asks.first_key_value().unwrap().0, &dec(103, 0));
}

#[test]
fn book_refused_match_keeps_book() {
    let (bid, ask) = create_orders(
        (1, 2),
        (dec(12002134, 4), dec(12002134, 4)),
        (Side::Buy, Side::Sell),
        (dec(15, 0), dec(10, 0)),
    );
    let mut order_book = OrderBook::new(InstrumentKey::Btc);
    order_book.insert(bid);
    order_book.insert(ask);
    let bids_before = order_book.bids.clone();
    let asks_before = order_book.asks.clone();

    let err = order_book
        .process(&matched(1, 2, dec(1, 0), dec(12002134, 4)))
        .unwrap_err();

    assert_eq!(err, limit_order_book::book::BookError::BidLevelNotFound);
    assert_eq!(err.to_string(), "Unable to find price level on bid side");
    assert_eq!(order_book.bids, bids_before);
    assert_eq!(order_book.asks, asks_before);
    assert_eq!(order_book.executed_trades, 0);
    assert_eq!(order_book.events_processed, 0);
}

#[test]
fn book_process_rejects_other_events() {
    let mut order_book = OrderBook::new(InstrumentKey::Btc);
    let err = order_book.process(&EngineEvent::Shutdown).unwrap_err();
    assert_eq!(err.kind(), ErrorKind::Unsupported);
    assert_eq!(err.to_string(), "Executor does not support that EngineEvent");
    assert_eq!(order_book.events_processed, 0);
}

#[test]
fn book_process_cancellation_is_counted() {
    let mut order_book = OrderBook::new(InstrumentKey::Btc);
    let _ = order_book.process(&EngineEvent::OrderCancelled(CancellationEvent {
        instrument: InstrumentKey::Btc,
        order_id: 9,
        cancelled_at: now(),
        limit_price: dec(1, 0),
        quantity: dec(1, 0),
        side: Side::Sell,
        quantity_traded: dec(0, 0),
        quantity_remaining: dec(1, 0),
    }));
    assert_eq!(order_book.events_processed, 1);
    assert_eq!(order_book.cancelled_trades, 1);
}

#[test]
fn book_trade_fills_then_removes_emptied_level() {
    let mut order_book = OrderBook::new(InstrumentKey::Btc);
    order_book.insert(LimitOrder {
        quantity: dec(4, 0),
        quantity_remaining: dec(4, 0),
        ..resting(1, dec(10, 0), Side::Buy)
    });
    order_book.insert(LimitOrder {
        quantity: dec(4, 0),
        quantity_remaining: dec(4, 0),
        ..resting(2, dec(10, 0), Side::Buy)
    });
    order_book.insert(LimitOrder {
        quantity: dec(6, 0),
        quantity_remaining: dec(6, 0),
        ..resting(3, dec(9, 0), Side::Sell)
    });

    let t1 = order_book.process(&matched(1, 3, dec(10, 0), dec(9, 0))).unwrap();
    let EngineEvent::TradeExecuted(t1) = t1 else { panic!("Expected TradeExecuted event.") };
    assert_eq!(t1.trade_id, 1);
    assert_eq!(t1.executed_quantity, dec(4, 0));
    assert_eq!(t1.execution_price, dec(9, 0));
    // Bid 1 is filled and gone; ask 3 rests with 2 remaining.
    assert_eq!(order_book.bids.get(&dec(10, 0)).unwrap().len(), 1);
    let ask = order_book.asks.get(&dec(9, 0)).unwrap().front().unwrap();
    assert_eq!(ask.state, OrderState::PartiallyFulfilled);
    assert_eq!(ask.quantity_remaining, dec(2, 0));

    let t2 = order_book.process(&matched(2, 3, dec(10, 0), dec(9, 0))).unwrap();
    let EngineEvent::TradeExecuted(t2) = t2 else { panic!("Expected TradeExecuted event.") };
    assert_eq!(t2.trade_id, 2);
    assert_eq!(t2.executed_quantity, dec(2, 0));
    assert!(order_book.asks.is_empty());
    let bid = order_book.bids.get(&dec(10, 0)).unwrap().front().unwrap();
    assert_eq!(bid.state, OrderState::PartiallyFulfilled);
    assert_eq!(bid.quantity_traded, dec(2, 0));
    assert_eq!(order_book.order_count(), Some(1));
}

#[test]
fn book_failed_bid_fill_puts_orders_back() {
    let max = Dec::from_i128_with_scale(79228162514264337593543950335, 0);
    let mut order_book = OrderBook::new(InstrumentKey::Btc);
    order_book.insert(LimitOrder {
        quantity_traded: max,
        quantity_remaining: dec(5, 0),
        ..resting(1, dec(10, 0), Side::Buy)
    });
    order_book.insert(LimitOrder { quantity_remaining: dec(5, 0), ..resting(2, dec(9, 0), Side::Sell) });
    let bids_before = order_book.bids.clone();
    let asks_before = order_book.asks.clone();

    let err = order_book.process(&matched(1, 2, dec(10, 0), dec(9, 0))).unwrap_err();

    assert_eq!(err, limit_order_book::book::BookError::AdditionOverflow);
    assert_eq!(order_book.bids, bids_before);
    assert_eq!(order_book.asks, asks_before);
    assert_eq!(order_book.executed_trades, 0);
    assert_eq!(order_book.events_processed, 0);
}

#[test]
fn book_failed_ask_fill_puts_filled_bid_back() {
    let max = Dec::from_i128_with_scale(79228162514264337593543950335, 0);
    let mut order_book = OrderBook::new(InstrumentKey::Btc);
    order_book.insert(LimitOrder { quantity_remaining: dec(5, 0), ..resting(1, dec(10, 0), Side::Buy) });
    order_book.insert(LimitOrder {
        quantity_traded: max,
        quantity_remaining: dec(5, 0),
        ..resting(2, dec(9, 0), Side::Sell)
    });

    let err = order_book.process(&matched(1, 2, dec(10, 0), dec(9, 0))).unwrap_err();

    assert_eq!(err, limit_order_book::book::BookError::AdditionOverflow);
    let bid = order_book.bids.get(&dec(10, 0)).unwrap().front().unwrap();
    assert_eq!(bid.quantity_traded, dec(0, 0));
    assert_eq!(bid.quantity_remaining, dec(5, 0));
    assert_eq!(bid.state, OrderState::Open);
    let ask = order_book.asks.get(&dec(9, 0)).unwrap().front().unwrap();
    assert_eq!(ask.quantity_traded, max);
    assert_eq!(ask.quantity_remaining, dec(5, 0));
    assert_eq!(order_book.order_count(), Some(2));
}

#[test]
fn book_trade_takes_executed_quantity_off_each_side() {
    let mut order_book = OrderBook::new(InstrumentKey::Btc);
    order_book.insert(LimitOrder { quantity_remaining: dec(7, 0), ..resting(1, dec(10, 0), Side::Buy) });
    order_book.insert(LimitOrder { quantity_remaining: dec(3, 0), ..resting(2, dec(10, 0), Side::Buy) });
    order_book.insert(LimitOrder { quantity_remaining: dec(4, 0), ..resting(3, dec(9, 0), Side::Sell) });

    let t = order_book.process(&matched(1, 3, dec(10, 0), dec(9, 0))).unwrap();
    let EngineEvent::TradeExecuted(t) = t else { panic!("Expected TradeExecuted event.") };
    assert_eq!(t.executed_quantity, dec(4, 0));
    // Bids held 10 and now hold 6; the ask side held 4 and is empty.
    let bids = order_book.bids.get(&dec(10, 0)).unwrap();
    assert_eq!(bids[0].quantity_remaining, dec(3, 0));
    assert_eq!(bids[1].quantity_remaining, dec(3, 0));
    assert!(order_book.asks.is_empty());
    // One order left the book.
    assert_eq!(order_book.order_count(), Some(2));
}
