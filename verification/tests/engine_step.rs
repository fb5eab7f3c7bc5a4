use limit_order_book::book::{LimitOrder, OrderBook, OrderState, Side};
use limit_order_book::clock::Timestamp;
use limit_order_book::decimal::Dec;
use limit_order_book::engine::{
    can_handle_command, handle_command, CommandOutcome, EngineCommand, EngineEvent, InstrumentKey,
};

fn now() -> Timestamp {
    let t = chrono::Local::now();
    Timestamp { secs: t.timestamp(), subsec_nanos: t.timestamp_subsec_nanos() }
}

fn order(id: u64, price: Dec, qty: i64, side: Side) -> LimitOrder {
    LimitOrder {
        instrument: InstrumentKey::Btc,
        id,
        state: OrderState::New,
        placed_at: now(),
        limit_price: price,
        quantity: Dec::new(qty, 0),
        side,
        quantity_traded: Dec::new(0, 0),
        quantity_remaining: Dec::new(qty, 0),
    }
}

fn run(book: &mut OrderBook, command: EngineCommand) -> (Vec<EngineEvent>, CommandOutcome) {
    assert!(can_handle_command(book, &command));
    handle_command(book, command)
}

#[test]
fn handle_command_place_orders_emits_match_and_trade() {
    let mut book = OrderBook::new(InstrumentKey::Btc);

    let (events, outcome) =
        run(&mut book, EngineCommand::PlaceOrder(order(1, Dec::new(1500, 0), 10, Side::Buy)));
    assert_eq!(outcome, CommandOutcome::Continue);
    assert_eq!(events.len(), 1);
    assert!(matches!(
        &events[0],
        EngineEvent::OrderPlaced(e) if e.order_id == 1
            && e.instrument == InstrumentKey::Btc
            && e.state == OrderState::New
            && e.limit_price == Dec::new(1500, 0)
            && e.side == Side::Buy
            && e.quantity == Dec::new(10, 0)
            && e.quantity_traded == Dec::new(0, 0)
    ));

    let (events, outcome) =
        run(&mut book, EngineCommand::PlaceOrder(order(2, Dec::new(1500, 0), 10, Side::Sell)));
    assert_eq!(outcome, CommandOutcome::Continue);
    assert_eq!(events.len(), 3);
    assert!(matches!(
        &events[0],
        EngineEvent::OrderPlaced(e) if e.order_id == 2 && e.side == Side::Sell
    ));
    assert!(matches!(
        &events[1],
        EngineEvent::OrdersMatched(e) if e.instrument == InstrumentKey::Btc
            && e.bid_order_id == 1
            && e.ask_order_id == 2
            && e.ask_price == Dec::new(1500, 0)
            && e.bid_price == Dec::new(1500, 0)
    ));
    assert!(matches!(
        &events[2],
        EngineEvent::TradeExecuted(t) if t.trade_id == 1
            && t.instrument == InstrumentKey::Btc
            && t.bid_order_id == 1
            && t.ask_order_id == 2
            && t.executed_quantity == Dec::new(10, 0)
            && t.execution_price == Dec::new(1500, 0)
    ));
    assert!(book.bids.is_empty());
    assert!(book.asks.is_empty());
    assert_eq!(book.match_sides(), None);

    let (events, outcome) = run(&mut book, EngineCommand::Shutdown);
    assert_eq!(outcome, CommandOutcome::Shutdown);
    assert_eq!(events, vec![EngineEvent::Shutdown]);
}

#[test]
fn handle_command_order_cancelled() {
    let mut book = OrderBook::new(InstrumentKey::Btc);
    let o = order(1, Dec::new(1500, 0), 10, Side::Buy);

    run(&mut book, EngineCommand::PlaceOrder(o.clone()));
    let (events, outcome) = run(&mut book, EngineCommand::CancelOrder(o));

    assert_eq!(outcome, CommandOutcome::Continue);
    assert_eq!(events.len(), 1);
    assert!(matches!(
        &events[0],
        EngineEvent::OrderCancelled(e) if e.order_id == 1
            && e.instrument == InstrumentKey::Btc
            && e.quantity_traded == Dec::new(0, 0)
            && e.quantity_remaining == Dec::new(10, 0)
            && e.limit_price == Dec::new(1500, 0)
            && e.side == Side::Buy
            && e.quantity == Dec::new(10, 0)
    ));
    // The cancelled order still rests: cancellation is only recorded.
    assert_eq!(book.bids.len(), 1);
}

#[test]
fn handle_command_matches_across_levels_at_ask_prices() {
    let mut book = OrderBook::new(InstrumentKey::Btc);
    let bids = [
        order(1, Dec::new(12345600, 4), 50, Side::Buy),
        order(2, Dec::new(12345600, 4), 50, Side::Buy),
        order(3, Dec::new(12345320, 4), 50, Side::Buy),
    ];
    let asks = [
        order(4, Dec::new(11235698, 4), 50, Side::Sell),
        order(5, Dec::new(11235696, 4), 50, Side::Sell),
        order(6, Dec::new(11235698, 4), 50, Side::Sell),
    ];
    for b in bids {
        let (events, _) = run(&mut book, EngineCommand::PlaceOrder(b));
        assert_eq!(events.len(), 1);
    }
    let mut trades = vec![];
    for a in asks {
        let (events, outcome) = run(&mut book, EngineCommand::PlaceOrder(a));
        assert_eq!(outcome, CommandOutcome::Continue);
        for e in events {
            if let EngineEvent::TradeExecuted(t) = e {
                trades.push((t.trade_id, t.bid_order_id, t.ask_order_id, t.execution_price));
            }
        }
    }
    assert_eq!(
        trades,
        vec![
            (1, 1, 4, Dec::new(11235698, 4)),
            (2, 2, 5, Dec::new(11235696, 4)),
            (3, 3, 6, Dec::new(11235698, 4)),
        ]
    );
    assert!(book.bids.is_empty());
    assert!(book.asks.is_empty());
    assert_eq!(book.executed_trades, 3);
    assert_eq!(book.events_processed, 3);
    assert_eq!(book.orders_placed(), 6);
}

#[test]
fn handle_command_partial_fill_keeps_remainder_resting() {
    let mut book = OrderBook::new(InstrumentKey::Btc);
    run(&mut book, EngineCommand::PlaceOrder(order(1, Dec::new(100, 0), 15, Side::Sell)));
    let (events, _) = run(&mut book, EngineCommand::PlaceOrder(order(2, Dec::new(101, 0), 10, Side::Buy)));
    assert_eq!(events.len(), 3);
    let ask = book.asks.get(&Dec::new(100, 0)).unwrap().front().unwrap();
    assert_eq!(ask.state, OrderState::PartiallyFulfilled);
    assert_eq!(ask.quantity_remaining, Dec::new(5, 0));
    assert_eq!(ask.quantity_traded, Dec::new(10, 0));
    assert!(book.bids.is_empty());
    assert_eq!(book.order_count(), Some(1));
}

#[test]
fn handle_command_unexecutable_match_requests_shutdown() {
    let mut book = OrderBook::new(InstrumentKey::Btc);
    run(&mut book, EngineCommand::PlaceOrder(order(1, Dec::new(1500, 0), 10, Side::Buy)));
    // The resting bid's limit no longer names its level.
    book.bids.get_mut(&Dec::new(1500, 0)).unwrap().front_mut().unwrap().limit_price =
        Dec::new(1600, 0);

    let (events, outcome) =
        run(&mut book, EngineCommand::PlaceOrder(order(2, Dec::new(1500, 0), 10, Side::Sell)));

    assert_eq!(outcome, CommandOutcome::Shutdown);
    assert_eq!(events.len(), 2);
    assert!(matches!(&events[1], EngineEvent::OrdersMatched(e) if e.bid_price == Dec::new(1600, 0)));
    assert_eq!(book.executed_trades, 0);
}

#[test]
fn can_handle_command_allows_counters_up_to_the_headroom() {
    let mut book = OrderBook::new(InstrumentKey::Btc);
    book.executed_trades = u64::MAX;
    book.events_processed = u64::MAX;
    let place = EngineCommand::PlaceOrder(order(1, Dec::new(100, 0), 1, Side::Buy));
    assert!(can_handle_command(&book, &place));
    let (events, outcome) = handle_command(&mut book, place);
    assert_eq!(events.len(), 1);
    assert_eq!(outcome, CommandOutcome::Continue);
    // One resting order leaves no headroom for a match.
    let place = EngineCommand::PlaceOrder(order(2, Dec::new(100, 0), 1, Side::Sell));
    assert!(!can_handle_command(&book, &place));
}

#[test]
fn handle_command_trade_ids_run_on_within_one_placement() {
    let mut book = OrderBook::new(InstrumentKey::Btc);
    book.executed_trades = 7;
    run(&mut book, EngineCommand::PlaceOrder(order(1, Dec::new(100, 0), 2, Side::Sell)));
    run(&mut book, EngineCommand::PlaceOrder(order(2, Dec::new(101, 0), 2, Side::Sell)));
    run(&mut book, EngineCommand::PlaceOrder(order(3, Dec::new(102, 0), 2, Side::Sell)));
    let (events, outcome) =
        run(&mut book, EngineCommand::PlaceOrder(order(4, Dec::new(105, 0), 6, Side::Buy)));
    assert_eq!(outcome, CommandOutcome::Continue);
    assert_eq!(events.len(), 7);
    let mut ids = vec![];
    for pair in events[1..].chunks(2) {
        let EngineEvent::OrdersMatched(m) = &pair[0] else { panic!("Expected OrdersMatched event.") };
        let EngineEvent::TradeExecuted(t) = &pair[1] else { panic!("Expected TradeExecuted event.") };
        assert_eq!(t.bid_order_id, m.bid_order_id);
        assert_eq!(t.ask_order_id, m.ask_order_id);
        assert_eq!(t.execution_price, m.ask_price);
        ids.push(t.trade_id);
    }
    assert_eq!(ids, vec![8, 9, 10]);
    assert!(book.match_sides().is_none());
    assert_eq!(book.order_count(), Some(0));
}

#[test]
fn handle_command_fill_out_of_range_requests_shutdown_and_keeps_book() {
    let mut book = OrderBook::new(InstrumentKey::Btc);
    let max = Dec::from_i128_with_scale(79228162514264337593543950335, 0);
    let bid = LimitOrder { quantity_traded: max, ..order(1, Dec::new(100, 0), 5, Side::Buy) };
    run(&mut book, EngineCommand::PlaceOrder(bid));
    let (events, outcome) =
        run(&mut book, EngineCommand::PlaceOrder(order(2, Dec::new(100, 0), 5, Side::Sell)));
    assert_eq!(outcome, CommandOutcome::Shutdown);
    assert_eq!(events.len(), 2);
    assert!(matches!(&events[1], EngineEvent::OrdersMatched(m) if m.bid_order_id == 1 && m.ask_order_id == 2));
    // Both orders still rest, untouched.
    assert_eq!(book.order_count(), Some(2));
    let bid = book.bids.get(&Dec::new(100, 0)).unwrap().front().unwrap();
    assert_eq!(bid.quantity_traded, max);
    assert_eq!(bid.quantity_remaining, Dec::new(5, 0));
    assert_eq!(book.executed_trades, 0);
}
