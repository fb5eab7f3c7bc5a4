use limit_order_book::book::{BookError, ErrorKind, LimitOrder, OrderState, Side};
use limit_order_book::clock::Timestamp;
use limit_order_book::decimal::Dec;
use limit_order_book::engine::InstrumentKey;

fn now() -> Timestamp {
    let t = chrono::Local::now();
    Timestamp { secs: t.timestamp(), subsec_nanos: t.timestamp_subsec_nanos() }
}

fn order(id: u64, qty: i64, side: Side, state: OrderState) -> LimitOrder {
    LimitOrder {
        instrument: InstrumentKey::Btc,
        id,
        limit_price: Dec::new(100, 0),
        quantity: Dec::new(qty, 0),
        placed_at: now(),
        side,
        quantity_traded: Dec::new(0, 0),
        quantity_remaining: Dec::new(qty, 0),
        state,
    }
}

#[test]
fn is_open_true() {
    let bid1 = order(1, 10, Side::Buy, OrderState::Open);

    assert!(bid1.is_open());

    let bid2 = order(1, 10, Side::Buy, OrderState::PartiallyFulfilled);

    assert!(bid2.is_open());
}

#[test]
fn is_open_false() {
    let bid1 = order(1, 10, Side::Buy, OrderState::New);

    assert!(!bid1.is_open());

    let bid2 = order(1, 10, Side::Buy, OrderState::Fulfilled);

    assert!(!bid2.is_open());

    let bid3 = order(1, 10, Side::Buy, OrderState::Cancelled);

    assert!(!bid3.is_open());
}

#[test]
fn adjust_quantities_ok() {
    let mut bid = order(1, 15, Side::Buy, OrderState::New);
    let mut ask = order(2, 10, Side::Sell, OrderState::New);

    let qty = Dec::min(bid.quantity_remaining, ask.quantity_remaining);

    let bid_result = bid.adjust_quantities(qty);
    let ask_result = ask.adjust_quantities(qty);

    assert!(!bid_result.unwrap());
    assert_eq!(bid.quantity_remaining, Dec::new(5, 0));
    assert_eq!(bid.quantity_traded, Dec::new(10, 0));
    assert!(ask_result.unwrap());
    assert_eq!(ask.quantity_remaining, Dec::new(0, 0));
    assert_eq!(ask.quantity_traded, Dec::new(10, 0));
}

#[test]
fn adjust_quantities_err() {
    let mut bid = order(1, 15, Side::Buy, OrderState::New);

    let qty = Dec::new(100, 0);

    let result = bid.adjust_quantities(qty);

    let err = result.unwrap_err();

    assert_eq!(err.kind(), ErrorKind::Other);
    assert_eq!(err.to_string(), "Quantity remaining dropped below 0.");
    assert_eq!(bid.quantity_remaining, Dec::new(-85, 0));
    assert_eq!(bid.quantity_traded, Dec::new(100, 0));
}

#[test]
fn adjust_quantities_mixed_scales_are_exact() {
    // 1.5 traded of 2.25: the quantities keep the larger scale and stay exact.
    let mut o = order(7, 0, Side::Sell, OrderState::Open);
    o.quantity_remaining = Dec::new(225, 2);
    o.quantity_traded = Dec::new(0, 0);
    let filled = o.adjust_quantities(Dec::new(15, 1)).unwrap();
    assert!(!filled);
    assert_eq!(o.quantity_remaining, Dec::new(75, 2));
    assert_eq!(o.quantity_traded, Dec::new(15, 1));
    // The last 0.75 fills it.
    assert!(o.adjust_quantities(Dec::new(75, 2)).unwrap());
    assert_eq!(o.quantity_remaining, Dec::new(0, 0));
    assert_eq!(o.quantity_traded, Dec::new(225, 2));
}

#[test]
fn adjust_quantities_overflow_is_an_error() {
    let mut o = order(8, 1, Side::Buy, OrderState::Open);
    o.quantity_traded = Dec::from_i128_with_scale(limit_order_book::decimal::MAX_MANTISSA, 0);
    let before = o.clone();

    let result = o.adjust_quantities(Dec::new(1, 0));

    assert_eq!(result, Err(BookError::AdditionOverflow));
    assert_eq!(o, before);
    let err = result.unwrap_err();
    assert_eq!(err.kind(), ErrorKind::Other);
    assert_eq!(err.to_string(), "Addition overflowed");
}

#[test]
fn decimal_equality_is_by_value() {
    assert_eq!(Dec::new(15, 1), Dec::new(150, 2));
    assert_ne!(Dec::new(15, 1), Dec::new(15, 2));
    assert_eq!(Dec::new(-0, 3), Dec::zero());
}

#[test]
fn decimal_min_prefers_self_on_ties() {
    let a = Dec::new(10, 0);
    let b = Dec::new(100, 1);
    let m = a.min(b);
    assert_eq!(m.scale(), 0);
    let m = b.min(a);
    assert_eq!(m.scale(), 1);
    assert_eq!(Dec::new(3, 0).min(Dec::new(29, 1)), Dec::new(29, 1));
}

#[test]
fn order_state_names() {
    assert_eq!(OrderState::New.name(), "New");
    assert_eq!(OrderState::PartiallyFulfilled.name(), "PartiallyFulfilled");
    let err = BookError::InvalidOrderState { bid: OrderState::Open, ask: OrderState::Cancelled };
    assert_eq!(err.kind(), ErrorKind::InvalidData);
    assert_eq!(err.to_string(), "Invalid order state. Bid: Open; Ask: Cancelled");
}
