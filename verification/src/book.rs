//! The order book: bids and asks in price levels, each level a first-in first-out
//! queue of limit orders.

use std::collections::VecDeque;

use vstd::prelude::*;

use crate::clock::{local_now, Timestamp};
use crate::decimal::{decimal_lt, Dec};
use crate::engine::event::{EngineEvent, OrdersMatchedEvent};
use crate::engine::InstrumentKey;

pub mod error;
pub mod levels;
pub mod model;
pub mod order;
pub mod trade;

pub use error::{BookError, ErrorKind};
pub use levels::PriceLevels;
pub use order::{LimitOrder, OrderState, Side};
pub use trade::Trade;

pub use model::{
    lemma_best_levels, lemma_best_match_crosses, lemma_insert_appends_to_level, lemma_side_size_ge, BookModel, SideModel,
};

use levels::{has_price, index_of, insert_pos, lemma_index_of, lemma_same_prices, prices, strictly_ascending};
use model::{
    lemma_event_keeps_resting, lemma_insert_keeps_resting, lemma_match_keeps_resting,
    lemma_match_exact, lemma_put_after_take, lemma_side_size_prefix, lemma_side_size_take, lemma_side_with_front_size,
    lemma_side_with_order_size, lemma_side_without_front_size, queues, side_size, side_with_front,
    side_with_order, side_without_front,
};

verus! {

/// The order book of one instrument.
#[derive(Debug)]
pub struct OrderBook {
    pub instrument: InstrumentKey,
    pub asks: PriceLevels<VecDeque<LimitOrder>>,
    pub bids: PriceLevels<VecDeque<LimitOrder>>,
    orders_placed: u64,
    pub events_processed: u64,
    pub executed_trades: u64,
    pub cancelled_trades: u64,
}

/// The front bid and the front ask that cross.
#[derive(Debug, PartialEq, Clone, Copy)]
pub struct MatchResult {
    pub bid_id: u64,
    pub ask_id: u64,
    pub ask_price: Dec,
    pub bid_price: Dec,
}

impl View for OrderBook {
    type V = BookModel;

    closed spec fn view(&self) -> BookModel {
        BookModel {
            instrument: self.instrument,
            asks: queues(self.asks@),
            bids: queues(self.bids@),
            orders_placed: self.orders_placed,
            events_processed: self.events_processed,
            executed_trades: self.executed_trades,
            cancelled_trades: self.cancelled_trades,
        }
    }
}

/// The number of orders on a side, or `None` when it exceeds `u64::MAX`.
fn side_count(side: &PriceLevels<VecDeque<LimitOrder>>) -> (r: Option<u64>)
    ensures
        r == (if side_size(queues(side@)) <= u64::MAX {
            Some(side_size(queues(side@)) as u64)
        } else {
            None::<u64>
        }),
{
    let ghost q = queues(side@);
    let n = side.len();
    let mut total: u64 = 0;
    let mut i: usize = 0;
    assert(q.take(0) =~= Seq::<(Dec, Seq<LimitOrder>)>::empty());
    while i < n
        invariant
            n == side@.len(),
            q == queues(side@),
            i <= n,
            total == side_size(q.take(i as int)),
        decreases n - i,
    {
        proof {
            lemma_side_size_take(q, i as int);
        }
        let len = side.value_ref(i).len() as u64;
        match total.checked_add(len) {
            Some(t) => {
                total = t;
            },
            None => {
                proof {
                    assert(q.take(i + 1) =~= q.take(n as int).take(i + 1));
                    lemma_side_size_prefix(q, i + 1);
                }
                return None;
            },
        }
        i = i + 1;
    }
    assert(q.take(n as int) =~= q);
    Some(total)
}

proof fn lemma_queues_prices(s: Seq<(Dec, VecDeque<LimitOrder>)>)
    ensures
        prices(queues(s)) == prices(s),
        queues(s).len() == s.len(),
{
    assert(prices(queues(s)) =~= prices(s));
}

proof fn lemma_queues_lookup(s: Seq<(Dec, VecDeque<LimitOrder>)>, v: int)
    ensures
        index_of(queues(s), v) == index_of(s, v),
        insert_pos(queues(s), v) == insert_pos(s, v),
        has_price(queues(s), v) == has_price(s, v),
        strictly_ascending(queues(s)) == strictly_ascending(s),
{
    lemma_queues_prices(s);
    lemma_same_prices(queues(s), s, v);
}

impl OrderBook {
    /// Both sides ascend strictly by price.
    pub closed spec fn wf(&self) -> bool {
        self.asks.wf() && self.bids.wf()
    }

    pub broadcast proof fn lemma_wf(&self)
        ensures
            #[trigger] self.wf() == self@.wf(),
    {
        lemma_queues_lookup(self.asks@, 0);
        lemma_queues_lookup(self.bids@, 0);
    }

    pub fn new(instrument: InstrumentKey) -> (r: OrderBook)
        ensures
            r@ == (BookModel {
                instrument,
                asks: Seq::empty(),
                bids: Seq::empty(),
                orders_placed: 0,
                events_processed: 0,
                executed_trades: 0,
                cancelled_trades: 0,
            }),
            r.wf(),
            r@.resting_ok(),
    {
        let r = OrderBook {
            instrument,
            asks: PriceLevels::new(),
            bids: PriceLevels::new(),
            orders_placed: 0,
            events_processed: 0,
            executed_trades: 0,
            cancelled_trades: 0,
        };
        assert(queues(r.asks@) =~= Seq::empty());
        assert(queues(r.bids@) =~= Seq::empty());
        r
    }

    /// The instrument the book trades.
    pub fn instrument(&self) -> (r: InstrumentKey)
        ensures
            r == self@.instrument,
    {
        self.instrument
    }

    /// The number of orders resting in the book, or `None` when it exceeds `u64::MAX`.
    pub fn order_count(&self) -> (r: Option<u64>)
        ensures
            r == (if self@.order_count() <= u64::MAX {
                Some(self@.order_count() as u64)
            } else {
                None::<u64>
            }),
    {
        let a = side_count(&self.asks);
        let b = side_count(&self.bids);
        match (a, b) {
            (Some(x), Some(y)) => x.checked_add(y),
            _ => None,
        }
    }

    /// The number of trades executed so far.
    pub fn executed_trades(&self) -> (r: u64)
        ensures
            r == self@.executed_trades,
    {
        self.executed_trades
    }

    /// The number of events processed successfully or counted so far.
    pub fn events_processed(&self) -> (r: u64)
        ensures
            r == self@.events_processed,
    {
        self.events_processed
    }

    /// The number of orders inserted so far.
    pub fn orders_placed(&self) -> (r: u64)
        ensures
            r == self@.orders_placed,
    {
        self.orders_placed
    }

    /// Appends `limit_order` to the queue of its price level, creating the level when
    /// needed.
    fn push_back_or_create_price_level(
        order_book_side: &mut PriceLevels<VecDeque<LimitOrder>>,
        limit_order: LimitOrder,
    )
        requires
            old(order_book_side).wf(),
        ensures
            final(order_book_side).wf(),
            queues(final(order_book_side)@) == side_with_order(
                queues(old(order_book_side)@),
                limit_order,
            ),
    {
        let ghost s0 = order_book_side@;
        proof {
            lemma_queues_lookup(s0, limit_order.limit_price.val());
            lemma_index_of(s0, limit_order.limit_price.val());
        }
        match order_book_side.search(&limit_order.limit_price) {
            Ok(i) => {
                let q = order_book_side.value_mut(i);
                q.push_back(limit_order);
                proof {
                    assert(prices(order_book_side@) =~= prices(s0));
                    lemma_same_prices(order_book_side@, s0, 0);
                    assert(queues(order_book_side@) =~= side_with_order(queues(s0), limit_order));
                }
            },
            Err(_) => {
                let price = limit_order.limit_price;
                let mut q = VecDeque::new();
                q.push_back(limit_order);
                order_book_side.insert_new(price, q);
                proof {
                    assert(q@ =~= seq![limit_order]);
                    assert(queues(order_book_side@) =~= side_with_order(queues(s0), limit_order));
                }
            },
        }
    }

    /// Places `limit_order`: it becomes open and joins the back of the queue at its
    /// limit price, on the bid side for a buy and on the ask side for a sell.
    pub fn insert(&mut self, limit_order: LimitOrder)
        requires
            old(self).wf(),
            old(self)@.orders_placed < u64::MAX,
        ensures
            final(self).wf(),
            final(self)@ == old(self)@.after_insert(limit_order),
            final(self)@.order_count() == old(self)@.order_count() + 1,
            old(self)@.resting_ok() ==> final(self)@.resting_ok(),
    {
        proof {
            broadcast use OrderBook::lemma_wf;

            if self@.resting_ok() {
                lemma_insert_keeps_resting(self@, limit_order);
            }
            lemma_queues_lookup(self.bids@, 0);
            lemma_queues_lookup(self.asks@, 0);
            let o2 = LimitOrder { state: OrderState::Open, ..limit_order };
            lemma_side_with_order_size(self@.bids, o2);
            lemma_side_with_order_size(self@.asks, o2);
        }
        let mut limit_order = limit_order;
        self.orders_placed = self.orders_placed + 1;
        limit_order.state = OrderState::Open;
        match limit_order.side {
            Side::Buy => {
                OrderBook::push_back_or_create_price_level(&mut self.bids, limit_order);
            },
            Side::Sell => {
                OrderBook::push_back_or_create_price_level(&mut self.asks, limit_order);
            },
        }
    }

    /// Removes the level at `price_level` from `side`.
    fn remove_price_level(
        side: &mut PriceLevels<VecDeque<LimitOrder>>,
        price_level: &Dec,
    ) -> (r: Result<(), BookError>)
        requires
            old(side).wf(),
        ensures
            final(side).wf(),
            index_of(old(side)@, price_level.val()) >= 0 ==> r == Ok::<(), BookError>(()) && final(side)@ == old(
                side,
            )@.remove(index_of(old(side)@, price_level.val())),
            index_of(old(side)@, price_level.val()) < 0 ==> r == Err::<(), BookError>(
                BookError::PriceLevelMissing,
            ) && final(side)@ == old(side)@,
    {
        match side.remove(price_level) {
            Some(_) => Ok(()),
            None => Err(BookError::PriceLevelMissing),
        }
    }

    /// Removes the front order of the level at `price_level` on `side`, and the level
    /// too when that empties it.
    fn remove_front_in(
        side: &mut PriceLevels<VecDeque<LimitOrder>>,
        price_level: &Dec,
    ) -> (r: Result<(), BookError>)
        requires
            old(side).wf(),
        ensures
            final(side).wf(),
            (queues(final(side)@), r) == side_without_front(queues(old(side)@), *price_level),
    {
        let ghost s0 = side@;
        proof {
            lemma_queues_lookup(s0, price_level.val());
            lemma_index_of(s0, price_level.val());
        }
        let i = match side.search(price_level) {
            Ok(i) => i,
            Err(_) => return Err(BookError::PriceLevelMissing),
        };
        assert(queues(s0)[i as int].1 == s0[i as int].1@);
        if side.value_ref(i).len() == 0 {
            return Err(BookError::QueueEmpty);
        }
        let order = take_front(side, i);
        let ghost s1 = side@;
        proof {
            lemma_same_prices(s1, s0, 0);
            lemma_queues_lookup(s1, order.limit_price.val());
            lemma_index_of(s1, order.limit_price.val());
        }
        assert(queues(s1)[i as int].1 == s1[i as int].1@);
        if side.value_ref(i).len() == 0 {
            let r = OrderBook::remove_price_level(side, &order.limit_price);
            proof {
                let j = index_of(s1, order.limit_price.val());
                if j >= 0 {
                    assert(queues(side@) =~= queues(s1).remove(j));
                }
            }
            r
        } else {
            Ok(())
        }
    }

    /// Removes the front order of the level at `price_level` on the bid side for a
    /// buy and on the ask side for a sell, and the level too when that empties it.
    fn remove_front_order(&mut self, price_level: &Dec, side: Side) -> (r: Result<(), BookError>)
        requires
            old(self).wf(),
        ensures
            final(self).wf(),
            side == Side::Buy ==> (final(self)@.bids, r) == side_without_front(
                old(self)@.bids,
                *price_level,
            ) && final(self)@ == (BookModel { bids: final(self)@.bids, ..old(self)@ }),
            side == Side::Sell ==> (final(self)@.asks, r) == side_without_front(
                old(self)@.asks,
                *price_level,
            ) && final(self)@ == (BookModel { asks: final(self)@.asks, ..old(self)@ }),
    {
        match side {
            Side::Buy => OrderBook::remove_front_in(&mut self.bids, price_level),
            Side::Sell => OrderBook::remove_front_in(&mut self.asks, price_level),
        }
    }

    /// Executes a match between the front bid at the bid price and the front ask at the
    /// ask price.  A fill that fails puts both orders back as they were.
    #[verifier::rlimit(60)]
    #[verifier::spinoff_prover]
    fn process_match(&mut self, matched: &OrdersMatchedEvent, now: Timestamp) -> (r: Result<
        EngineEvent,
        BookError,
    >)
        requires
            old(self).wf(),
            old(self)@.executed_trades < u64::MAX,
            old(self)@.events_processed < u64::MAX,
        ensures
            final(self).wf(),
            (final(self)@, r) == old(self)@.after_match(*matched, now),
            r is Ok ==> final(self)@.order_count() < old(self)@.order_count(),
            old(self)@.resting_ok() && old(self)@.match_fills_fit(*matched) ==> (r is Ok <==> (
            index_of(old(self)@.bids, matched.bid_price.val()) >= 0 && index_of(
                old(self)@.asks,
                matched.ask_price.val(),
            ) >= 0)),
            old(self)@.resting_ok() && old(self)@.match_fills_fit(*matched) ==> (r matches Ok(
                EngineEvent::TradeExecuted(t),
            ) ==> old(self)@.exact_trade_effect(final(self)@, *matched, t)),
    {
        let ghost b0 = self@;
        proof {
            if b0.resting_ok() {
                lemma_match_keeps_resting(b0, *matched, now);
            }
        }
        let ghost bids0 = self.bids@;
        let ghost asks0 = self.asks@;
        proof {
            lemma_queues_lookup(bids0, matched.bid_price.val());
            lemma_queues_lookup(asks0, matched.ask_price.val());
            lemma_index_of(bids0, matched.bid_price.val());
            lemma_index_of(asks0, matched.ask_price.val());
        }
        let ib = match self.bids.search(&matched.bid_price) {
            Ok(i) => i,
            Err(_) => return Err(BookError::BidLevelNotFound),
        };
        assert(b0.bids[ib as int].1 == bids0[ib as int].1@);
        if self.bids.value_ref(ib).len() == 0 {
            return Err(BookError::BidQueueEmpty);
        }
        let ia = match self.asks.search(&matched.ask_price) {
            Ok(i) => i,
            Err(_) => return Err(BookError::AskLevelNotFound),
        };
        assert(b0.asks[ia as int].1 == asks0[ia as int].1@);
        if self.asks.value_ref(ia).len() == 0 {
            return Err(BookError::AskQueueEmpty);
        }
        let mut bid = take_front(&mut self.bids, ib);
        let mut ask = take_front(&mut self.asks, ia);
        let ghost bid0 = bid;
        let ghost ask0 = ask;
        let ghost bids_mid = queues(self.bids@);
        let ghost asks_mid = queues(self.asks@);
        proof {
            assert(b0.bids[ib as int].1 =~= b0.bids[ib as int].1.update(0, bid0));
            assert(b0.asks[ia as int].1 =~= b0.asks[ia as int].1.update(0, ask0));
            assert(side_with_front(b0.bids, ib as int, bid0) =~= b0.bids);
            assert(side_with_front(b0.asks, ia as int, ask0) =~= b0.asks);
        }
        if !bid.is_open() || !ask.is_open() {
            let e = BookError::InvalidOrderState { bid: bid.state, ask: ask.state };
            put_front(&mut self.bids, ib, bid);
            put_front(&mut self.asks, ia, ask);
            proof {
                lemma_same_prices(self.bids@, bids0, 0);
                lemma_same_prices(self.asks@, asks0, 0);
                lemma_put_after_take(b0.bids, bids_mid, self@.bids, ib as int, bid0);
                lemma_put_after_take(b0.asks, asks_mid, self@.asks, ia as int, ask0);
                assert(self@ == b0);
            }
            return Err(e);
        }
        let qty = bid.quantity_remaining.min(ask.quantity_remaining);
        let (bid_traded, bid_remaining) = (bid.quantity_traded, bid.quantity_remaining);
        let bid_fulfilled = match bid.adjust_quantities(qty) {
            Ok(f) => f,
            Err(e) => {
                bid.quantity_traded = bid_traded;
                bid.quantity_remaining = bid_remaining;
                assert(bid == bid0);
                put_front(&mut self.bids, ib, bid);
                put_front(&mut self.asks, ia, ask);
                proof {
                    lemma_same_prices(self.bids@, bids0, 0);
                    lemma_same_prices(self.asks@, asks0, 0);
                    lemma_put_after_take(b0.bids, bids_mid, self@.bids, ib as int, bid0);
                    lemma_put_after_take(b0.asks, asks_mid, self@.asks, ia as int, ask0);
                    assert(self@ == b0);
                }
                return Err(e);
            },
        };
        let (ask_traded, ask_remaining) = (ask.quantity_traded, ask.quantity_remaining);
        let ask_fulfilled = match ask.adjust_quantities(qty) {
            Ok(f) => f,
            Err(e) => {
                bid.quantity_traded = bid_traded;
                bid.quantity_remaining = bid_remaining;
                ask.quantity_traded = ask_traded;
                ask.quantity_remaining = ask_remaining;
                assert(bid == bid0);
                assert(ask == ask0);
                put_front(&mut self.bids, ib, bid);
                put_front(&mut self.asks, ia, ask);
                proof {
                    lemma_same_prices(self.bids@, bids0, 0);
                    lemma_same_prices(self.asks@, asks0, 0);
                    lemma_put_after_take(b0.bids, bids_mid, self@.bids, ib as int, bid0);
                    lemma_put_after_take(b0.asks, asks_mid, self@.asks, ia as int, ask0);
                    assert(self@ == b0);
                }
                return Err(e);
            },
        };
        proof {
            if b0.resting_ok() && b0.match_fills_fit(*matched) {
                lemma_match_exact(b0, *matched, now);
            }
        }
        let zero = Dec::zero();
        if bid_fulfilled {
            bid.state = OrderState::Fulfilled;
        } else if decimal_lt(&zero, &qty) {
            bid.state = OrderState::PartiallyFulfilled;
        }
        if ask_fulfilled {
            ask.state = OrderState::Fulfilled;
        } else if decimal_lt(&zero, &qty) {
            ask.state = OrderState::PartiallyFulfilled;
        }
        self.executed_trades = self.executed_trades + 1;
        let trade = Trade {
            instrument: self.instrument,
            trade_id: self.executed_trades,
            bid_order_id: bid.id,
            ask_order_id: ask.id,
            executed_at: now,
            execution_price: ask.limit_price,
            executed_quantity: qty,
        };
        let bid_price = bid.limit_price;
        let execution_price = ask.limit_price;
        put_front(&mut self.bids, ib, bid);
        put_front(&mut self.asks, ia, ask);
        proof {
            lemma_same_prices(self.bids@, bids0, 0);
            lemma_same_prices(self.asks@, asks0, 0);
            lemma_put_after_take(b0.bids, bids_mid, self@.bids, ib as int, bid);
            lemma_put_after_take(b0.asks, asks_mid, self@.asks, ia as int, ask);
            assert(self@ == BookModel {
                bids: side_with_front(b0.bids, ib as int, bid),
                asks: side_with_front(b0.asks, ia as int, ask),
                executed_trades: (b0.executed_trades + 1) as u64,
                ..b0
            });
        }
        proof {
            lemma_side_with_front_size(b0.bids, ib as int, bid);
            lemma_side_with_front_size(b0.asks, ia as int, ask);
            assert(bid_fulfilled || ask_fulfilled);
        }
        let ghost b3 = self@;
        if bid_fulfilled {
            proof {
                lemma_side_without_front_size(b3.bids, bid_price);
            }
            match self.remove_front_order(&bid_price, Side::Buy) {
                Ok(()) => {},
                Err(e) => return Err(e),
            }
        }
        let ghost b4 = self@;
        if ask_fulfilled {
            proof {
                lemma_side_without_front_size(b4.asks, execution_price);
            }
            match self.remove_front_order(&execution_price, Side::Sell) {
                Ok(()) => {},
                Err(e) => return Err(e),
            }
        }
        self.events_processed = self.events_processed + 1;
        Ok(EngineEvent::TradeExecuted(trade))
    }

    /// Processes `event` at time `now`: an `OrdersMatched` event is executed as a trade
    /// stamped `now`; a cancellation is counted and refused as not implemented; any
    /// other event is refused.  In a book whose orders rest where they belong, they go on
    /// doing so; a refusal (other than of a cancellation) changes nothing; a trade takes
    /// one or two orders off the book; and a match whose fills compute exactly succeeds
    /// exactly when both of its price levels exist, filling both front orders by the
    /// executed quantity.
    pub fn process_at(&mut self, event: &EngineEvent, now: Timestamp) -> (r: Result<
        EngineEvent,
        BookError,
    >)
        requires
            old(self).wf(),
            old(self)@.can_count(*event),
        ensures
            final(self).wf(),
            (final(self)@, r) == old(self)@.after_event(*event, now),
            r is Ok ==> final(self)@.order_count() < old(self)@.order_count(),
            old(self)@.resting_ok() ==> final(self)@.resting_ok(),
            old(self)@.resting_ok() && r is Ok ==> old(self)@.order_count()
                <= final(self)@.order_count() + 2,
            old(self)@.resting_ok() && r is Err && !(*event is OrderCancelled) ==> final(self)@
                == old(self)@,
            match *event {
                EngineEvent::OrdersMatched(m) => old(self)@.resting_ok()
                    && old(self)@.match_fills_fit(m) ==> {
                    &&& r is Ok <==> (index_of(old(self)@.bids, m.bid_price.val()) >= 0
                        && index_of(old(self)@.asks, m.ask_price.val()) >= 0)
                    &&& r matches Ok(EngineEvent::TradeExecuted(t))
                        ==> old(self)@.exact_trade_effect(final(self)@, m, t)
                },
                _ => true,
            },
    {
        proof {
            broadcast use OrderBook::lemma_wf;

            if self@.resting_ok() {
                lemma_event_keeps_resting(self@, *event, now);
            }
        }
        match event {
            EngineEvent::OrdersMatched(matched) => self.process_match(matched, now),
            EngineEvent::OrderCancelled(_) => {
                self.events_processed = self.events_processed + 1;
                self.cancelled_trades = self.cancelled_trades + 1;
                Err(BookError::NotImplemented)
            },
            _ => Err(BookError::UnsupportedEvent),
        }
    }

    /// Processes `event` at the current local time (see [`OrderBook::process_at`]).
    pub fn process(&mut self, event: &EngineEvent) -> (r: Result<EngineEvent, BookError>)
        requires
            old(self).wf(),
            old(self)@.can_count(*event),
        ensures
            final(self).wf(),
            exists|now: Timestamp| (final(self)@, r) == old(self)@.after_event(*event, now),
            r is Ok ==> final(self)@.order_count() < old(self)@.order_count(),
            old(self)@.resting_ok() ==> final(self)@.resting_ok(),
            old(self)@.resting_ok() && r is Ok ==> old(self)@.order_count()
                <= final(self)@.order_count() + 2,
            old(self)@.resting_ok() && r is Err && !(*event is OrderCancelled) ==> final(self)@
                == old(self)@,
            match *event {
                EngineEvent::OrdersMatched(m) => old(self)@.resting_ok()
                    && old(self)@.match_fills_fit(m) ==> {
                    &&& r is Ok <==> (index_of(old(self)@.bids, m.bid_price.val()) >= 0
                        && index_of(old(self)@.asks, m.ask_price.val()) >= 0)
                    &&& r matches Ok(EngineEvent::TradeExecuted(t))
                        ==> old(self)@.exact_trade_effect(final(self)@, m, t)
                },
                _ => true,
            },
    {
        let now = local_now();
        self.process_at(event, now)
    }

    /// The match between the best bid and the best ask, if they cross and are both open.
    pub fn match_sides(&self) -> (r: Option<MatchResult>)
        ensures
            r == self@.best_match(),
            r matches Some(res) ==> res.bid_price.val() >= res.ask_price.val(),
            self@.resting_ok() ==> (r is Some <==> (self@.bids.len() > 0 && self@.asks.len() > 0
                && self@.bids.last().0.val() >= self@.asks[0].0.val())),
    {
        proof {
            lemma_best_match_crosses(self@);
        }
        let lowest_ask = match self.asks.first_key_value() {
            Some(kv) => kv,
            None => return None,
        };
        let highest_bid = match self.bids.last_key_value() {
            Some(kv) => kv,
            None => return None,
        };
        proof {
            assert(self@.asks[0].1 == self.asks@[0].1@);
            assert(self@.bids.last().1 == self.bids@.last().1@);
        }
        if highest_bid.1.len() == 0 || lowest_ask.1.len() == 0 {
            return None;
        }
        let bid = &highest_bid.1[0];
        let ask = &lowest_ask.1[0];
        if !decimal_lt(&bid.limit_price, &ask.limit_price) && bid.is_open() && ask.is_open() {
            Some(
                MatchResult {
                    bid_id: bid.id,
                    ask_id: ask.id,
                    bid_price: bid.limit_price,
                    ask_price: ask.limit_price,
                },
            )
        } else {
            None
        }
    }
}


/// Takes the front order out of the queue at position `i`.
fn take_front(side: &mut PriceLevels<VecDeque<LimitOrder>>, i: usize) -> (o: LimitOrder)
    requires
        i < old(side)@.len(),
        old(side)@[i as int].1@.len() > 0,
    ensures
        o == queues(old(side)@)[i as int].1[0],
        queues(final(side)@) == queues(old(side)@).update(
            i as int,
            (queues(old(side)@)[i as int].0, queues(old(side)@)[i as int].1.drop_first()),
        ),
        prices(final(side)@) == prices(old(side)@),
        final(side)@.len() == old(side)@.len(),
{
    let ghost s0 = side@;
    let q = side.value_mut(i);
    let o = q.pop_front();
    proof {
        assert(prices(side@) =~= prices(s0));
        assert(queues(side@) =~= queues(s0).update(i as int, (s0[i as int].0, queues(s0)[i as int].1.drop_first())));
    }
    o.unwrap()
}

/// Puts `o` in front of the queue at position `i`.
fn put_front(side: &mut PriceLevels<VecDeque<LimitOrder>>, i: usize, o: LimitOrder)
    requires
        i < old(side)@.len(),
    ensures
        queues(final(side)@) == queues(old(side)@).update(
            i as int,
            (queues(old(side)@)[i as int].0, seq![o] + queues(old(side)@)[i as int].1),
        ),
        prices(final(side)@) == prices(old(side)@),
        final(side)@.len() == old(side)@.len(),
{
    let ghost s0 = side@;
    let q = side.value_mut(i);
    q.push_front(o);
    proof {
        assert(prices(side@) =~= prices(s0));
        assert(queues(side@) =~= queues(s0).update(i as int, (s0[i as int].0, seq![o] + queues(s0)[i as int].1)));
    }
}
} // verus!
