//! The decisions of the matching engine: what a command does to an instrument's
//! order book, and which events it emits, in order.

use vstd::prelude::*;

use crate::book::levels::lemma_index_of;
use crate::book::model::{
    lemma_best_match_crosses, lemma_match_keeps_resting, lemma_refused_match_keeps_book, level_ok,
    rests_at,
};
use crate::book::{
    lemma_side_size_ge, BookModel, LimitOrder, MatchResult, OrderBook, Side,
};
use crate::clock::{local_now, Timestamp};
use crate::decimal::Dec;

pub mod event;

pub use event::{
    CancellationEvent, CommandOutcome, EngineCommand, EngineEvent, OrderPlacedEvent,
    OrdersMatchedEvent,
};

verus! {

/// The instruments that the engine trades.
#[derive(Eq, PartialEq, Clone, Copy, Hash, Debug)]
pub enum InstrumentKey {
    Btc,
    Eth,
}

/// The event that announces `res` as a match of book `b`'s instrument at time `t`.
pub open spec fn matched_event(b: BookModel, res: MatchResult, t: Timestamp) -> OrdersMatchedEvent {
    OrdersMatchedEvent {
        instrument: b.instrument,
        bid_order_id: res.bid_id,
        ask_order_id: res.ask_id,
        ask_price: res.ask_price,
        bid_price: res.bid_price,
        matched_at: t,
    }
}

/// Matching until the book no longer crosses, with the clock reading `times` in turn
/// (two readings per match: when it is announced and when it executes).  Each match
/// emits an `OrdersMatched` event and, when the book executes it, the trade; a match
/// that fails to execute stops the run and asks for shutdown.  `None` when `times`
/// runs out first.
pub open spec fn match_run(b: BookModel, times: Seq<Timestamp>) -> Option<
    (BookModel, Seq<EngineEvent>, CommandOutcome),
>
    decreases times.len(),
{
    match b.best_match() {
        None => Some((b, Seq::empty(), CommandOutcome::Continue)),
        Some(res) => if times.len() < 2 {
            None
        } else {
            let m = matched_event(b, res, times[0]);
            let (b1, r) = b.after_event(EngineEvent::OrdersMatched(m), times[1]);
            match r {
                Err(_) => Some((b1, seq![EngineEvent::OrdersMatched(m)], CommandOutcome::Shutdown)),
                Ok(e) => match match_run(b1, times.subrange(2, times.len() as int)) {
                    Some(rest) => Some(
                        (rest.0, seq![EngineEvent::OrdersMatched(m), e] + rest.1, rest.2),
                    ),
                    None => None,
                },
            }
        },
    }
}

/// The event that records the placement of `o` at time `t`.
pub open spec fn placed_event(o: LimitOrder, t: Timestamp) -> OrderPlacedEvent {
    OrderPlacedEvent {
        instrument: o.instrument,
        order_id: o.id,
        state: o.state,
        placed_at: o.placed_at,
        accepted_at: t,
        limit_price: o.limit_price,
        quantity: o.quantity,
        side: o.side,
        quantity_traded: Dec::from_parts((0i128, 0u32)),
        quantity_remaining: o.quantity_remaining,
    }
}

/// The event that records the cancellation of `o` at time `t`.
pub open spec fn cancelled_event(o: LimitOrder, t: Timestamp) -> CancellationEvent {
    CancellationEvent {
        instrument: o.instrument,
        order_id: o.id,
        cancelled_at: t,
        limit_price: o.limit_price,
        quantity: o.quantity,
        side: o.side,
        quantity_traded: Dec::from_parts((0i128, 0u32)),
        quantity_remaining: o.quantity_remaining,
    }
}

/// What `cmd` does to book `b`, with the clock reading `times` in turn: the book after
/// it, the events it emits in order, and whether the worker goes on.
///  - Placing an order records it, inserts it, and matches until the book no longer
///    crosses.
///  - Cancelling an order records the cancellation and changes nothing else.
///  - Shutdown records the shutdown and stops the worker.
pub open spec fn command_run(b: BookModel, cmd: EngineCommand, times: Seq<Timestamp>) -> Option<
    (BookModel, Seq<EngineEvent>, CommandOutcome),
> {
    match cmd {
        EngineCommand::PlaceOrder(o) => if times.len() < 1 {
            None
        } else {
            let placed = EngineEvent::OrderPlaced(placed_event(o, times[0]));
            match match_run(b.after_insert(o), times.drop_first()) {
                Some(rest) => Some((rest.0, seq![placed] + rest.1, rest.2)),
                None => None,
            }
        },
        EngineCommand::CancelOrder(o) => if times.len() < 1 {
            None
        } else {
            Some(
                (
                    b,
                    seq![EngineEvent::OrderCancelled(cancelled_event(o, times[0]))],
                    CommandOutcome::Continue,
                ),
            )
        },
        EngineCommand::Shutdown => Some(
            (b, seq![EngineEvent::Shutdown], CommandOutcome::Shutdown),
        ),
    }
}

/// The book's counters cannot overflow while `cmd` runs: a match needs an order on each
/// side and every match that executes takes at least one order off the book, so placing
/// an order into a book of `n` orders executes at most `n` matches.
pub open spec fn can_handle(b: BookModel, cmd: EngineCommand) -> bool {
    match cmd {
        EngineCommand::PlaceOrder(_) => {
            &&& b.orders_placed < u64::MAX
            &&& b.executed_trades + b.order_count() <= u64::MAX
            &&& b.events_processed + b.order_count() <= u64::MAX
        },
        _ => true,
    }
}

/// Whether the pair of events at positions `2k` and `2k + 1` of `evs` is a match and,
/// where anything follows it, the trade that executes it: the trade has id
/// `last + k + 1`, the matched orders' ids, and the ask's price.
pub open spec fn match_pair_ok(evs: Seq<EngineEvent>, k: int, last: u64) -> bool {
    match evs[2 * k] {
        EngineEvent::OrdersMatched(m) => 2 * k + 1 < evs.len() ==> match evs[2 * k + 1] {
            EngineEvent::TradeExecuted(t) => {
                &&& t.trade_id == last + k + 1
                &&& t.bid_order_id == m.bid_order_id
                &&& t.ask_order_id == m.ask_order_id
                &&& t.execution_price.val() == m.ask_price.val()
            },
            _ => false,
        },
        _ => false,
    }
}

/// Whether `evs` is what a run of matches emits after the trade with id `last`: each
/// match followed by the trade that executes it, the trade ids running on from
/// `last + 1` without a gap, and at most one last match that did not execute.
pub open spec fn trades_follow_matches(evs: Seq<EngineEvent>, last: u64) -> bool {
    forall|k: int| 0 <= k && 2 * k < evs.len() ==> #[trigger] match_pair_ok(evs, k, last)
}

/// A run of matches in a book whose orders rest where they belong keeps them so, and
/// emits each match followed by its trade, with trade ids that run on from the book's
/// last one (as long as they do not pass `u64::MAX`).
pub proof fn lemma_match_run_trades(b: BookModel, times: Seq<Timestamp>)
    requires
        b.wf(),
        b.resting_ok(),
    ensures
        match_run(b, times) matches Some(r) ==> {
            &&& r.0.wf()
            &&& r.0.resting_ok()
            &&& b.executed_trades + r.1.len() / 2 <= u64::MAX ==> trades_follow_matches(
                r.1,
                b.executed_trades,
            )
        },
    decreases times.len(),
{
    if b.best_match() is Some && times.len() >= 2 {
        let res = b.best_match().unwrap();
        let m = matched_event(b, res, times[0]);
        let (b1, r) = b.after_event(EngineEvent::OrdersMatched(m), times[1]);
        lemma_match_keeps_resting(b, m, times[1]);
        let rest_times = times.subrange(2, times.len() as int);
        lemma_match_run_trades(b1, rest_times);
        let bid = b.bids.last().1[0];
        let ask = b.asks[0].1[0];
        assert(level_ok(b.bids[b.bids.len() - 1], Side::Buy));
        assert(level_ok(b.asks[0], Side::Sell));
        assert(rests_at(bid, b.bids.last().0, Side::Buy));
        assert(rests_at(ask, b.asks[0].0, Side::Sell));
        lemma_index_of(b.bids, bid.limit_price.val());
        lemma_index_of(b.asks, ask.limit_price.val());
        if let Some(out) = match_run(b, times) {
            let evs = out.1;
            if b.executed_trades + evs.len() / 2 <= u64::MAX {
                match r {
                    Err(_) => {
                        assert(match_pair_ok(evs, 0, b.executed_trades));
                    },
                    Ok(e) => {
                        let rest = match_run(b1, rest_times).unwrap();
                        assert(evs == seq![EngineEvent::OrdersMatched(m), e] + rest.1);
                        let last1 = (b.executed_trades + 1) as u64;
                        assert forall|k: int| 0 <= k && 2 * k < evs.len() implies #[trigger] match_pair_ok(
                            evs,
                            k,
                            b.executed_trades,
                        ) by {
                            if k > 0 {
                                assert(match_pair_ok(rest.1, k - 1, last1));
                                assert(evs[2 * k] == rest.1[2 * (k - 1)]);
                                if 2 * k + 1 < evs.len() {
                                    assert(evs[2 * k + 1] == rest.1[2 * (k - 1) + 1]);
                                }
                            }
                        }
                    },
                }
            }
        }
    }
}

/// Whether `e` is an event of a run of matches on a book of instrument `inst`: a match
/// or a trade of that instrument.
pub open spec fn run_event_of(e: EngineEvent, inst: InstrumentKey) -> bool {
    match e {
        EngineEvent::OrdersMatched(m) => m.instrument == inst,
        EngineEvent::TradeExecuted(t) => t.instrument == inst,
        _ => false,
    }
}

/// A run of matches keeps the book's instrument and emits only matches and trades of
/// that instrument; its first event, if any, announces the match between the front order
/// of the highest bid level and the front order of the lowest ask level, by their ids
/// and limit prices.
pub proof fn lemma_match_run_events(b: BookModel, times: Seq<Timestamp>)
    ensures
        match_run(b, times) matches Some(r) ==> {
            &&& r.0.instrument == b.instrument
            &&& forall|i: int| 0 <= i < r.1.len() ==> #[trigger] run_event_of(r.1[i], b.instrument)
            &&& r.1.len() > 0 ==> {
                &&& b.bids.len() > 0
                &&& b.asks.len() > 0
                &&& b.bids.last().1.len() > 0
                &&& b.asks[0].1.len() > 0
                &&& r.1[0] matches EngineEvent::OrdersMatched(m) && {
                    &&& m.bid_order_id == b.bids.last().1[0].id
                    &&& m.ask_order_id == b.asks[0].1[0].id
                    &&& m.bid_price == b.bids.last().1[0].limit_price
                    &&& m.ask_price == b.asks[0].1[0].limit_price
                    &&& m.bid_price.val() >= m.ask_price.val()
                }
            }
        },
    decreases times.len(),
{
    lemma_best_match_crosses(b);
    if b.best_match() is Some && times.len() >= 2 {
        let res = b.best_match().unwrap();
        let m = matched_event(b, res, times[0]);
        let (b1, r) = b.after_event(EngineEvent::OrdersMatched(m), times[1]);
        lemma_refused_match_keeps_book(b, m, times[1]);
        let rest_times = times.subrange(2, times.len() as int);
        lemma_match_run_events(b1, rest_times);
        if let Some(out) = match_run(b, times) {
            let evs = out.1;
            match r {
                Err(_) => {
                    assert(evs == seq![EngineEvent::OrdersMatched(m)]);
                    assert(run_event_of(evs[0], b.instrument));
                },
                Ok(e) => {
                    let rest = match_run(b1, rest_times).unwrap();
                    assert(evs == seq![EngineEvent::OrdersMatched(m), e] + rest.1);
                    assert forall|i: int| 0 <= i < evs.len() implies #[trigger] run_event_of(
                        evs[i],
                        b.instrument,
                    ) by {
                        if i >= 2 {
                            assert(evs[i] == rest.1[i - 2]);
                            assert(run_event_of(rest.1[i - 2], b1.instrument));
                        }
                    }
                },
            }
        }
    }
}

/// What a command emits, by the command: placing order `o` first records the order as
/// given (its id, instrument, state, limit price, quantity, side, time of placement and
/// remaining quantity, with nothing traded) and then emits only matches and trades of
/// the book's instrument; cancelling order `o` emits just the record of the
/// cancellation, by the same fields of `o`; shutting down emits just the shutdown.  The
/// book's instrument never changes.
pub proof fn lemma_command_events(b: BookModel, cmd: EngineCommand, times: Seq<Timestamp>)
    ensures
        command_run(b, cmd, times) matches Some(r) ==> {
            &&& r.0.instrument == b.instrument
            &&& match cmd {
                EngineCommand::PlaceOrder(o) => {
                    &&& r.1.len() >= 1
                    &&& r.1[0] matches EngineEvent::OrderPlaced(p) && placed_as(p, o)
                    &&& forall|i: int| 1 <= i < r.1.len() ==> #[trigger] run_event_of(
                        r.1[i],
                        b.instrument,
                    )
                },
                EngineCommand::CancelOrder(o) => {
                    &&& r.1.len() == 1
                    &&& r.1[0] matches EngineEvent::OrderCancelled(c) && cancelled_as(c, o)
                },
                EngineCommand::Shutdown => r.1 == seq![EngineEvent::Shutdown],
            }
        },
{
    broadcast use Dec::lemma_from_parts_view;

    if let EngineCommand::PlaceOrder(o) = cmd {
        if times.len() >= 1 {
            let b1 = b.after_insert(o);
            lemma_match_run_events(b1, times.drop_first());
            if let Some(r) = command_run(b, cmd, times) {
                let rest = match_run(b1, times.drop_first()).unwrap();
                assert forall|i: int| 1 <= i < r.1.len() implies #[trigger] run_event_of(
                    r.1[i],
                    b.instrument,
                ) by {
                    assert(r.1[i] == rest.1[i - 1]);
                    assert(run_event_of(rest.1[i - 1], b1.instrument));
                }
            }
        }
    }
}

/// Whether `p` records the placement of order `o` as given, with nothing traded.
pub open spec fn placed_as(p: OrderPlacedEvent, o: LimitOrder) -> bool {
    &&& p.instrument == o.instrument
    &&& p.order_id == o.id
    &&& p.state == o.state
    &&& p.placed_at == o.placed_at
    &&& p.limit_price == o.limit_price
    &&& p.quantity == o.quantity
    &&& p.side == o.side
    &&& p.quantity_traded@ == (0i128, 0u32)
    &&& p.quantity_remaining == o.quantity_remaining
}

/// Whether `c` records the cancellation of order `o` as given, with nothing traded.
pub open spec fn cancelled_as(c: CancellationEvent, o: LimitOrder) -> bool {
    &&& c.instrument == o.instrument
    &&& c.order_id == o.id
    &&& c.limit_price == o.limit_price
    &&& c.quantity == o.quantity
    &&& c.side == o.side
    &&& c.quantity_traded@ == (0i128, 0u32)
    &&& c.quantity_remaining == o.quantity_remaining
}

/// Matching that goes on ends with a book that no longer crosses.
pub proof fn lemma_match_run_settles(b: BookModel, times: Seq<Timestamp>)
    ensures
        match_run(b, times) matches Some(r) ==> (r.2 == CommandOutcome::Continue
            ==> r.0.best_match() is None),
    decreases times.len(),
{
    if b.best_match() is Some && times.len() >= 2 {
        let res = b.best_match().unwrap();
        let m = matched_event(b, res, times[0]);
        let (b1, r) = b.after_event(EngineEvent::OrdersMatched(m), times[1]);
        lemma_match_run_settles(b1, times.subrange(2, times.len() as int));
    }
}

/// After placing an order, the worker goes on only with a book that no longer crosses.
pub proof fn lemma_place_order_settles(b: BookModel, o: LimitOrder, times: Seq<Timestamp>)
    ensures
        command_run(b, EngineCommand::PlaceOrder(o), times) matches Some(r) ==> (r.2
            == CommandOutcome::Continue ==> r.0.best_match() is None),
{
    if times.len() >= 1 {
        lemma_match_run_settles(b.after_insert(o), times.drop_first());
    }
}

/// Cancelling an order and shutting down leave the book as it was, and only shutting
/// down stops the worker.
pub proof fn lemma_other_commands_keep_book(b: BookModel, cmd: EngineCommand, times: Seq<Timestamp>)
    requires
        !(cmd is PlaceOrder),
    ensures
        command_run(b, cmd, times) matches Some(r) ==> r.0 == b && (r.2 == CommandOutcome::Shutdown
            <==> cmd is Shutdown),
{
}

/// Whether [`handle_command`] may run `command` on `order_book` without a counter of
/// the book overflowing.
pub fn can_handle_command(order_book: &OrderBook, command: &EngineCommand) -> (r: bool)
    ensures
        r == can_handle(order_book@, *command),
{
    match command {
        EngineCommand::PlaceOrder(_) => {
            let count = match order_book.order_count() {
                Some(c) => c,
                None => return false,
            };
            let placed = order_book.orders_placed();
            let executed = order_book.executed_trades();
            let processed = order_book.events_processed();
            placed < u64::MAX && (executed as u128) + (count as u128) <= (u64::MAX as u128)
                && (processed as u128) + (count as u128) <= (u64::MAX as u128)
        },
        _ => true,
    }
}

/// Matches the best bid against the best ask until the book no longer crosses,
/// appending the events to `events`.
fn run_matches(order_book: &mut OrderBook, events: &mut Vec<EngineEvent>) -> (out: CommandOutcome)
    requires
        old(order_book).wf(),
        old(order_book)@.executed_trades + old(order_book)@.order_count() <= u64::MAX + 1,
        old(order_book)@.events_processed + old(order_book)@.order_count() <= u64::MAX + 1,
    ensures
        final(order_book).wf(),
        exists|times: Seq<Timestamp>| #[trigger]
            match_run(old(order_book)@, times) == Some(
                (final(order_book)@, final(events)@.subrange(old(events)@.len() as int, final(events)@.len() as int), out),
            ),
        old(events)@.len() <= final(events)@.len(),
        final(events)@.subrange(0, old(events)@.len() as int) == old(events)@,
        old(order_book)@.resting_ok() ==> final(order_book)@.resting_ok(),
        final(events)@.len() == old(events)@.len() || final(events)@.len() + 2 <= old(events)@.len()
            + 2 * old(order_book)@.order_count(),
        out == CommandOutcome::Continue && final(events)@.len() > old(events)@.len()
            ==> final(events)@.last() is TradeExecuted,
        out == CommandOutcome::Shutdown ==> final(events)@.len() > old(events)@.len(),
        out == CommandOutcome::Shutdown ==> final(events)@.last() is OrdersMatched,
        old(order_book)@.resting_ok() && out == CommandOutcome::Shutdown ==> (final(events)@.last()
            matches EngineEvent::OrdersMatched(m) && !final(order_book)@.match_fills_fit(m)),
    decreases old(order_book)@.order_count(),
{
    let ghost b0 = order_book@;
    let ghost ev0 = events@;
    match order_book.match_sides() {
        None => {
            proof {
                let times = Seq::<Timestamp>::empty();
                assert(events@.subrange(ev0.len() as int, events@.len() as int) =~= Seq::<EngineEvent>::empty());
                assert(events@.subrange(0, ev0.len() as int) =~= ev0);
                assert(match_run(b0, times) == Some((order_book@, events@.subrange(ev0.len() as int, events@.len() as int), CommandOutcome::Continue)));
            }
            CommandOutcome::Continue
        },
        Some(result) => {
            proof {
                lemma_side_size_ge(b0.bids, b0.bids.len() - 1);
                lemma_side_size_ge(b0.asks, 0);
            }
            let matched_at = local_now();
            let match_event = EngineEvent::OrdersMatched(
                OrdersMatchedEvent {
                    instrument: order_book.instrument(),
                    bid_order_id: result.bid_id,
                    ask_order_id: result.ask_id,
                    ask_price: result.ask_price,
                    bid_price: result.bid_price,
                    matched_at,
                },
            );
            let res = order_book.process(&match_event);
            let ghost t1 = choose|now: Timestamp| (order_book@, res) == b0.after_event(match_event, now);
            proof {
                let m = match_event->OrdersMatched_0;
                lemma_refused_match_keeps_book(b0, m, t1);
                if b0.resting_ok() {
                    OrderBook::lemma_wf(order_book);
                    let bid = b0.bids.last().1[0];
                    let ask = b0.asks[0].1[0];
                    assert(level_ok(b0.bids[b0.bids.len() - 1], Side::Buy));
                    assert(level_ok(b0.asks[0], Side::Sell));
                    assert(rests_at(bid, b0.bids.last().0, Side::Buy));
                    assert(rests_at(ask, b0.asks[0].0, Side::Sell));
                    lemma_index_of(b0.bids, bid.limit_price.val());
                    lemma_index_of(b0.asks, ask.limit_price.val());
                }
            }
            let ghost b1 = order_book@;
            events.push(match_event);
            match res {
                Ok(event) => {
                    events.push(event);
                    let ghost ev1 = events@;
                    let out = run_matches(order_book, events);
                    proof {
                        let trec = choose|times: Seq<Timestamp>| #[trigger]
                            match_run(b1, times) == Some(
                                (order_book@, events@.subrange(ev1.len() as int, events@.len() as int), out),
                            );
                        let times = seq![matched_at, t1] + trec;
                        assert(times.subrange(2, times.len() as int) =~= trec);
                        assert(ev1 == ev0.push(match_event).push(event));
                        assert(events@.subrange(0, ev1.len() as int) == ev1);
                        assert(events@[ev0.len() as int] == ev1[ev0.len() as int]);
                        assert(events@[ev0.len() + 1int] == ev1[ev0.len() + 1int]);
                        assert(events@.subrange(ev0.len() as int, events@.len() as int) =~= seq![match_event, event] + events@.subrange(ev1.len() as int, events@.len() as int));
                        assert(ev1.subrange(0, ev0.len() as int) =~= ev0);
                        assert(events@.subrange(0, ev0.len() as int) =~= ev0);
                        assert(match_run(b0, times) == Some((order_book@, events@.subrange(ev0.len() as int, events@.len() as int), out)));
                    }
                    out
                },
                Err(_) => {
                    proof {
                        let times = seq![matched_at, t1];
                        assert(times.subrange(2, times.len() as int) =~= Seq::<Timestamp>::empty());
                        assert(events@.subrange(ev0.len() as int, events@.len() as int) =~= seq![match_event]);
                        assert(events@.subrange(0, ev0.len() as int) =~= ev0);
                        assert(match_run(b0, times) == Some((order_book@, events@.subrange(ev0.len() as int, events@.len() as int), CommandOutcome::Shutdown)));
                    }
                    CommandOutcome::Shutdown
                },
            }
        },
    }
}

/// Handles one command to an instrument's worker: returns the events to emit, in
/// order, and whether the worker goes on (see [`command_run`]; the clock readings
/// stamped on the events are whatever the local clock reports).  A placement emits at
/// most two events per order already resting, after its own.  In a book whose orders
/// rest where they belong, they go on doing so, the trades of a placement carry the
/// ids that follow the book's last one, and a placement stops the worker exactly when
/// its last match could not be filled within the decimal range.
pub fn handle_command(order_book: &mut OrderBook, command: EngineCommand) -> (r: (
    Vec<EngineEvent>,
    CommandOutcome,
))
    requires
        old(order_book).wf(),
        can_handle(old(order_book)@, command),
    ensures
        final(order_book).wf(),
        exists|times: Seq<Timestamp>| #[trigger]
            command_run(old(order_book)@, command, times) == Some((final(order_book)@, r.0@, r.1)),
        r.0@.len() <= 2 * old(order_book)@.order_count() + 1,
        old(order_book)@.resting_ok() ==> final(order_book)@.resting_ok(),
        old(order_book)@.resting_ok() && command is PlaceOrder ==> trades_follow_matches(
            r.0@.drop_first(),
            old(order_book)@.executed_trades,
        ),
        final(order_book)@.instrument == old(order_book)@.instrument,
        match command {
            EngineCommand::PlaceOrder(o) => {
                &&& r.0@.len() >= 1
                &&& r.0@[0] matches EngineEvent::OrderPlaced(p) && placed_as(p, o)
                &&& forall|i: int| 1 <= i < r.0@.len() ==> #[trigger] run_event_of(
                    r.0@[i],
                    old(order_book)@.instrument,
                )
            },
            EngineCommand::CancelOrder(o) => {
                &&& r.0@.len() == 1
                &&& r.0@[0] matches EngineEvent::OrderCancelled(c) && cancelled_as(c, o)
            },
            EngineCommand::Shutdown => r.0@ == seq![EngineEvent::Shutdown],
        },
        old(order_book)@.resting_ok() && command is PlaceOrder ==> (r.1 == CommandOutcome::Shutdown
            <==> (r.0@.last() matches EngineEvent::OrdersMatched(m)
            && !final(order_book)@.match_fills_fit(m))),
{
    let ghost b0 = order_book@;
    let mut events: Vec<EngineEvent> = Vec::new();
    match command {
        EngineCommand::PlaceOrder(order) => {
            let accepted_at = local_now();
            let placed = EngineEvent::OrderPlaced(
                OrderPlacedEvent {
                    instrument: order.instrument,
                    order_id: order.id,
                    state: order.state,
                    placed_at: order.placed_at,
                    accepted_at,
                    limit_price: order.limit_price,
                    quantity: order.quantity,
                    side: order.side,
                    quantity_traded: Dec::zero(),
                    quantity_remaining: order.quantity_remaining,
                },
            );
            proof {
                broadcast use Dec::lemma_view_from_parts;
                assert(placed == EngineEvent::OrderPlaced(placed_event(order, accepted_at)));
            }
            events.push(placed);
            let ghost ev1 = events@;
            order_book.insert(order);
            proof {
                OrderBook::lemma_wf(order_book);
            }
            let ghost b1 = order_book@;
            let out = run_matches(order_book, &mut events);
            proof {
                let trec = choose|times: Seq<Timestamp>| #[trigger]
                    match_run(b0.after_insert(order), times) == Some(
                        (order_book@, events@.subrange(ev1.len() as int, events@.len() as int), out),
                    );
                let times = seq![accepted_at] + trec;
                assert(times.drop_first() =~= trec);
                assert(events@[0] == ev1[0]);
                assert(events@ =~= seq![placed] + events@.subrange(ev1.len() as int, events@.len() as int));
                assert(command_run(b0, command, times) == Some((order_book@, events@, out)));
                lemma_command_events(b0, command, times);
                if b0.resting_ok() {
                    assert(events@.drop_first() =~= events@.subrange(ev1.len() as int, events@.len() as int));
                    assert(b1.wf());
                    lemma_match_run_trades(b0.after_insert(order), trec);
                }
            }
            (events, out)
        },
        EngineCommand::CancelOrder(order) => {
            let cancelled_at = local_now();
            let cancelled = EngineEvent::OrderCancelled(
                CancellationEvent {
                    instrument: order.instrument,
                    order_id: order.id,
                    cancelled_at,
                    limit_price: order.limit_price,
                    quantity: order.quantity,
                    side: order.side,
                    quantity_traded: Dec::zero(),
                    quantity_remaining: order.quantity_remaining,
                },
            );
            proof {
                broadcast use Dec::lemma_view_from_parts;
                assert(cancelled == EngineEvent::OrderCancelled(cancelled_event(order, cancelled_at)));
            }
            events.push(cancelled);
            proof {
                let times = seq![cancelled_at];
                assert(events@ =~= seq![cancelled]);
                assert(command_run(b0, command, times) == Some((order_book@, events@, CommandOutcome::Continue)));
                lemma_command_events(b0, command, times);
            }
            (events, CommandOutcome::Continue)
        },
        EngineCommand::Shutdown => {
            events.push(EngineEvent::Shutdown);
            proof {
                let times = Seq::<Timestamp>::empty();
                assert(events@ =~= seq![EngineEvent::Shutdown]);
                assert(command_run(b0, command, times) == Some((order_book@, events@, CommandOutcome::Shutdown)));
                lemma_command_events(b0, command, times);
            }
            (events, CommandOutcome::Shutdown)
        },
    }
}

} // verus!
