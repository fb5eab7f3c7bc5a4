//! The order book as a mathematical value, what each operation does to it, and the
//! laws that relate them.

use std::collections::VecDeque;

use vstd::prelude::*;

use crate::book::levels::{
    index_of, insert_pos, lemma_index_of, lemma_insert_pos, lemma_insert_value, lemma_remove_value,
    lemma_same_prices, lemma_update_value, prices, strictly_ascending, value_at,
};
use crate::book::{BookError, LimitOrder, MatchResult, OrderState, Side, Trade};
use crate::clock::Timestamp;
use crate::decimal::Dec;
use crate::engine::event::{EngineEvent, OrdersMatchedEvent};
use crate::engine::InstrumentKey;

verus! {

/// One side of a book as a mathematical value: the price levels in ascending order of
/// price, each with its queue of orders.
pub type SideModel = Seq<(Dec, Seq<LimitOrder>)>;

/// The queues of a side, as sequences.
pub open spec fn queues(s: Seq<(Dec, VecDeque<LimitOrder>)>) -> SideModel {
    s.map_values(|p: (Dec, VecDeque<LimitOrder>)| (p.0, p.1@))
}

/// An order book as a mathematical value.
pub struct BookModel {
    pub instrument: InstrumentKey,
    pub asks: SideModel,
    pub bids: SideModel,
    pub orders_placed: u64,
    pub events_processed: u64,
    pub executed_trades: u64,
    pub cancelled_trades: u64,
}

/// A side with `o` appended to the queue of its price level, which is created, at
/// its place in price order, when it does not exist yet.
pub open spec fn side_with_order(s: SideModel, o: LimitOrder) -> SideModel {
    let i = index_of(s, o.limit_price.val());
    if i >= 0 {
        s.update(i, (s[i].0, s[i].1.push(o)))
    } else {
        s.insert(insert_pos(s, o.limit_price.val()), (o.limit_price, seq![o]))
    }
}

/// A side whose level at position `i` has `o` in front of its queue.
pub open spec fn side_with_front(s: SideModel, i: int, o: LimitOrder) -> SideModel {
    s.update(i, (s[i].0, s[i].1.update(0, o)))
}

/// A side after removing the front order of the level at `price`, and the level
/// itself when that empties it; the empty level is looked up by the removed order's
/// limit price.  On an error the side keeps what was done before it.
pub open spec fn side_without_front(s: SideModel, price: Dec) -> (SideModel, Result<(), BookError>) {
    let i = index_of(s, price.val());
    if i < 0 {
        (s, Err(BookError::PriceLevelMissing))
    } else if s[i].1.len() == 0 {
        (s, Err(BookError::QueueEmpty))
    } else {
        let order = s[i].1[0];
        let rest = s[i].1.drop_first();
        let s1 = s.update(i, (s[i].0, rest));
        if rest.len() == 0 {
            let j = index_of(s1, order.limit_price.val());
            if j < 0 {
                (s1, Err(BookError::PriceLevelMissing))
            } else {
                (s1.remove(j), Ok(()))
            }
        } else {
            (s1, Ok(()))
        }
    }
}

/// The state of an order after a fill of `qty`.
pub open spec fn state_after_fill(o: LimitOrder, fulfilled: bool, qty: Dec) -> OrderState {
    if fulfilled {
        OrderState::Fulfilled
    } else if qty.val() > 0 {
        OrderState::PartiallyFulfilled
    } else {
        o.state
    }
}

/// The number of orders on a side.
pub open spec fn side_size(s: SideModel) -> nat
    decreases s.len(),
{
    if s.len() == 0 {
        0
    } else {
        side_size(s.drop_last()) + s.last().1.len()
    }
}

pub proof fn lemma_side_size_update(s: SideModel, i: int, x: (Dec, Seq<LimitOrder>))
    requires
        0 <= i < s.len(),
    ensures
        side_size(s.update(i, x)) == side_size(s) - s[i].1.len() + x.1.len(),
    decreases s.len(),
{
    if i == s.len() - 1 {
        assert(s.update(i, x).drop_last() =~= s.drop_last());
    } else {
        assert(s.update(i, x).drop_last() =~= s.drop_last().update(i, x));
        lemma_side_size_update(s.drop_last(), i, x);
    }
}

pub proof fn lemma_side_size_remove(s: SideModel, j: int)
    requires
        0 <= j < s.len(),
    ensures
        side_size(s.remove(j)) == side_size(s) - s[j].1.len(),
    decreases s.len(),
{
    if j == s.len() - 1 {
        assert(s.remove(j) =~= s.drop_last());
    } else {
        assert(s.remove(j).drop_last() =~= s.drop_last().remove(j));
        lemma_side_size_remove(s.drop_last(), j);
    }
}

pub proof fn lemma_side_size_insert(s: SideModel, p: int, x: (Dec, Seq<LimitOrder>))
    requires
        0 <= p <= s.len(),
    ensures
        side_size(s.insert(p, x)) == side_size(s) + x.1.len(),
    decreases s.len(),
{
    if p == s.len() {
        assert(s.insert(p, x).drop_last() =~= s);
    } else {
        assert(s.insert(p, x).drop_last() =~= s.drop_last().insert(p, x));
        lemma_side_size_insert(s.drop_last(), p, x);
    }
}

/// The orders of the first `i + 1` levels are those of the first `i` and of level `i`.
pub proof fn lemma_side_size_take(s: SideModel, i: int)
    requires
        0 <= i < s.len(),
    ensures
        side_size(s.take(i + 1)) == side_size(s.take(i)) + s[i].1.len(),
{
    assert(s.take(i + 1).drop_last() =~= s.take(i));
}

/// A prefix of a side holds no more orders than the side.
pub proof fn lemma_side_size_prefix(s: SideModel, i: int)
    requires
        0 <= i <= s.len(),
    ensures
        side_size(s.take(i)) <= side_size(s),
    decreases s.len() - i,
{
    if i < s.len() {
        lemma_side_size_take(s, i);
        lemma_side_size_prefix(s, i + 1);
    } else {
        assert(s.take(i) =~= s);
    }
}

/// A side holds at least the orders of each of its levels.
pub proof fn lemma_side_size_ge(s: SideModel, i: int)
    requires
        0 <= i < s.len(),
    ensures
        side_size(s) >= s[i].1.len(),
{
    lemma_side_size_update(s, i, (s[i].0, Seq::empty()));
}

/// Appending an order adds one order to the side.
pub proof fn lemma_side_with_order_size(s: SideModel, o: LimitOrder)
    requires
        strictly_ascending(s),
    ensures
        side_size(side_with_order(s, o)) == side_size(s) + 1,
{
    lemma_index_of(s, o.limit_price.val());
    lemma_insert_pos(s, o.limit_price.val());
    let i = index_of(s, o.limit_price.val());
    if i >= 0 {
        lemma_side_size_update(s, i, (s[i].0, s[i].1.push(o)));
    } else {
        lemma_side_size_insert(s, insert_pos(s, o.limit_price.val()), (o.limit_price, seq![o]));
    }
}

/// Replacing a front order keeps the number of orders.
pub proof fn lemma_side_with_front_size(s: SideModel, i: int, o: LimitOrder)
    requires
        0 <= i < s.len(),
        s[i].1.len() > 0,
    ensures
        side_size(side_with_front(s, i, o)) == side_size(s),
{
    lemma_side_size_update(s, i, (s[i].0, s[i].1.update(0, o)));
}

/// Removing a front order removes at least that order when it succeeds, and never adds
/// one.
pub proof fn lemma_side_without_front_size(s: SideModel, price: Dec)
    ensures
        side_size(side_without_front(s, price).0) <= side_size(s),
        side_without_front(s, price).1 is Ok ==> side_size(side_without_front(s, price).0)
            < side_size(s),
{
    lemma_index_of(s, price.val());
    let i = index_of(s, price.val());
    if i >= 0 && s[i].1.len() > 0 {
        let order = s[i].1[0];
        let rest = s[i].1.drop_first();
        let s1 = s.update(i, (s[i].0, rest));
        lemma_side_size_update(s, i, (s[i].0, rest));
        if rest.len() == 0 {
            lemma_index_of(s1, order.limit_price.val());
            let j = index_of(s1, order.limit_price.val());
            if j >= 0 {
                lemma_side_size_remove(s1, j);
            }
        }
    }
}

/// The total remaining quantity of the orders in a queue, in units of 10^-28.
pub open spec fn queue_remaining(q: Seq<LimitOrder>) -> int
    decreases q.len(),
{
    if q.len() == 0 {
        0
    } else {
        queue_remaining(q.drop_last()) + q.last().quantity_remaining.val()
    }
}

/// The total remaining quantity of the orders on a side, in units of 10^-28.
pub open spec fn side_remaining(s: SideModel) -> int
    decreases s.len(),
{
    if s.len() == 0 {
        0
    } else {
        side_remaining(s.drop_last()) + queue_remaining(s.last().1)
    }
}

/// A queue's total is its front order's remaining quantity and the total of the rest.
pub proof fn lemma_queue_remaining_front(q: Seq<LimitOrder>)
    requires
        q.len() > 0,
    ensures
        queue_remaining(q) == q[0].quantity_remaining.val() + queue_remaining(q.drop_first()),
    decreases q.len(),
{
    if q.len() > 1 {
        assert(q.drop_last().drop_first() =~= q.drop_first().drop_last());
        lemma_queue_remaining_front(q.drop_last());
    } else {
        assert(q.drop_first() =~= Seq::<LimitOrder>::empty());
        assert(q.drop_last() =~= Seq::<LimitOrder>::empty());
    }
}

pub proof fn lemma_side_remaining_update(s: SideModel, i: int, x: (Dec, Seq<LimitOrder>))
    requires
        0 <= i < s.len(),
    ensures
        side_remaining(s.update(i, x)) == side_remaining(s) - queue_remaining(s[i].1)
            + queue_remaining(x.1),
    decreases s.len(),
{
    if i == s.len() - 1 {
        assert(s.update(i, x).drop_last() =~= s.drop_last());
    } else {
        assert(s.update(i, x).drop_last() =~= s.drop_last().update(i, x));
        lemma_side_remaining_update(s.drop_last(), i, x);
    }
}

pub proof fn lemma_side_remaining_remove(s: SideModel, j: int)
    requires
        0 <= j < s.len(),
    ensures
        side_remaining(s.remove(j)) == side_remaining(s) - queue_remaining(s[j].1),
    decreases s.len(),
{
    if j == s.len() - 1 {
        assert(s.remove(j) =~= s.drop_last());
    } else {
        assert(s.remove(j).drop_last() =~= s.drop_last().remove(j));
        lemma_side_remaining_remove(s.drop_last(), j);
    }
}

/// Replacing the front order of a level changes the side's total by the difference of
/// the two orders' remaining quantities; removing it again (as in [`lemma_front_ok`])
/// takes the old front order's remaining quantity off the side's total.
pub proof fn lemma_front_remaining(s: SideModel, i: int, o: LimitOrder, side: Side)
    requires
        strictly_ascending(s),
        side_ok(s, side),
        0 <= i < s.len(),
        o.limit_price.val() == s[i].0.val(),
        o.side == side,
    ensures
        side_remaining(side_with_front(s, i, o)) == side_remaining(s)
            - s[i].1[0].quantity_remaining.val() + o.quantity_remaining.val(),
        side_remaining(side_without_front(side_with_front(s, i, o), o.limit_price).0)
            == side_remaining(s) - s[i].1[0].quantity_remaining.val(),
{
    let v = s[i].0.val();
    let t = side_with_front(s, i, o);
    assert(level_ok(s[i], side));
    lemma_queue_remaining_front(s[i].1);
    lemma_queue_remaining_front(s[i].1.update(0, o));
    assert(s[i].1.update(0, o).drop_first() =~= s[i].1.drop_first());
    lemma_side_remaining_update(s, i, (s[i].0, s[i].1.update(0, o)));
    assert(prices(t) =~= prices(s));
    lemma_same_prices(t, s, v);
    lemma_index_of(s, v);
    let rest = t[i].1.drop_first();
    let s1 = t.update(i, (t[i].0, rest));
    assert(prices(s1) =~= prices(s));
    lemma_same_prices(s1, s, v);
    lemma_side_remaining_update(t, i, (t[i].0, rest));
    if rest.len() == 0 {
        lemma_side_remaining_remove(s1, i);
        assert(queue_remaining(rest) == 0);
    }
}

/// A side without the front order of the level at position `i`, and without the level
/// when that order was its only one.
pub open spec fn side_drop_front(s: SideModel, i: int) -> SideModel {
    if s[i].1.len() > 1 {
        s.update(i, (s[i].0, s[i].1.drop_first()))
    } else {
        s.remove(i)
    }
}

/// Whether `f` is order `o` after an exact fill of `qty`: the traded quantity grew by
/// `qty`, the remaining quantity shrank by `qty`, the state is partially fulfilled for a
/// positive `qty` and unchanged otherwise, and nothing else changed.
pub open spec fn filled_from(f: LimitOrder, o: LimitOrder, qty: Dec) -> bool {
    &&& f == LimitOrder {
        quantity_traded: f.quantity_traded,
        quantity_remaining: f.quantity_remaining,
        state: f.state,
        ..o
    }
    &&& f.quantity_traded.val() == o.quantity_traded.val() + qty.val()
    &&& f.quantity_remaining.val() == o.quantity_remaining.val() - qty.val()
    &&& f.state == (if qty.val() > 0 {
        OrderState::PartiallyFulfilled
    } else {
        o.state
    })
}

/// Whether side `s2` is side `s` after its front order `o` at level `i` took an exact
/// fill of `qty`: a wholly filled order leaves the side (and its level, when it was the
/// level's only order); otherwise it stays in front, filled, and nothing else changes.
pub open spec fn fill_effect(s: SideModel, s2: SideModel, i: int, o: LimitOrder, qty: Dec) -> bool {
    if o.quantity_remaining.val() == qty.val() {
        s2 == side_drop_front(s, i)
    } else {
        &&& 0 <= i < s2.len()
        &&& s2[i].1.len() > 0
        &&& s2 == side_with_front(s, i, s2[i].1[0])
        &&& filled_from(s2[i].1[0], o, qty)
    }
}

/// Whether `o` may rest at a level of price `price` on side `side`: its limit price has
/// the level's value, it is an order of that side, and it is open.
pub open spec fn rests_at(o: LimitOrder, price: Dec, side: Side) -> bool {
    &&& o.limit_price.val() == price.val()
    &&& o.side == side
    &&& o.state.spec_is_open()
}

/// Whether a level of side `side` holds at least one order, and each of its orders may
/// rest there.
pub open spec fn level_ok(l: (Dec, Seq<LimitOrder>), side: Side) -> bool {
    &&& l.1.len() > 0
    &&& forall|k: int| 0 <= k < l.1.len() ==> #[trigger] rests_at(l.1[k], l.0, side)
}

/// Whether every level of `s` is as [`level_ok`] asks for side `side`.
pub open spec fn side_ok(s: SideModel, side: Side) -> bool {
    forall|i: int| 0 <= i < s.len() ==> #[trigger] level_ok(s[i], side)
}

/// Appending an open order of the side's own kind keeps every level of the side as
/// [`side_ok`] asks.
pub proof fn lemma_side_with_order_ok(s: SideModel, o: LimitOrder, side: Side)
    requires
        strictly_ascending(s),
        side_ok(s, side),
        o.side == side,
        o.state.spec_is_open(),
    ensures
        side_ok(side_with_order(s, o), side),
{
    let v = o.limit_price.val();
    lemma_index_of(s, v);
    lemma_insert_pos(s, v);
    let i = index_of(s, v);
    let t = side_with_order(s, o);
    if i >= 0 {
        assert forall|j: int| 0 <= j < t.len() implies #[trigger] level_ok(t[j], side) by {
            assert(level_ok(s[j], side));
            if j == i {
                assert forall|k: int| 0 <= k < t[j].1.len() implies #[trigger] rests_at(
                    t[j].1[k],
                    t[j].0,
                    side,
                ) by {
                    if k < s[i].1.len() {
                        assert(rests_at(s[i].1[k], s[i].0, side));
                    }
                }
            }
        }
    } else {
        let p = insert_pos(s, v);
        assert forall|j: int| 0 <= j < t.len() implies #[trigger] level_ok(t[j], side) by {
            if j < p {
                assert(level_ok(s[j], side));
            } else if j > p {
                assert(level_ok(s[j - 1], side));
            } else {
                assert(rests_at(t[j].1[0], t[j].0, side));
            }
        }
    }
}

/// Replacing the front order of a level by an order of the same price and side: an open
/// one keeps the side as [`side_ok`] asks, and removing it again succeeds, takes one
/// order off the side, and leaves a side as [`side_ok`] asks.
pub proof fn lemma_front_ok(s: SideModel, i: int, o: LimitOrder, side: Side)
    requires
        strictly_ascending(s),
        side_ok(s, side),
        0 <= i < s.len(),
        o.limit_price.val() == s[i].0.val(),
        o.side == side,
    ensures
        strictly_ascending(side_with_front(s, i, o)),
        o.state.spec_is_open() ==> side_ok(side_with_front(s, i, o), side),
        side_size(side_with_front(s, i, o)) == side_size(s),
        ({
            let (s2, r) = side_without_front(side_with_front(s, i, o), o.limit_price);
            &&& r is Ok
            &&& s2 == side_drop_front(s, i)
            &&& strictly_ascending(s2)
            &&& side_ok(s2, side)
            &&& side_size(s2) + 1 == side_size(s)
        }),
{
    let v = s[i].0.val();
    let t = side_with_front(s, i, o);
    assert(level_ok(s[i], side));
    assert(prices(t) =~= prices(s));
    lemma_same_prices(t, s, v);
    lemma_index_of(s, v);
    lemma_side_with_front_size(s, i, o);
    assert forall|j: int| 0 <= j < t.len() && o.state.spec_is_open() implies #[trigger] level_ok(
        t[j],
        side,
    ) by {
        assert(level_ok(s[j], side));
        if j == i {
            assert forall|k: int| 0 <= k < t[j].1.len() implies #[trigger] rests_at(
                t[j].1[k],
                t[j].0,
                side,
            ) by {
                if k > 0 {
                    assert(rests_at(s[i].1[k], s[i].0, side));
                }
            }
        }
    }
    let rest = t[i].1.drop_first();
    let s1 = t.update(i, (t[i].0, rest));
    assert(rest =~= s[i].1.drop_first());
    assert(s1 =~= s.update(i, (s[i].0, s[i].1.drop_first())));
    assert(prices(s1) =~= prices(s));
    lemma_same_prices(s1, s, v);
    lemma_side_size_update(t, i, (t[i].0, rest));
    assert forall|j: int| 0 <= j < s1.len() && j != i implies #[trigger] level_ok(s1[j], side) by {
        assert(level_ok(s[j], side));
    }
    if rest.len() == 0 {
        lemma_remove_value(s1, i, v);
        lemma_side_size_remove(s1, i);
        let s2 = s1.remove(i);
        assert forall|j: int| 0 <= j < s2.len() implies #[trigger] level_ok(s2[j], side) by {
            if j < i {
                assert(level_ok(s1[j], side));
            } else {
                assert(level_ok(s1[j + 1], side));
            }
        }
    } else {
        assert(level_ok(s1[i], side)) by {
            assert forall|k: int| 0 <= k < s1[i].1.len() implies #[trigger] rests_at(
                s1[i].1[k],
                s1[i].0,
                side,
            ) by {
                assert(rests_at(s[i].1[k + 1], s[i].0, side));
            }
        }
    }
}

impl BookModel {
    /// Whether every order rests where it belongs: each level holds at least one order,
    /// and each order is open, at the level of its own limit price, and on its own side
    /// (buys among the bids, sells among the asks).
    pub open spec fn resting_ok(self) -> bool {
        side_ok(self.bids, Side::Buy) && side_ok(self.asks, Side::Sell)
    }

    /// Whether both fills of match `m` compute exactly: the front bid and the front ask
    /// at the matched prices can each take a fill of the smaller of their remaining
    /// quantities without leaving the decimal range.
    pub open spec fn match_fills_fit(self, m: OrdersMatchedEvent) -> bool {
        let ib = index_of(self.bids, m.bid_price.val());
        let ia = index_of(self.asks, m.ask_price.val());
        ib >= 0 && ia >= 0 && self.bids[ib].1.len() > 0 && self.asks[ia].1.len() > 0 ==> {
            let bid = self.bids[ib].1[0];
            let ask = self.asks[ia].1[0];
            let qty = bid.quantity_remaining.spec_min(ask.quantity_remaining);
            bid.fill_fits(qty) && ask.fill_fits(qty)
        }
    }

    /// Whether `b2` is this book after trade `t` executed match `m` with exact fills: the
    /// front bid and the front ask at the matched prices each took a fill of the executed
    /// quantity as [`fill_effect`] says, and each side's total remaining quantity shrank
    /// by the executed quantity.
    pub open spec fn exact_trade_effect(self, b2: BookModel, m: OrdersMatchedEvent, t: Trade) -> bool {
        let ib = index_of(self.bids, m.bid_price.val());
        let ia = index_of(self.asks, m.ask_price.val());
        &&& side_remaining(b2.bids) == side_remaining(self.bids) - t.executed_quantity.val()
        &&& side_remaining(b2.asks) == side_remaining(self.asks) - t.executed_quantity.val()
        &&& fill_effect(self.bids, b2.bids, ib, self.bids[ib].1[0], t.executed_quantity)
        &&& fill_effect(self.asks, b2.asks, ia, self.asks[ia].1[0], t.executed_quantity)
    }

    /// The number of orders in the book.
    pub open spec fn order_count(self) -> nat {
        side_size(self.asks) + side_size(self.bids)
    }

    /// Whether the book is well formed: both sides ascend strictly by price.
    pub open spec fn wf(self) -> bool {
        strictly_ascending(self.asks) && strictly_ascending(self.bids)
    }

    /// The match between the front order of the highest bid level and the front order
    /// of the lowest ask level, when the bid's limit reaches the ask's and both are open.
    pub open spec fn best_match(self) -> Option<MatchResult> {
        if self.asks.len() == 0 || self.bids.len() == 0 {
            None
        } else {
            let bq = self.bids.last().1;
            let aq = self.asks[0].1;
            if bq.len() == 0 || aq.len() == 0 {
                None
            } else {
                let bid = bq[0];
                let ask = aq[0];
                if bid.limit_price.val() >= ask.limit_price.val() && bid.state.spec_is_open()
                    && ask.state.spec_is_open() {
                    Some(
                        MatchResult {
                            bid_id: bid.id,
                            ask_id: ask.id,
                            bid_price: bid.limit_price,
                            ask_price: ask.limit_price,
                        },
                    )
                } else {
                    None
                }
            }
        }
    }

    /// The book after inserting `o`: the order, now open, joins the back of the queue
    /// at its limit price on its side.
    pub open spec fn after_insert(self, o: LimitOrder) -> BookModel {
        let o2 = LimitOrder { state: OrderState::Open, ..o };
        match o.side {
            Side::Buy => BookModel {
                bids: side_with_order(self.bids, o2),
                orders_placed: (self.orders_placed + 1) as u64,
                ..self
            },
            Side::Sell => BookModel {
                asks: side_with_order(self.asks, o2),
                orders_placed: (self.orders_placed + 1) as u64,
                ..self
            },
        }
    }

    /// Executing a match: the front bid at the bid price and the front ask at the ask
    /// price are both filled by the smaller of their remaining quantities at the ask's
    /// limit price; a wholly filled order leaves the book, and an emptied level with it.
    /// A fill that fails leaves the book as it was.
    pub open spec fn after_match(self, m: OrdersMatchedEvent, now: Timestamp) -> (
        BookModel,
        Result<EngineEvent, BookError>,
    ) {
        let ib = index_of(self.bids, m.bid_price.val());
        let ia = index_of(self.asks, m.ask_price.val());
        if ib < 0 {
            (self, Err(BookError::BidLevelNotFound))
        } else if self.bids[ib].1.len() == 0 {
            (self, Err(BookError::BidQueueEmpty))
        } else if ia < 0 {
            (self, Err(BookError::AskLevelNotFound))
        } else if self.asks[ia].1.len() == 0 {
            (self, Err(BookError::AskQueueEmpty))
        } else {
            let bid = self.bids[ib].1[0];
            let ask = self.asks[ia].1[0];
            if !bid.state.spec_is_open() || !ask.state.spec_is_open() {
                (self, Err(BookError::InvalidOrderState { bid: bid.state, ask: ask.state }))
            } else {
                let qty = bid.quantity_remaining.spec_min(ask.quantity_remaining);
                let (bid1, rb) = bid.adjusted(qty);
                match rb {
                    Err(e) => (self, Err(e)),
                    Ok(bid_fulfilled) => {
                        let (ask1, ra) = ask.adjusted(qty);
                        match ra {
                            Err(e) => (self, Err(e)),
                            Ok(ask_fulfilled) => {
                                let bid2 = LimitOrder {
                                    state: state_after_fill(bid1, bid_fulfilled, qty),
                                    ..bid1
                                };
                                let ask2 = LimitOrder {
                                    state: state_after_fill(ask1, ask_fulfilled, qty),
                                    ..ask1
                                };
                                let b3 = BookModel {
                                    bids: side_with_front(self.bids, ib, bid2),
                                    asks: side_with_front(self.asks, ia, ask2),
                                    executed_trades: (self.executed_trades + 1) as u64,
                                    ..self
                                };
                                let trade = Trade {
                                    instrument: self.instrument,
                                    trade_id: b3.executed_trades,
                                    bid_order_id: bid2.id,
                                    ask_order_id: ask2.id,
                                    executed_at: now,
                                    execution_price: ask2.limit_price,
                                    executed_quantity: qty,
                                };
                                let (bids4, r4) = if bid_fulfilled {
                                    side_without_front(b3.bids, bid2.limit_price)
                                } else {
                                    (b3.bids, Ok(()))
                                };
                                let b4 = BookModel { bids: bids4, ..b3 };
                                match r4 {
                                    Err(e) => (b4, Err(e)),
                                    Ok(_) => {
                                        let (asks5, r5) = if ask_fulfilled {
                                            side_without_front(b4.asks, ask2.limit_price)
                                        } else {
                                            (b4.asks, Ok(()))
                                        };
                                        let b5 = BookModel { asks: asks5, ..b4 };
                                        match r5 {
                                            Err(e) => (b5, Err(e)),
                                            Ok(_) => (
                                                BookModel {
                                                    events_processed: (b5.events_processed
                                                        + 1) as u64,
                                                    ..b5
                                                },
                                                Ok(EngineEvent::TradeExecuted(trade)),
                                            ),
                                        }
                                    },
                                }
                            },
                        }
                    },
                }
            }
        }
    }

    /// The book and the outcome after processing `event` at time `now`: a match is
    /// executed; a cancellation is counted and refused as not implemented; any other
    /// event is refused.
    pub open spec fn after_event(self, event: EngineEvent, now: Timestamp) -> (
        BookModel,
        Result<EngineEvent, BookError>,
    ) {
        match event {
            EngineEvent::OrdersMatched(m) => self.after_match(m, now),
            EngineEvent::OrderCancelled(_) => (
                BookModel {
                    events_processed: (self.events_processed + 1) as u64,
                    cancelled_trades: (self.cancelled_trades + 1) as u64,
                    ..self
                },
                Err(BookError::NotImplemented),
            ),
            _ => (self, Err(BookError::UnsupportedEvent)),
        }
    }

    /// The counters that processing `event` may increment are below their limit.
    pub open spec fn can_count(self, event: EngineEvent) -> bool {
        match event {
            EngineEvent::OrdersMatched(_) => self.executed_trades < u64::MAX
                && self.events_processed < u64::MAX,
            EngineEvent::OrderCancelled(_) => self.events_processed < u64::MAX
                && self.cancelled_trades < u64::MAX,
            _ => true,
        }
    }
}

/// Taking the front order of a queue out and putting `o` back in front replaces the
/// front order by `o`.
pub(crate) proof fn lemma_put_after_take(s0: SideModel, mid: SideModel, fin: SideModel, i: int, o: LimitOrder)
    requires
        0 <= i < s0.len(),
        s0[i].1.len() > 0,
        mid == s0.update(i, (s0[i].0, s0[i].1.drop_first())),
        fin == mid.update(i, (mid[i].0, seq![o] + mid[i].1)),
    ensures
        fin == side_with_front(s0, i, o),
{
    assert(seq![o] + s0[i].1.drop_first() =~= s0[i].1.update(0, o));
    assert(fin =~= side_with_front(s0, i, o));
}

/// Appending an order to a side puts it behind the orders at its price, or in a new
/// level at its place when there is none, and changes no other level.
pub proof fn lemma_side_with_order_value(s: SideModel, o: LimitOrder, w: int)
    requires
        strictly_ascending(s),
    ensures
        strictly_ascending(side_with_order(s, o)),
        value_at(side_with_order(s, o), w) == (if w == o.limit_price.val() {
            Some(
                match value_at(s, w) {
                    Some(q) => q.push(o),
                    None => seq![o],
                },
            )
        } else {
            value_at(s, w)
        }),
{
    let v = o.limit_price.val();
    lemma_index_of(s, v);
    let i = index_of(s, v);
    if i >= 0 {
        lemma_update_value(s, i, s[i].1.push(o), w);
    } else {
        lemma_insert_value(s, o.limit_price, seq![o], w);
    }
}

/// Placing an order keeps the book well formed; the order, now open, joins the back of
/// the queue at its limit price on its own side (a new level when there is none), and
/// every other level of that side, the other side, and the order's arrival order among
/// the orders already resting are unchanged.
pub proof fn lemma_insert_appends_to_level(b: BookModel, o: LimitOrder, w: int)
    requires
        b.wf(),
        b.orders_placed < u64::MAX,
    ensures
        b.after_insert(o).wf(),
        ({
            let o2 = LimitOrder { state: OrderState::Open, ..o };
            let b2 = b.after_insert(o);
            let (before, after, other_before, other_after) = match o.side {
                Side::Buy => (b.bids, b2.bids, b.asks, b2.asks),
                Side::Sell => (b.asks, b2.asks, b.bids, b2.bids),
            };
            &&& value_at(after, w) == (if w == o.limit_price.val() {
                Some(
                    match value_at(before, w) {
                        Some(q) => q.push(o2),
                        None => seq![o2],
                    },
                )
            } else {
                value_at(before, w)
            })
            &&& other_after == other_before
            &&& b2.orders_placed == b.orders_placed + 1
        }),
{
    let o2 = LimitOrder { state: OrderState::Open, ..o };
    lemma_side_with_order_value(b.bids, o2, w);
    lemma_side_with_order_value(b.asks, o2, w);
}

/// The match a book offers pairs the front order of its highest bid level with the
/// front order of its lowest ask level, both open, and only when the bid's limit price
/// reaches the ask's by value; there is none when the bid's limit is below the ask's.
/// In a book whose orders rest where they belong, there is a match exactly when both
/// sides hold orders and the highest bid price reaches the lowest ask price by value.
pub proof fn lemma_best_match_crosses(b: BookModel)
    ensures
        b.best_match() matches Some(res) ==> {
            &&& b.bids.len() > 0
            &&& b.asks.len() > 0
            &&& b.bids.last().1.len() > 0
            &&& b.asks[0].1.len() > 0
            &&& res.bid_id == b.bids.last().1[0].id
            &&& res.ask_id == b.asks[0].1[0].id
            &&& res.bid_price == b.bids.last().1[0].limit_price
            &&& res.ask_price == b.asks[0].1[0].limit_price
            &&& res.bid_price.val() >= res.ask_price.val()
            &&& b.bids.last().1[0].state.spec_is_open()
            &&& b.asks[0].1[0].state.spec_is_open()
        },
        b.bids.len() > 0 && b.asks.len() > 0 && b.bids.last().1.len() > 0 && b.asks[0].1.len() > 0
            && b.bids.last().1[0].limit_price.val() < b.asks[0].1[0].limit_price.val()
            ==> b.best_match() is None,
        b.resting_ok() ==> (b.best_match() is Some <==> (b.bids.len() > 0 && b.asks.len() > 0
            && b.bids.last().0.val() >= b.asks[0].0.val())),
{
    if b.resting_ok() && b.bids.len() > 0 && b.asks.len() > 0 {
        assert(level_ok(b.bids[b.bids.len() - 1], Side::Buy));
        assert(level_ok(b.asks[0], Side::Sell));
        assert(rests_at(b.bids.last().1[0], b.bids.last().0, Side::Buy));
        assert(rests_at(b.asks[0].1[0], b.asks[0].0, Side::Sell));
    }
}

/// The best bid is the highest bid level and the best ask the lowest ask level.
pub proof fn lemma_best_levels(b: BookModel)
    requires
        b.wf(),
    ensures
        forall|i: int|
            0 <= i < b.bids.len() ==> #[trigger] b.bids[i].0.val() <= b.bids.last().0.val(),
        forall|i: int| 0 <= i < b.asks.len() ==> b.asks[0].0.val() <= #[trigger] b.asks[i].0.val(),
{
    assert forall|i: int| 0 <= i < b.bids.len() implies #[trigger] b.bids[i].0.val()
        <= b.bids.last().0.val() by {
        if i < b.bids.len() - 1 {
            assert(b.bids[i].0.val() < b.bids[b.bids.len() - 1].0.val());
        }
    }
    assert forall|i: int| 0 <= i < b.asks.len() implies b.asks[0].0.val()
        <= #[trigger] b.asks[i].0.val() by {
        if i > 0 {
            assert(b.asks[0].0.val() < b.asks[i].0.val());
        }
    }
}

/// A match that is refused or whose fill fails (a missing level, an empty queue, an
/// order that is not open, a fill out of the decimal range) leaves the book as it was;
/// only a failure to take a filled order off the book leaves it changed.  A match that
/// succeeds reports the trade.
pub proof fn lemma_refused_match_keeps_book(b: BookModel, m: OrdersMatchedEvent, now: Timestamp)
    ensures
        ({
            let (b2, r) = b.after_match(m, now);
            &&& (r matches Err(e) && !(e is PriceLevelMissing || e is QueueEmpty) ==> b2 == b)
            &&& (r matches Ok(e) ==> e is TradeExecuted)
        }),
{
}

/// Executing a match in a book whose orders rest where they belong keeps them so.  It
/// fails only on a missing level or a fill out of the decimal range, and then leaves the
/// book as it was; when it succeeds, both levels exist and one or two orders leave the
/// book (at most two, by this statement alone).
pub proof fn lemma_match_keeps_resting(b: BookModel, m: OrdersMatchedEvent, now: Timestamp)
    requires
        b.wf(),
        b.resting_ok(),
    ensures
        ({
            let (b2, r) = b.after_match(m, now);
            &&& b2.wf()
            &&& b2.resting_ok()
            &&& r matches Err(e) ==> b2 == b && (e is BidLevelNotFound || e is AskLevelNotFound
                || e is QuantityBelowZero || e is AdditionOverflow || e is SubtractionOverflow)
            &&& r is Ok ==> {
                let ib = index_of(b.bids, m.bid_price.val());
                let ia = index_of(b.asks, m.ask_price.val());
                &&& ib >= 0
                &&& ia >= 0
                &&& b2.order_count() <= b.order_count()
                &&& b.order_count() <= b2.order_count() + 2
                &&& b2.executed_trades == (b.executed_trades + 1) as u64
                &&& b2.events_processed == (b.events_processed + 1) as u64
                &&& b2.instrument == b.instrument
                &&& b2.orders_placed == b.orders_placed
                &&& b2.cancelled_trades == b.cancelled_trades
                &&& r->Ok_0 matches EngineEvent::TradeExecuted(t) && {
                    &&& t.instrument == b.instrument
                    &&& t.trade_id == b2.executed_trades
                    &&& t.bid_order_id == b.bids[ib].1[0].id
                    &&& t.ask_order_id == b.asks[ia].1[0].id
                    &&& t.execution_price == b.asks[ia].1[0].limit_price
                    &&& t.execution_price.val() == m.ask_price.val()
                    &&& t.executed_quantity == b.bids[ib].1[0].quantity_remaining.spec_min(
                        b.asks[ia].1[0].quantity_remaining,
                    )
                }
            }
        }),
{
    let ib = index_of(b.bids, m.bid_price.val());
    let ia = index_of(b.asks, m.ask_price.val());
    lemma_index_of(b.bids, m.bid_price.val());
    lemma_index_of(b.asks, m.ask_price.val());
    if ib >= 0 {
        assert(level_ok(b.bids[ib], Side::Buy));
    }
    if ia >= 0 {
        assert(level_ok(b.asks[ia], Side::Sell));
    }
    if ib >= 0 && ia >= 0 {
        let bid = b.bids[ib].1[0];
        let ask = b.asks[ia].1[0];
        assert(rests_at(bid, b.bids[ib].0, Side::Buy));
        assert(rests_at(ask, b.asks[ia].0, Side::Sell));
        let qty = bid.quantity_remaining.spec_min(ask.quantity_remaining);
        let (bid1, rb) = bid.adjusted(qty);
        let (ask1, ra) = ask.adjusted(qty);
        if rb is Ok && ra is Ok {
            let bid_fulfilled = rb->Ok_0;
            let ask_fulfilled = ra->Ok_0;
            let bid2 = LimitOrder { state: state_after_fill(bid1, bid_fulfilled, qty), ..bid1 };
            let ask2 = LimitOrder { state: state_after_fill(ask1, ask_fulfilled, qty), ..ask1 };
            lemma_front_ok(b.bids, ib, bid2, Side::Buy);
            lemma_front_ok(b.asks, ia, ask2, Side::Sell);
            let bids3 = side_with_front(b.bids, ib, bid2);
            let asks3 = side_with_front(b.asks, ia, ask2);
            let bids4 = if bid_fulfilled {
                side_without_front(bids3, bid2.limit_price).0
            } else {
                bids3
            };
            let asks5 = if ask_fulfilled {
                side_without_front(asks3, ask2.limit_price).0
            } else {
                asks3
            };
            let (b2, r) = b.after_match(m, now);
            assert(r is Ok);
            assert(b2.bids == bids4);
            assert(b2.asks == asks5);
        }
    }
}

/// A match whose two fills compute exactly, executed in a book whose orders rest where
/// they belong, fills both front orders as [`fill_effect`] says and takes the executed
/// quantity off the total remaining quantity of each side.
pub(crate) proof fn lemma_match_exact(b: BookModel, m: OrdersMatchedEvent, now: Timestamp)
    requires
        b.wf(),
        b.resting_ok(),
        ({
            let ib = index_of(b.bids, m.bid_price.val());
            let ia = index_of(b.asks, m.ask_price.val());
            ib >= 0 && ia >= 0 ==> {
                let bid = b.bids[ib].1[0];
                let ask = b.asks[ia].1[0];
                let qty = bid.quantity_remaining.spec_min(ask.quantity_remaining);
                &&& bid.adjusted(qty).1 is Ok
                &&& bid.adjusted(qty).0.quantity_remaining.val() == bid.quantity_remaining.val()
                    - qty.val()
                &&& bid.adjusted(qty).0.quantity_traded.val() == bid.quantity_traded.val()
                    + qty.val()
                &&& ask.adjusted(qty).1 is Ok
                &&& ask.adjusted(qty).0.quantity_remaining.val() == ask.quantity_remaining.val()
                    - qty.val()
                &&& ask.adjusted(qty).0.quantity_traded.val() == ask.quantity_traded.val()
                    + qty.val()
            }
        }),
    ensures
        ({
            let (b2, r) = b.after_match(m, now);
            r matches Ok(EngineEvent::TradeExecuted(t)) ==> b.exact_trade_effect(b2, m, t)
        }),
{
    let ib = index_of(b.bids, m.bid_price.val());
    let ia = index_of(b.asks, m.ask_price.val());
    lemma_index_of(b.bids, m.bid_price.val());
    lemma_index_of(b.asks, m.ask_price.val());
    lemma_match_keeps_resting(b, m, now);
    if ib >= 0 && ia >= 0 {
        assert(level_ok(b.bids[ib], Side::Buy));
        assert(level_ok(b.asks[ia], Side::Sell));
        let bid = b.bids[ib].1[0];
        let ask = b.asks[ia].1[0];
        assert(rests_at(bid, b.bids[ib].0, Side::Buy));
        assert(rests_at(ask, b.asks[ia].0, Side::Sell));
        let qty = bid.quantity_remaining.spec_min(ask.quantity_remaining);
        let (bid1, rb) = bid.adjusted(qty);
        let (ask1, ra) = ask.adjusted(qty);
        let bid_fulfilled = rb->Ok_0;
        let ask_fulfilled = ra->Ok_0;
        let bid2 = LimitOrder { state: state_after_fill(bid1, bid_fulfilled, qty), ..bid1 };
        let ask2 = LimitOrder { state: state_after_fill(ask1, ask_fulfilled, qty), ..ask1 };
        lemma_front_ok(b.bids, ib, bid2, Side::Buy);
        lemma_front_ok(b.asks, ia, ask2, Side::Sell);
        lemma_front_remaining(b.bids, ib, bid2, Side::Buy);
        lemma_front_remaining(b.asks, ia, ask2, Side::Sell);
    }
}

/// Processing any event in a book whose orders rest where they belong keeps the book
/// well formed and its orders where they belong.  An event that is refused, other than
/// a cancellation (which is counted), leaves the book as it was; one that succeeds
/// takes one or two orders off the book (at most two, by this statement alone).  A
/// cancellation is refused as not implemented and only counted; an event that is neither
/// a match nor a cancellation is refused as unsupported and changes nothing.
pub proof fn lemma_event_keeps_resting(b: BookModel, event: EngineEvent, now: Timestamp)
    requires
        b.wf(),
        b.resting_ok(),
    ensures
        ({
            let (b2, r) = b.after_event(event, now);
            &&& b2.wf()
            &&& b2.resting_ok()
            &&& r is Err && !(event is OrderCancelled) ==> b2 == b
            &&& r is Ok ==> b2.order_count() <= b.order_count() && b.order_count()
                <= b2.order_count() + 2
        }),
        ({
            let (b2, r) = b.after_event(event, now);
            match event {
                EngineEvent::OrdersMatched(_) => true,
                EngineEvent::OrderCancelled(_) => {
                    &&& r == Err::<EngineEvent, BookError>(BookError::NotImplemented)
                    &&& b2.events_processed == (b.events_processed + 1) as u64
                    &&& b2.cancelled_trades == (b.cancelled_trades + 1) as u64
                    &&& b2 == BookModel {
                        events_processed: b2.events_processed,
                        cancelled_trades: b2.cancelled_trades,
                        ..b
                    }
                },
                _ => r == Err::<EngineEvent, BookError>(BookError::UnsupportedEvent) && b2 == b,
            }
        }),
{
    if let EngineEvent::OrdersMatched(m) = event {
        lemma_match_keeps_resting(b, m, now);
    }
}

/// Placing an order keeps the book's orders where they belong.
pub proof fn lemma_insert_keeps_resting(b: BookModel, o: LimitOrder)
    requires
        b.wf(),
        b.resting_ok(),
    ensures
        b.after_insert(o).resting_ok(),
{
    let o2 = LimitOrder { state: OrderState::Open, ..o };
    match o.side {
        Side::Buy => lemma_side_with_order_ok(b.bids, o2, Side::Buy),
        Side::Sell => lemma_side_with_order_ok(b.asks, o2, Side::Sell),
    }
}

} // verus!
