//! An aggregated (level 2) order book: the total quantity at each price, per side.

use vstd::prelude::*;

use crate::book::levels::{
    index_of, insert_pos, lemma_index_of, lemma_insert_pos, lemma_insert_value, lemma_remove_value,
    lemma_update_value, strictly_ascending, value_at, PriceLevels,
};
use crate::decimal::{decimal_eq, Dec};
use crate::exchange_data::Level;

verus! {

/// The side of an aggregated book.
#[derive(Debug, Copy, Clone)]
pub enum Side {
    Bid,
    Ask,
}

/// A side after setting the quantity at `level.price` to `level.qty`: a zero quantity
/// removes the level; otherwise the level's quantity is replaced, or a level is created
/// at its place in price order.
pub open spec fn side_after_upsert(s: Seq<(Dec, Dec)>, level: Level) -> Seq<(Dec, Dec)> {
    let v = level.price.val();
    let i = index_of(s, v);
    if level.qty.val() == 0 {
        if i >= 0 {
            s.remove(i)
        } else {
            s
        }
    } else if i >= 0 {
        s.update(i, (s[i].0, level.qty))
    } else {
        s.insert(insert_pos(s, v), (level.price, level.qty))
    }
}

/// Reading a side after an upsert gives back the quantity written at its price (nothing
/// for a zero quantity) and what was there before at every other price.
pub proof fn lemma_upsert_then_read(s: Seq<(Dec, Dec)>, level: Level, w: int)
    requires
        strictly_ascending(s),
    ensures
        strictly_ascending(side_after_upsert(s, level)),
        value_at(side_after_upsert(s, level), w) == (if w == level.price.val() {
            if level.qty.val() == 0 {
                None
            } else {
                Some(level.qty)
            }
        } else {
            value_at(s, w)
        }),
{
    let v = level.price.val();
    lemma_index_of(s, v);
    let i = index_of(s, v);
    if level.qty.val() == 0 {
        if i >= 0 {
            lemma_remove_value(s, i, w);
        } else {
            if w == v {
                lemma_index_of(s, w);
            }
        }
    } else if i >= 0 {
        lemma_update_value(s, i, level.qty, w);
    } else {
        lemma_insert_value(s, level.price, level.qty, w);
    }
}

/// An aggregated order book.
pub struct L2OrderBook {
    last_update_id: u64,
    pub asks: PriceLevels<Dec>,
    pub bids: PriceLevels<Dec>,
}

/// An aggregated order book as a mathematical value: each side's levels in ascending
/// order of price, with their quantities.
pub struct L2Model {
    pub last_update_id: u64,
    pub asks: Seq<(Dec, Dec)>,
    pub bids: Seq<(Dec, Dec)>,
}

impl View for L2OrderBook {
    type V = L2Model;

    closed spec fn view(&self) -> L2Model {
        L2Model { last_update_id: self.last_update_id, asks: self.asks@, bids: self.bids@ }
    }
}

impl L2OrderBook {
    /// Both sides ascend strictly by price.
    pub closed spec fn wf(&self) -> bool {
        self.asks.wf() && self.bids.wf()
    }

    pub broadcast proof fn lemma_wf(&self)
        ensures
            #[trigger] self.wf() == (strictly_ascending(self@.asks) && strictly_ascending(
                self@.bids,
            )),
    {
    }

    pub fn new() -> (r: Self)
        ensures
            r.wf(),
            r@ == (L2Model {
                last_update_id: 1,
                asks: Seq::<(Dec, Dec)>::empty(),
                bids: Seq::<(Dec, Dec)>::empty(),
            }),
    {
        L2OrderBook { last_update_id: 1, asks: PriceLevels::new(), bids: PriceLevels::new() }
    }

    /// Sets the quantity at `level.price` on one side.
    fn upsert_level(levels: &mut PriceLevels<Dec>, level: Level)
        requires
            old(levels).wf(),
        ensures
            final(levels).wf(),
            final(levels)@ == side_after_upsert(old(levels)@, level),
    {
        let ghost s0 = levels@;
        proof {
            lemma_index_of(s0, level.price.val());
            lemma_insert_pos(s0, level.price.val());
        }
        let zero = Dec::zero();
        match levels.search(&level.price) {
            Ok(i) => {
                *levels.value_mut(i) = level.qty;
                let ghost s1 = levels@;
                proof {
                    assert(levels.wf()) by {
                        assert forall|a: int, b: int| 0 <= a < b < s1.len() implies #[trigger] s1[a].0.val()
                            < #[trigger] s1[b].0.val() by {
                            assert(s1[a].0 == s0[a].0 && s1[b].0 == s0[b].0);
                        }
                    }
                }
                if decimal_eq(&levels.value_ref(i), &zero) {
                    levels.remove_at(i);
                    proof {
                        assert(levels@ =~= s0.remove(i as int));
                    }
                }
            },
            Err(_) => {
                levels.insert_new(level.price, level.qty);
                let ghost s1 = levels@;
                if decimal_eq(&level.qty, &zero) {
                    let ghost p = insert_pos(s0, level.price.val());
                    proof {
                        assert(s1[p].0 == level.price);
                        lemma_index_of(s1, level.price.val());
                    }
                    levels.remove(&level.price);
                    proof {
                        assert(levels@ =~= s0);
                    }
                }
            },
        }
    }

    /// Sets the quantity at `level.price` on `side` to `level.qty`; a zero quantity
    /// removes the level.
    pub fn upsert(&mut self, level: Level, side: Side)
        requires
            old(self).wf(),
        ensures
            final(self).wf(),
            final(self)@ == (match side {
                Side::Bid => L2Model { bids: side_after_upsert(old(self)@.bids, level), ..old(self)@ },
                Side::Ask => L2Model { asks: side_after_upsert(old(self)@.asks, level), ..old(self)@ },
            }),
    {
        match side {
            Side::Bid => L2OrderBook::upsert_level(&mut self.bids, level),
            Side::Ask => L2OrderBook::upsert_level(&mut self.asks, level),
        }
    }
}

} // verus!
