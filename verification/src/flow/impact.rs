//! Price impact per unit traded.

use crate::book::event::{Event, EventType};
#[allow(unused_imports)]
use crate::book::event;
use crate::flow::rolling::slide_in;
#[allow(unused_imports)]
use crate::flow::rolling;
use std::collections::VecDeque;
use vstd::prelude::*;

verus! {

/// Price movement over traded quantity. No quantity means no impact.
#[derive(Debug, Clone, Copy, PartialEq, Eq, Structural)]
pub struct Impact {
    pub price_move: u64,
    pub qty: u64,
}

/// The impact of a trade at `price` of `qty` after one at `prev`.
pub open spec fn impact_of(prev: u64, price: u64, qty: u64) -> Impact {
    Impact {
        price_move: if qty == 0 {
            0
        } else if price >= prev {
            (price - prev) as u64
        } else {
            (prev - price) as u64
        },
        qty: if qty == 0 {
            1
        } else {
            qty
        },
    }
}

/// The last impacts.
#[derive(Debug)]
pub struct ImpactTracker {
    last_trade_price: Option<u64>,
    impacts: VecDeque<Impact>,
    window: usize,
}

impl ImpactTracker {
    /// The kept impacts, oldest first.
    pub closed spec fn kept(&self) -> Seq<Impact> {
        self.impacts@
    }

    /// How many impacts are kept.
    pub closed spec fn size(&self) -> nat {
        self.window as nat
    }

    /// Price of the last trade.
    pub closed spec fn last_price(&self) -> Option<u64> {
        self.last_trade_price
    }

    /// A tracker of the last `window` impacts.
    pub fn new(window: usize) -> (t: Self)
        ensures
            t.kept() == Seq::<Impact>::empty(),
            t.size() == window,
            t.last_price() is None,
    {
        ImpactTracker {
            last_trade_price: None,
            impacts: VecDeque::with_capacity(window),
            window,
        }
    }

    /// One trade event; anything else is ignored. The first trade has no impact.
    pub fn process_trade(&mut self, event: &Event) -> (r: Option<Impact>)
        ensures
            final(self).size() == old(self).size(),
            if event.event_type != event::event_code(EventType::Trade) {
                &&& r is None
                &&& final(self).kept() == old(self).kept()
                &&& final(self).last_price() == old(self).last_price()
            } else {
                &&& final(self).last_price() == Some(event.price)
                &&& match old(self).last_price() {
                    None => r is None && final(self).kept() == old(self).kept(),
                    Some(prev) => {
                        let i = impact_of(prev, event.price, event.qty);
                        &&& r == Some(i)
                        &&& final(self).kept() == rolling::slide(old(self).kept(), old(self).size(), i)
                    },
                }
            },
    {
        if event.event_type != EventType::Trade.code() {
            return None;
        }
        let r: Option<Impact> = match self.last_trade_price {
            None => None,
            Some(prev) => {
                let i: Impact = if event.qty == 0 {
                    Impact { price_move: 0, qty: 1 }
                } else if event.price >= prev {
                    Impact { price_move: event.price - prev, qty: event.qty }
                } else {
                    Impact { price_move: prev - event.price, qty: event.qty }
                };
                slide_in(&mut self.impacts, self.window, i);
                Some(i)
            },
        };
        self.last_trade_price = Some(event.price);
        r
    }

    /// The kept impacts, oldest first: their mean is the mean impact.
    pub fn impacts(&self) -> (r: Vec<Impact>)
        ensures
            r@ == self.kept(),
    {
        let mut out: Vec<Impact> = Vec::new();
        let mut i: usize = 0;
        while i < self.impacts.len()
            invariant
                i <= self.impacts@.len(),
                out@ == self.impacts@.take(i as int),
            decreases self.impacts@.len() - i,
        {
            assert(self.impacts@.take(i + 1) =~= self.impacts@.take(i as int).push(
                self.impacts@[i as int],
            ));
            out.push(self.impacts[i]);
            i += 1;
        }
        assert(self.impacts@.take(i as int) =~= self.impacts@);
        out
    }
}

// ─── Laws ───────────────────────────────────────────────────────────

/// The impact of a trade is how far the price moved, either way, over what was traded;
/// a move up and the same move down weigh the same, and no quantity has no impact.
pub proof fn impact_is_the_move_over_the_quantity(prev: u64, price: u64, qty: u64)
    ensures
        qty > 0 ==> impact_of(prev, price, qty).qty == qty,
        qty > 0 ==> impact_of(prev, price, qty).price_move == price - prev || impact_of(
            prev,
            price,
            qty,
        ).price_move == prev - price,
        qty > 0 && price != prev ==> impact_of(prev, price, qty).price_move > 0,
        qty == 0 ==> impact_of(prev, price, qty).price_move == 0 && impact_of(prev, price, qty).qty == 1,
        impact_of(prev, price, qty) == impact_of(price, prev, qty),
{
}

} // verus!
