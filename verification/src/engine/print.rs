//! Who started a trade.

use crate::book::event::{Event, EventType};
#[allow(unused_imports)]
use crate::book::event;
use vstd::prelude::*;

verus! {

/// A trade as it is told.
#[derive(Debug, Clone, Copy, PartialEq, Eq, Structural)]
pub struct Print {
    pub price: u64,
    pub qty: u64,
    pub ts: u64,
    /// 1 for the buyer, -1 for the seller, 0 where that is not known.
    pub aggressor: i8,
}

/// The price of a trade: its own, or that of the best order on its side where
/// it names none.
pub open spec fn print_price(e: Event, bid: u64, ask: u64) -> u64 {
    if e.price > 0 {
        e.price
    } else if e.side == 1 {
        ask
    } else {
        bid
    }
}

/// Who started a trade at `price`, by the best prices before it; zero stands for
/// no price. A crossed or locked book tells nothing.
pub open spec fn aggressor_of(price: u64, bid: u64, ask: u64) -> i8 {
    if bid > 0 && ask > 0 && bid >= ask {
        0
    } else if ask > 0 && price >= ask {
        1
    } else if bid > 0 && price <= bid {
        -1i8
    } else {
        0
    }
}

/// The trade of an event, by the best prices before it. Anything but a trade
/// gives none, nor does a trade whose price is not known.
pub open spec fn print_of(e: Event, bid: u64, ask: u64) -> Option<Print> {
    if e.event_type == event::event_code(EventType::Trade) && print_price(e, bid, ask) > 0 {
        let price = print_price(e, bid, ask);
        Some(Print { price, qty: e.qty, ts: e.ts, aggressor: aggressor_of(price, bid, ask) })
    } else {
        None
    }
}

/// The trade of an event, by the best prices before it.
pub fn tag_trade(e: &Event, bid: u64, ask: u64) -> (p: Option<Print>)
    ensures
        p == print_of(*e, bid, ask),
{
    if e.event_type != EventType::Trade.code() {
        return None;
    }
    let price: u64 = if e.price > 0 {
        e.price
    } else if e.side == 1 {
        ask
    } else {
        bid
    };
    if price == 0 {
        return None;
    }
    let crossed: bool = bid > 0 && ask > 0 && bid >= ask;
    let aggressor: i8 = if crossed {
        0
    } else if ask > 0 && price >= ask {
        1
    } else if bid > 0 && price <= bid {
        -1
    } else {
        0
    };
    Some(Print { price, qty: e.qty, ts: e.ts, aggressor })
}

// ─── Laws ───────────────────────────────────────────────────────────

/// A crossed or locked book never says who started a trade.
pub proof fn crossed_books_tell_nothing(e: Event, bid: u64, ask: u64)
    requires
        0 < ask <= bid,
    ensures
        print_of(e, bid, ask) matches Some(p) ==> p.aggressor == 0,
{
}

/// In an orderly book a trade at or through the ask is the buyer's, at or
/// through the bid the seller's, and one in between nobody's.
pub proof fn orderly_books_tell(e: Event, bid: u64, ask: u64)
    requires
        0 < bid < ask,
        e.event_type == event::event_code(EventType::Trade),
        e.price > 0,
    ensures
        print_of(e, bid, ask) matches Some(p) && p.aggressor == (if e.price >= ask {
            1i8
        } else if e.price <= bid {
            -1i8
        } else {
            0i8
        }),
{
}

/// What a trade tells: its own price where it has one, else the best price of the side
/// that rested, and its quantity and time. Without any price there is nothing to tell, nor
/// of anything but a trade. With one side alone in the book only that side can tell who
/// started it.
pub proof fn prints_tell_their_trade(e: Event, bid: u64, ask: u64)
    ensures
        e.event_type != event::event_code(EventType::Trade) ==> print_of(e, bid, ask) is None,
        e.event_type == event::event_code(EventType::Trade) && e.price > 0 ==> (print_of(
            e,
            bid,
            ask,
        ) matches Some(p) && p.price == e.price && p.qty == e.qty && p.ts == e.ts),
        e.event_type == event::event_code(EventType::Trade) && e.price == 0 && e.side == 1 ==> (print_of(
            e,
            bid,
            ask,
        ) is Some <==> ask > 0) && (print_of(e, bid, ask) matches Some(p) ==> p.price == ask),
        e.event_type == event::event_code(EventType::Trade) && e.price == 0 && e.side != 1 ==> (print_of(
            e,
            bid,
            ask,
        ) is Some <==> bid > 0) && (print_of(e, bid, ask) matches Some(p) ==> p.price == bid),
        bid == 0 && ask > 0 ==> (print_of(e, bid, ask) matches Some(p) ==> p.aggressor == (if p.price >= ask {
            1i8
        } else {
            0i8
        })),
        ask == 0 && bid > 0 ==> (print_of(e, bid, ask) matches Some(p) ==> p.aggressor == (if p.price <= bid {
            -1i8
        } else {
            0i8
        })),
        bid == 0 && ask == 0 ==> (print_of(e, bid, ask) matches Some(p) ==> p.aggressor == 0),
{
}

} // verus!
