//! Resolves cancels and trades that name only an order to a place in the book.

use crate::book::event::Event;
#[allow(unused_imports)]
use crate::book::event;
#[allow(unused_imports)]
use crate::book::event::EventType;
use crate::book::model::OrderMeta;
#[allow(unused_imports)]
use crate::book::model;
use std::collections::HashMap;
use vstd::prelude::*;

verus! {

/// Who took liquidity.
#[derive(Debug, Clone, Copy, PartialEq, Eq, Structural)]
pub enum AggressorSide {
    Buy,
    Sell,
}

/// A change of one level.
#[derive(Debug, Clone, Copy, PartialEq, Eq, Structural)]
pub struct ResolvedBookUpdate {
    pub side: u8,
    pub price: u64,
    pub qty: u64,
}

/// A trade against one level.
#[derive(Debug, Clone, Copy, PartialEq, Eq, Structural)]
pub struct ResolvedTrade {
    pub update: ResolvedBookUpdate,
    pub aggressor: AggressorSide,
}

/// What an event that names no known order says by itself.
pub open spec fn anonymous(side: u8, price: u64, qty: u64) -> Option<ResolvedBookUpdate> {
    if side <= 1 {
        Some(ResolvedBookUpdate { side, price, qty })
    } else {
        None
    }
}

/// Whoever hits a bid sells, whoever lifts an ask buys.
pub open spec fn aggressor_of(resting_side: u8) -> AggressorSide {
    if resting_side == 0 {
        AggressorSide::Sell
    } else {
        AggressorSide::Buy
    }
}

/// The quantity that leaves an order: all of it when the event says zero or
/// at least as much.
pub open spec fn leaving(known: u64, said: u64) -> u64 {
    if said == 0 || said >= known {
        known
    } else {
        said
    }
}

/// One add.
pub open spec fn tracked_add(m: Map<u64, OrderMeta>, e: Event) -> (
    Map<u64, OrderMeta>,
    Option<ResolvedBookUpdate>,
) {
    let u = anonymous(e.side, e.price, e.qty);
    if u is Some && e.order_id != 0 {
        (m.insert(e.order_id, OrderMeta { price: e.price, qty: e.qty, side: e.side }), u)
    } else {
        (m, u)
    }
}

/// One cancel. A known order says where; an unknown one only counts with a
/// price of its own.
pub open spec fn tracked_cancel(m: Map<u64, OrderMeta>, e: Event) -> (
    Map<u64, OrderMeta>,
    Option<ResolvedBookUpdate>,
) {
    if e.order_id != 0 && m.contains_key(e.order_id) {
        let o = m[e.order_id];
        (
            model::settle(m, e.order_id, model::after_cancel(o, e.qty)),
            Some(ResolvedBookUpdate { side: o.side, price: o.price, qty: leaving(o.qty, e.qty) }),
        )
    } else if e.order_id != 0 && e.price == 0 {
        (m, None)
    } else {
        (m, anonymous(e.side, e.price, e.qty))
    }
}

/// One trade. As for a cancel, but a price on the event wins over that of the
/// order.
pub open spec fn tracked_trade(m: Map<u64, OrderMeta>, e: Event) -> (
    Map<u64, OrderMeta>,
    Option<ResolvedTrade>,
) {
    if e.order_id != 0 && m.contains_key(e.order_id) {
        let o = m[e.order_id];
        (
            model::settle(m, e.order_id, model::after_cancel(o, e.qty)),
            Some(
                ResolvedTrade {
                    update: ResolvedBookUpdate {
                        side: o.side,
                        price: if e.price != 0 {
                            e.price
                        } else {
                            o.price
                        },
                        qty: leaving(o.qty, e.qty),
                    },
                    aggressor: aggressor_of(o.side),
                },
            ),
        )
    } else if e.order_id != 0 && e.price == 0 {
        (m, None)
    } else {
        (
            m,
            match anonymous(e.side, e.price, e.qty) {
                Some(update) => Some(ResolvedTrade { update, aggressor: aggressor_of(update.side) }),
                None => None,
            },
        )
    }
}

/// The orders seen and still live.
#[derive(Debug)]
pub struct OrderTracker {
    orders: HashMap<u64, OrderMeta>,
}

impl View for OrderTracker {
    type V = Map<u64, OrderMeta>;

    closed spec fn view(&self) -> Map<u64, OrderMeta> {
        self.orders@
    }
}

impl OrderTracker {
    /// Only orders of a known side are tracked.
    pub open spec fn wf(&self) -> bool {
        forall|k: u64| #[trigger] self@.contains_key(k) ==> self@[k].side <= 1
    }

    /// A tracker that knows no order.
    pub fn new() -> (t: Self)
        ensures
            t.wf(),
            t@ == Map::<u64, OrderMeta>::empty(),
    {
        OrderTracker { orders: HashMap::new() }
    }

    /// Resolves an add and remembers its order.
    pub fn on_add(&mut self, event: &Event) -> (r: Option<ResolvedBookUpdate>)
        requires
            old(self).wf(),
        ensures
            final(self).wf(),
            (final(self)@, r) == tracked_add(old(self)@, *event),
    {
        let update = anonymous_update(event.side, event.price, event.qty);
        if update.is_some() && event.order_id != 0 {
            self.orders.insert(
                event.order_id,
                OrderMeta { price: event.price, qty: event.qty, side: event.side },
            );
        }
        assert forall|k: u64| #[trigger] self@.contains_key(k) implies self@[k].side <= 1 by {
            assert(k == event.order_id || old(self)@.contains_key(k));
        }
        update
    }

    /// Resolves a cancel.
    pub fn on_cancel(&mut self, event: &Event) -> (r: Option<ResolvedBookUpdate>)
        requires
            old(self).wf(),
        ensures
            final(self).wf(),
            (final(self)@, r) == tracked_cancel(old(self)@, *event),
    {
        if event.order_id != 0 {
            let known: Option<OrderMeta> = match self.orders.get(&event.order_id) {
                Some(o) => Some(*o),
                None => None,
            };
            if let Some(o) = known {
                let qty: u64 = self.take(event, o);
                return Some(ResolvedBookUpdate { side: o.side, price: o.price, qty });
            }
            if event.price == 0 {
                return None;
            }
        }
        anonymous_update(event.side, event.price, event.qty)
    }

    /// Resolves a trade.
    pub fn on_trade(&mut self, event: &Event) -> (r: Option<ResolvedTrade>)
        requires
            old(self).wf(),
        ensures
            final(self).wf(),
            (final(self)@, r) == tracked_trade(old(self)@, *event),
    {
        if event.order_id != 0 {
            let known: Option<OrderMeta> = match self.orders.get(&event.order_id) {
                Some(o) => Some(*o),
                None => None,
            };
            if let Some(o) = known {
                let price: u64 = if event.price != 0 { event.price } else { o.price };
                let qty: u64 = self.take(event, o);
                return Some(
                    ResolvedTrade {
                        update: ResolvedBookUpdate { side: o.side, price, qty },
                        aggressor: aggressor_from_resting_side(o.side),
                    },
                );
            }
            if event.price == 0 {
                return None;
            }
        }
        match anonymous_update(event.side, event.price, event.qty) {
            Some(update) => Some(
                ResolvedTrade { update, aggressor: aggressor_from_resting_side(update.side) },
            ),
            None => None,
        }
    }

    /// Takes the event's quantity from its order and says how much that was.
    fn take(&mut self, event: &Event, o: OrderMeta) -> (qty: u64)
        requires
            old(self).wf(),
            old(self)@.contains_key(event.order_id),
            old(self)@[event.order_id] == o,
        ensures
            final(self).wf(),
            final(self)@ == model::settle(
                old(self)@,
                event.order_id,
                model::after_cancel(o, event.qty),
            ),
            qty == leaving(o.qty, event.qty),
    {
        let qty: u64 = resolved_qty(o.qty, event.qty);
        if qty >= o.qty {
            self.orders.remove(&event.order_id);
        } else {
            self.orders.insert(
                event.order_id,
                OrderMeta { price: o.price, qty: o.qty - qty, side: o.side },
            );
        }
        qty
    }
}

fn anonymous_update(side: u8, price: u64, qty: u64) -> (r: Option<ResolvedBookUpdate>)
    ensures
        r == anonymous(side, price, qty),
{
    if side <= 1 {
        Some(ResolvedBookUpdate { side, price, qty })
    } else {
        None
    }
}

fn aggressor_from_resting_side(side: u8) -> (r: AggressorSide)
    requires
        side <= 1,
    ensures
        r == aggressor_of(side),
{
    if side == 0 {
        AggressorSide::Sell
    } else {
        AggressorSide::Buy
    }
}

fn resolved_qty(known_qty: u64, event_qty: u64) -> (q: u64)
    ensures
        q == leaving(known_qty, event_qty),
{
    if event_qty == 0 || event_qty >= known_qty {
        known_qty
    } else {
        event_qty
    }
}

/// The tracker never forgets an order before all of it has left, and an order
/// never grows.
pub proof fn tracker_conserves_orders(m: Map<u64, OrderMeta>, e: Event)
    requires
        e.order_id != 0,
        m.contains_key(e.order_id),
    ensures
        ({
            let (n, u) = tracked_cancel(m, e);
            let before = m[e.order_id].qty;
            &&& u is Some
            &&& n.contains_key(e.order_id) ==> n[e.order_id].qty + u->0.qty == before
            &&& !n.contains_key(e.order_id) ==> u->0.qty == before
        }),
        ({
            let (n, u) = tracked_trade(m, e);
            let before = m[e.order_id].qty;
            &&& u is Some
            &&& n.contains_key(e.order_id) ==> n[e.order_id].qty + u->0.update.qty == before
            &&& !n.contains_key(e.order_id) ==> u->0.update.qty == before
        }),
{
}

/// The tracker after an event.
pub open spec fn known_after(m: Map<u64, OrderMeta>, e: Event) -> Map<u64, OrderMeta> {
    if e.event_type == event::event_code(EventType::OrderAdd) {
        tracked_add(m, e).0
    } else if e.event_type == event::event_code(EventType::OrderCancel) {
        tracked_cancel(m, e).0
    } else if e.event_type == event::event_code(EventType::Trade) {
        tracked_trade(m, e).0
    } else {
        m
    }
}

/// How much of an order is told to leave the book by an event.
pub open spec fn told_of(m: Map<u64, OrderMeta>, e: Event, id: u64) -> nat {
    if e.order_id != id || !m.contains_key(id) {
        0
    } else if e.event_type == event::event_code(EventType::OrderCancel) {
        tracked_cancel(m, e).1->0.qty as nat
    } else if e.event_type == event::event_code(EventType::Trade) {
        tracked_trade(m, e).1->0.update.qty as nat
    } else {
        0
    }
}

/// The tracker after several events, and how much of an order they told to leave.
pub open spec fn tracked_run(m: Map<u64, OrderMeta>, s: Seq<Event>, id: u64) -> (Map<u64, OrderMeta>, nat)
    decreases s.len(),
{
    if s.len() == 0 {
        (m, 0)
    } else {
        let (n, left) = tracked_run(m, s.drop_last(), id);
        (known_after(n, s.last()), left + told_of(n, s.last(), id))
    }
}

/// What the tracker knows to rest of an order.
pub open spec fn resting_of(m: Map<u64, OrderMeta>, id: u64) -> nat {
    if m.contains_key(id) {
        m[id].qty as nat
    } else {
        0
    }
}

/// Until an order is added anew, whatever comes for it and for others, what has
/// left of it and what still rests make up what it was: nothing leaves twice and
/// nothing is forgotten.
pub proof fn tracker_conserves_orders_throughout(m: Map<u64, OrderMeta>, s: Seq<Event>, id: u64)
    requires
        id != 0,
        forall|i: int|
            #![trigger s[i]]
            0 <= i < s.len() ==> s[i].order_id != id || s[i].event_type != event::event_code(
                EventType::OrderAdd,
            ),
    ensures
        tracked_run(m, s, id).1 + resting_of(tracked_run(m, s, id).0, id) == resting_of(m, id),
    decreases s.len(),
{
    if s.len() > 0 {
        let head = s.drop_last();
        assert forall|i: int| #![trigger head[i]] 0 <= i < head.len() implies head[i].order_id != id
            || head[i].event_type != event::event_code(EventType::OrderAdd) by {
            assert(head[i] == s[i]);
        }
        tracker_conserves_orders_throughout(m, head, id);
        let n = tracked_run(m, head, id).0;
        let e = s[s.len() - 1];
        assert(e == s.last());
        if e.order_id == id && n.contains_key(id) {
            tracker_conserves_orders(n, e);
        }
    }
}

/// What the tracker resolves: an add of a known side is remembered as it is; a cancel or
/// trade of a remembered order tells its side and place and takes what is said, or all
/// where that is nothing or more, and a trade with a price is at that price. Whoever
/// trades with a bid sells and whoever trades with an ask buys. Other orders stay.
pub proof fn orders_are_resolved(m: Map<u64, OrderMeta>, e: Event, k: u64)
    requires
        e.order_id != 0,
    ensures
        e.side <= 1 ==> {
            let (n, u) = tracked_add(m, e);
            &&& u matches Some(x) && x.side == e.side && x.price == e.price && x.qty == e.qty
            &&& n.contains_key(e.order_id)
            &&& n[e.order_id].price == e.price && n[e.order_id].qty == e.qty && n[e.order_id].side == e.side
        },
        e.side > 1 ==> tracked_add(m, e).1 is None && tracked_add(m, e).0 == m,
        m.contains_key(e.order_id) ==> {
            let o = m[e.order_id];
            let (n, u) = tracked_cancel(m, e);
            let (t, v) = tracked_trade(m, e);
            &&& u matches Some(x) && x.side == o.side && x.price == o.price
            &&& v matches Some(y) && y.update.side == o.side && (e.price != 0 ==> y.update.price == e.price) && (
            e.price == 0 ==> y.update.price == o.price)
            &&& n == t
            &&& v->0.update.qty == u->0.qty
            &&& e.qty == 0 || e.qty >= o.qty ==> u->0.qty == o.qty && !n.contains_key(e.order_id)
            &&& 0 < e.qty < o.qty ==> u->0.qty == e.qty && n.contains_key(e.order_id) && n[e.order_id].qty
                == o.qty - e.qty && n[e.order_id].price == o.price && n[e.order_id].side == o.side
            &&& o.side == 0 ==> v->0.aggressor == AggressorSide::Sell
            &&& o.side == 1 ==> v->0.aggressor == AggressorSide::Buy
        },
        !m.contains_key(e.order_id) ==> {
            &&& tracked_cancel(m, e).0 == m
            &&& tracked_trade(m, e).0 == m
            &&& tracked_cancel(m, e).1 is Some <==> e.price != 0 && e.side <= 1
            &&& tracked_trade(m, e).1 is Some <==> e.price != 0 && e.side <= 1
            &&& tracked_cancel(m, e).1 matches Some(x) ==> x.side == e.side && x.price == e.price && x.qty == e.qty
            &&& tracked_trade(m, e).1 matches Some(y) ==> {
                &&& y.update.side == e.side && y.update.price == e.price && y.update.qty == e.qty
                &&& e.side == 0 ==> y.aggressor == AggressorSide::Sell
                &&& e.side == 1 ==> y.aggressor == AggressorSide::Buy
            }
        },
        k != e.order_id ==> {
            &&& tracked_add(m, e).0.contains_key(k) == m.contains_key(k) && tracked_add(m, e).0[k] == m[k]
            &&& tracked_cancel(m, e).0.contains_key(k) == m.contains_key(k) && tracked_cancel(m, e).0[k] == m[k]
            &&& tracked_trade(m, e).0.contains_key(k) == m.contains_key(k) && tracked_trade(m, e).0[k] == m[k]
        },
{
}

/// An event without an ID says by itself what it is about, and is not remembered.
pub proof fn anonymous_events_speak_for_themselves(m: Map<u64, OrderMeta>, e: Event)
    requires
        e.order_id == 0,
    ensures
        tracked_add(m, e).0 == m,
        tracked_cancel(m, e).0 == m,
        tracked_trade(m, e).0 == m,
        tracked_add(m, e).1 is Some <==> e.side <= 1,
        tracked_cancel(m, e).1 is Some <==> e.side <= 1,
        tracked_trade(m, e).1 is Some <==> e.side <= 1,
        tracked_add(m, e).1 matches Some(x) ==> x.side == e.side && x.price == e.price && x.qty == e.qty,
        tracked_cancel(m, e).1 matches Some(x) ==> x.side == e.side && x.price == e.price && x.qty == e.qty,
        tracked_trade(m, e).1 matches Some(y) ==> {
            &&& y.update.side == e.side && y.update.price == e.price && y.update.qty == e.qty
            &&& e.side == 0 ==> y.aggressor == AggressorSide::Sell
            &&& e.side == 1 ==> y.aggressor == AggressorSide::Buy
        },
{
}

} // verus!
