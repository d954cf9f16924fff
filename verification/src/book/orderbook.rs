//! Reference order book over ordered maps.

use crate::book::digest::digest_book;
use crate::book::event::{Event, EventType, Side};
pub use crate::book::model::Level;
use crate::book::model::{BookModel, Ladder, OrderMeta};
use crate::book::types::{OrderId, Price, Qty};
#[allow(unused_imports)]
use crate::book::{digest, event, hot_book, ladder, model};
use crate::ordered::{max_key, min_key};
use std::collections::BTreeMap;
use std::collections::HashMap;
use vstd::prelude::*;

verus! {

/// One resting order.
#[derive(Debug, Clone, Copy)]
pub struct Order {
    pub order_id: OrderId,
    pub price: Price,
    pub qty: Qty,
    pub side: Side,
}

/// Level-two book with its orders.
#[derive(Debug)]
pub struct OrderBook {
    pub instrument_id: u32,
    /// Bid levels by price.
    pub bids: BTreeMap<Price, Level>,
    /// Ask levels by price.
    pub asks: BTreeMap<Price, Level>,
    orders: HashMap<OrderId, Order>,
}

/// The ladder an ordered map of levels stands for.
pub open spec fn ladder_in(m: Map<u64, Level>) -> Ladder {
    m.map_values(|l: Level| ladder::level_model(l))
}

/// Each level is stored under its own price and counts at least one order.
pub open spec fn levels_ok(m: Map<u64, Level>) -> bool {
    &&& m.dom().finite()
    &&& forall|p: u64| #[trigger] m.contains_key(p) ==> m[p].price == p && m[p].order_count >= 1
}

/// Adds one order of `qty` at `price`.
fn raise_level(levels: &mut BTreeMap<Price, Level>, price: u64, qty: u64)
    requires
        levels_ok(old(levels)@),
        old(levels)@.contains_key(price) ==> {
            &&& old(levels)@[price].total_qty + qty <= u64::MAX
            &&& old(levels)@[price].order_count < u32::MAX
        },
    ensures
        levels_ok(final(levels)@),
        ladder_in(final(levels)@) == model::grow(ladder_in(old(levels)@), price, qty as nat),
{
    let next: Level = match levels.get(&price) {
        Some(l) => Level {
            price,
            total_qty: l.total_qty + qty,
            order_count: l.order_count + 1,
        },
        None => Level { price, total_qty: qty, order_count: 1 },
    };
    levels.insert(price, next);
    assert(ladder_in(levels@) =~= model::grow(ladder_in(old(levels)@), price, qty as nat));
}

/// Takes `qty` from the level at `price`, if it stands; with `release` one order
/// leaves too, and a level goes with its last order.
fn lower_level(levels: &mut BTreeMap<Price, Level>, price: u64, qty: u64, release: bool)
    requires
        levels_ok(old(levels)@),
    ensures
        levels_ok(final(levels)@),
        ladder_in(final(levels)@) == model::shrink(ladder_in(old(levels)@), price, qty as nat, release),
{
    let at: Option<Level> = match levels.get(&price) {
        Some(l) => Some(*l),
        None => None,
    };
    if let Some(l) = at {
        let left: u64 = l.total_qty.saturating_sub(qty);
        if release {
            let count: u32 = l.order_count.saturating_sub(1);
            if count == 0 {
                levels.remove(&price);
            } else {
                levels.insert(price, Level { price, total_qty: left, order_count: count });
            }
        } else {
            levels.insert(price, Level { price, total_qty: left, order_count: l.order_count });
        }
    }
    assert(ladder_in(levels@) =~= model::shrink(ladder_in(old(levels)@), price, qty as nat, release));
}

/// The levels in ascending price order.
fn ascending(levels: &BTreeMap<Price, Level>) -> (r: Vec<Level>)
    requires
        levels_ok(levels@),
    ensures
        ladder::sorted(r@, false),
        ladder::ladder_of(r@) == ladder_in(levels@),
{
    let mut out: Vec<Level> = Vec::new();
    let iter = levels.iter();
    let ghost items = vstd::std_specs::iter::IteratorSpec::remaining(&iter);
    let ghost keys = items.map_values(|kv: (&u64, &Level)| *kv.0);
    for kv in it: iter
        invariant
            it.seq() == items,
            out@.len() == it.index(),
            forall|i: int| 0 <= i < out@.len() ==> #[trigger] out@[i] == *items[i].1,
    {
        out.push(*kv.1);
    }
    proof {
        assert forall|i: int| 0 <= i < items.len() implies levels@.contains_key(*(#[trigger] items[i]).0)
            && levels@[*items[i].0] == *items[i].1 by {}
        assert forall|i: int, j: int| 0 <= i < j < out@.len() implies ladder::better(
            false,
            #[trigger] out@[i].price,
            #[trigger] out@[j].price,
        ) by {
            assert(keys[i] == *items[i].0 && keys[j] == *items[j].0);
            assert(vstd::std_specs::btree::increasing_seq(keys));
            assert(vstd::std_specs::cmp::OrdSpec::cmp_spec(&keys[i], &keys[j]) is Less);
            assert(levels@.contains_key(*items[i].0) && levels@.contains_key(*items[j].0));
        }
        assert forall|p: u64| levels@.contains_key(p) implies ladder::has_price(out@, p) by {
            assert(items.contains((&p, &levels@[p])));
            let k = choose|k: int| 0 <= k < items.len() && items[k] == (&p, &levels@[p]);
            assert(out@[k].price == p);
        }
        assert forall|p: u64| ladder::has_price(out@, p) implies levels@.contains_key(p) && ladder::level_model(levels@[p])
            == ladder::ladder_of(out@)[p] by {
            let k = ladder::index_of_price(out@, p);
            ladder::lemma_level_at(out@, false, k);
            assert(levels@.contains_key(*items[k].0));
        }
        assert(ladder::ladder_of(out@) =~= ladder_in(levels@));
    }
    out
}

/// The same levels from the last to the first.
fn reversed(levels: &Vec<Level>) -> (r: Vec<Level>)
    requires
        ladder::sorted(levels@, false),
    ensures
        ladder::sorted(r@, true),
        ladder::ladder_of(r@) == ladder::ladder_of(levels@),
{
    let mut out: Vec<Level> = Vec::new();
    let n: usize = levels.len();
    let mut i: usize = 0;
    while i < n
        invariant
            n == levels@.len(),
            i <= n,
            out@.len() == i,
            forall|j: int| 0 <= j < i ==> #[trigger] out@[j] == levels@[n - 1 - j],
        decreases n - i,
    {
        out.push(levels[n - 1 - i]);
        i += 1;
    }
    proof {
        assert forall|i: int, j: int| 0 <= i < j < out@.len() implies ladder::better(
            true,
            #[trigger] out@[i].price,
            #[trigger] out@[j].price,
        ) by {
            assert(ladder::better(false, levels@[n - 1 - j].price, levels@[n - 1 - i].price));
        }
        assert forall|p: u64| ladder::has_price(levels@, p) <==> ladder::has_price(out@, p) by {
            if ladder::has_price(levels@, p) {
                let k = ladder::index_of_price(levels@, p);
                assert(out@[n - 1 - k].price == p);
            }
            if ladder::has_price(out@, p) {
                let k = ladder::index_of_price(out@, p);
                assert(levels@[n - 1 - k].price == p);
            }
        }
        assert forall|p: u64| ladder::has_price(out@, p) implies #[trigger] ladder::ladder_of(out@)[p] == ladder::ladder_of(
            levels@,
        )[p] by {
            let k = ladder::index_of_price(out@, p);
            ladder::lemma_level_at(out@, true, k);
            ladder::lemma_level_at(levels@, false, n - 1 - k);
        }
        assert(ladder::ladder_of(out@) =~= ladder::ladder_of(levels@));
    }
    out
}

/// All the quantity of some levels.
fn total(levels: &Vec<Level>) -> (d: u64)
    requires
        hot_book::depth_of(levels@, levels@.len()) <= u64::MAX,
    ensures
        d == hot_book::depth_of(levels@, levels@.len()),
{
    let mut d: u64 = 0;
    let mut i: usize = 0;
    while i < levels.len()
        invariant
            i <= levels@.len(),
            d == hot_book::depth_of(levels@, i as nat),
            hot_book::depth_of(levels@, levels@.len()) <= u64::MAX,
        decreases levels@.len() - i,
    {
        proof {
            hot_book::lemma_depth_grows(levels@, (i + 1) as nat, levels@.len());
        }
        d = d + levels[i].total_qty;
        i += 1;
    }
    d
}

// ─── Transitions ────────────────────────────────────────────────────

/// An add with an unknown side code is refused.
pub open spec fn ref_add(b: BookModel, e: Event) -> (BookModel, bool) {
    if e.side > 1 {
        (b, false)
    } else {
        (b.place(e.order_id, model::order_of(e)), true)
    }
}

/// A cancel of an unknown order is refused.
pub open spec fn ref_cancel(b: BookModel, e: Event) -> (BookModel, bool) {
    if !b.orders.contains_key(e.order_id) {
        (b, false)
    } else {
        (b.reduce(e.order_id, model::after_cancel(b.orders[e.order_id], e.qty)), true)
    }
}

/// A trade against an unknown order is refused.
pub open spec fn ref_trade(b: BookModel, e: Event) -> (BookModel, bool) {
    if !b.orders.contains_key(e.order_id) {
        (b, false)
    } else {
        (b.reduce(e.order_id, model::after_trade(b.orders[e.order_id], e.qty)), true)
    }
}

/// A modify is a cancel followed by an add, and reports the add. With an unknown
/// side code it is refused as a whole.
pub open spec fn ref_modify(b: BookModel, e: Event) -> (BookModel, bool) {
    if e.side > 1 {
        (b, false)
    } else {
        ref_add(ref_cancel(b, e).0, e)
    }
}

/// One event. What is reported is whether the book took it up.
pub open spec fn ref_apply(b: BookModel, e: Event) -> (BookModel, bool) {
    if e.event_type == event::event_code(EventType::OrderAdd) {
        ref_add(b, e)
    } else if e.event_type == event::event_code(EventType::OrderCancel) {
        ref_cancel(b, e)
    } else if e.event_type == event::event_code(EventType::OrderModify) {
        ref_modify(b, e)
    } else if e.event_type == event::event_code(EventType::Trade) {
        ref_trade(b, e)
    } else {
        (b, false)
    }
}

/// Any add that `e` brings stays within the counters of its level.
pub open spec fn ref_fits(b: BookModel, e: Event) -> bool {
    &&& e.event_type == event::event_code(EventType::OrderAdd) && e.side <= 1 ==> model::level_fits(b, e)
    &&& e.event_type == event::event_code(EventType::OrderModify) && e.side <= 1 ==> model::level_fits(
        ref_cancel(b, e).0,
        e,
    )
}

/// What an order stands for.
pub open spec fn meta_of(o: Order) -> OrderMeta {
    OrderMeta { price: o.price, qty: o.qty, side: event::side_code(o.side) }
}

impl View for OrderBook {
    type V = BookModel;

    closed spec fn view(&self) -> BookModel {
        BookModel {
            bids: ladder_in(self.bids@),
            asks: ladder_in(self.asks@),
            orders: self.orders@.map_values(|o: Order| meta_of(o)),
        }
    }
}

impl OrderBook {
    /// Each level is stored under its own price and counts at least one order.
    pub closed spec fn wf(&self) -> bool {
        &&& levels_ok(self.bids@)
        &&& levels_ok(self.asks@)
        &&& self.orders@.dom().finite()
    }

    /// The instrument the book is for: what the field `instrument_id` holds.
    pub closed spec fn instrument(&self) -> u32 {
        self.instrument_id
    }

    /// The bid levels as they are stored.
    pub closed spec fn bid_map(&self) -> Map<u64, Level> {
        self.bids@
    }

    /// The ask levels as they are stored.
    pub closed spec fn ask_map(&self) -> Map<u64, Level> {
        self.asks@
    }

    /// What a well-formed book is known to keep: each level is stored under its
    /// own price, and no level stands without an order.
    pub proof fn lemma_wf(&self)
        requires
            self.wf(),
        ensures
            self@.valid(),
            levels_ok(self.bid_map()),
            levels_ok(self.ask_map()),
            ladder_in(self.bid_map()) == self@.bids,
            ladder_in(self.ask_map()) == self@.asks,
    {
        assert(self@.bids.dom() =~= self.bids@.dom());
        assert(self@.asks.dom() =~= self.asks@.dom());
        assert(self@.orders.dom() =~= self.orders@.dom());
    }

    /// An empty book.
    pub fn new(instrument_id: u32) -> (b: Self)
        ensures
            b.wf(),
            b@ == BookModel::empty(),
            b.instrument() == instrument_id,
    {
        let b = OrderBook {
            instrument_id,
            bids: BTreeMap::new(),
            asks: BTreeMap::new(),
            orders: HashMap::new(),
        };
        assert(b@ =~= BookModel::empty());
        b
    }

    /// Applies one event. Returns whether the book took it up; an event that it
    /// did not take up changed nothing.
    pub fn apply(&mut self, event: &Event) -> (changed: bool)
        requires
            old(self).wf(),
            ref_fits(old(self)@, *event),
        ensures
            final(self).wf(),
            !changed ==> final(self)@ == old(self)@,
            final(self).instrument() == old(self).instrument(),
            (final(self)@, changed) == ref_apply(old(self)@, *event),
    {
        match EventType::from_u8(event.event_type) {
            None => false,
            Some(EventType::OrderAdd) => self.add_order(event),
            Some(EventType::OrderCancel) => self.cancel_order(event),
            Some(EventType::OrderModify) => self.modify_order(event),
            Some(EventType::Trade) => self.execute_trade(event),
            Some(EventType::BookSnapshot) => false,
        }
    }

    fn add_order(&mut self, event: &Event) -> (ok: bool)
        requires
            old(self).wf(),
            event.side <= 1 ==> model::level_fits(old(self)@, *event),
        ensures
            final(self).wf(),
            final(self).instrument() == old(self).instrument(),
            (final(self)@, ok) == ref_add(old(self)@, *event),
    {
        let side: Side = match Side::from_u8(event.side) {
            Some(s) => s,
            None => {
                return false;
            },
        };
        let order = Order { order_id: event.order_id, price: event.price, qty: event.qty, side };
        match side {
            Side::Bid => raise_level(&mut self.bids, event.price, event.qty),
            Side::Ask => raise_level(&mut self.asks, event.price, event.qty),
        }
        self.orders.insert(event.order_id, order);
        assert(self@ =~= ref_add(old(self)@, *event).0);
        true
    }

    fn cancel_order(&mut self, event: &Event) -> (ok: bool)
        requires
            old(self).wf(),
        ensures
            final(self).wf(),
            final(self).instrument() == old(self).instrument(),
            (final(self)@, ok) == ref_cancel(old(self)@, *event),
    {
        let order: Order = match self.orders.get(&event.order_id) {
            Some(o) => *o,
            None => {
                return false;
            },
        };
        let qty: u64;
        let release: bool;
        if event.qty == 0 || event.qty >= order.qty {
            self.orders.remove(&event.order_id);
            qty = order.qty;
            release = true;
        } else {
            self.orders.insert(
                event.order_id,
                Order {
                    order_id: order.order_id,
                    price: order.price,
                    qty: order.qty - event.qty,
                    side: order.side,
                },
            );
            qty = event.qty;
            release = false;
        }
        match order.side {
            Side::Bid => lower_level(&mut self.bids, order.price, qty, release),
            Side::Ask => lower_level(&mut self.asks, order.price, qty, release),
        }
        assert(self@ =~= ref_cancel(old(self)@, *event).0);
        true
    }

    fn modify_order(&mut self, event: &Event) -> (ok: bool)
        requires
            old(self).wf(),
            event.side <= 1 ==> model::level_fits(ref_cancel(old(self)@, *event).0, *event),
        ensures
            final(self).wf(),
            final(self).instrument() == old(self).instrument(),
            (final(self)@, ok) == ref_modify(old(self)@, *event),
    {
        if event.side > 1 {
            return false;
        }
        self.cancel_order(event);
        self.add_order(event)
    }

    fn execute_trade(&mut self, event: &Event) -> (ok: bool)
        requires
            old(self).wf(),
        ensures
            final(self).wf(),
            final(self).instrument() == old(self).instrument(),
            (final(self)@, ok) == ref_trade(old(self)@, *event),
    {
        let order: Order = match self.orders.get(&event.order_id) {
            Some(o) => *o,
            None => {
                return false;
            },
        };
        let left: u64 = order.qty.saturating_sub(event.qty);
        let fill: u64 = order.qty - left;
        let filled: bool = left == 0;
        match order.side {
            Side::Bid => lower_level(&mut self.bids, order.price, fill, filled),
            Side::Ask => lower_level(&mut self.asks, order.price, fill, filled),
        }
        if filled {
            self.orders.remove(&event.order_id);
        } else {
            self.orders.insert(
                event.order_id,
                Order {
                    order_id: order.order_id,
                    price: order.price,
                    qty: left,
                    side: order.side,
                },
            );
        }
        assert(self@ =~= ref_trade(old(self)@, *event).0);
        true
    }

    /// Highest bid price.
    pub fn best_bid(&self) -> (r: Option<Price>)
        requires
            self.wf(),
        ensures
            r is None <==> self@.bids.dom() == Set::<u64>::empty(),
            r matches Some(p) ==> self@.is_best_bid(p),
    {
        assert(self@.bids.dom() =~= self.bids@.dom());
        let r = max_key(&self.bids);
        proof {
            if let Some(p) = r {
                assert forall|q: u64| #[trigger] self@.bids.contains_key(q) implies q <= p by {
                    assert(self.bids@.contains_key(q));
                }
            }
        }
        r
    }

    /// Lowest ask price.
    pub fn best_ask(&self) -> (r: Option<Price>)
        requires
            self.wf(),
        ensures
            r is None <==> self@.asks.dom() == Set::<u64>::empty(),
            r matches Some(p) ==> self@.is_best_ask(p),
    {
        assert(self@.asks.dom() =~= self.asks@.dom());
        let r = min_key(&self.asks);
        proof {
            if let Some(p) = r {
                assert forall|q: u64| #[trigger] self@.asks.contains_key(q) implies p <= q by {
                    assert(self.asks@.contains_key(q));
                }
            }
        }
        r
    }

    /// Best ask less best bid, where both stand and the book is not crossed.
    pub fn spread(&self) -> (r: Option<u64>)
        requires
            self.wf(),
        ensures
            forall|b: u64, a: u64|
                #[trigger] self@.is_best_bid(b) && #[trigger] self@.is_best_ask(a) && a > b ==> r == Some(
                    (a - b) as u64,
                ),
            forall|b: u64, a: u64|
                #[trigger] self@.is_best_bid(b) && #[trigger] self@.is_best_ask(a) && a <= b ==> r is None,
            self@.bids.dom() == Set::<u64>::empty() ==> r is None,
            self@.asks.dom() == Set::<u64>::empty() ==> r is None,
    {
        match (self.best_bid(), self.best_ask()) {
            (Some(bid), Some(ask)) => if ask > bid {
                Some(ask - bid)
            } else {
                None
            },
            _ => None,
        }
    }

    /// Bid quantity of all levels.
    pub fn bid_depth(&self) -> (d: Qty)
        requires
            self.wf(),
            hot_book::depth_of(digest::best_first(self@.bids, true), self@.bids.len()) <= u64::MAX,
        ensures
            d == hot_book::depth_of(digest::best_first(self@.bids, true), self@.bids.len()),
    {
        let up: Vec<Level> = ascending(&self.bids);
        let down: Vec<Level> = reversed(&up);
        proof {
            digest::lemma_best_first(down@, true);
            ladder::lemma_ladder_size(down@, true);
        }
        total(&down)
    }

    /// Ask quantity of all levels.
    pub fn ask_depth(&self) -> (d: Qty)
        requires
            self.wf(),
            hot_book::depth_of(digest::best_first(self@.asks, false), self@.asks.len()) <= u64::MAX,
        ensures
            d == hot_book::depth_of(digest::best_first(self@.asks, false), self@.asks.len()),
    {
        let up: Vec<Level> = ascending(&self.asks);
        proof {
            digest::lemma_best_first(up@, false);
            ladder::lemma_ladder_size(up@, false);
        }
        total(&up)
    }

    /// The canonical level-two digest. It depends on the ladders alone.
    pub fn canonical_l2_hash(&self) -> (h: u64)
        requires
            self.wf(),
        ensures
            h == digest::l2_digest(digest::best_first(self@.bids, true), digest::best_first(self@.asks, false)),
    {
        let bids_up: Vec<Level> = ascending(&self.bids);
        let bids: Vec<Level> = reversed(&bids_up);
        let asks: Vec<Level> = ascending(&self.asks);
        proof {
            digest::lemma_best_first(bids@, true);
            digest::lemma_best_first(asks@, false);
        }
        digest_book(bids.as_slice(), asks.as_slice())
    }
}

} // verus!
