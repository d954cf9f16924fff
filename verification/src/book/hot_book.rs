//! Fixed-depth order book: two sorted level arrays, best price first, and a
//! slab of resting orders found through a hash index.

use crate::book::event::{Event, EventType};
use crate::book::types::Price;
use crate::book::digest::digest_book;
use crate::book::ladder::{find_level, lower, raise};
pub use crate::book::model::{Level, OrderMeta};
use crate::book::model::{BookModel, Ladder};
#[allow(unused_imports)]
use crate::book::{digest, event, ladder, model};
use ahash::AHasher;
use hashbrown::HashMap;
use std::hash::BuildHasherDefault;
use vstd::prelude::*;

verus! {

// ─── Order index ────────────────────────────────────────────────────

/// Order ID to slab slot: a `hashbrown::HashMap` over the `ahash` hasher with
/// default keys.
#[verifier::external_body]
#[derive(Debug)]
pub struct SlotIndex {
    inner: HashMap<u64, u32, BuildHasherDefault<AHasher>>,
}

/// What the index holds.
pub uninterp spec fn index_contents(m: SlotIndex) -> Map<u64, u32>;

impl SlotIndex {
    /// `hashbrown::HashMap::with_capacity_and_hasher`: a map with nothing in it.
    /// It panics on a capacity whose table would not fit in memory.
    #[verifier::external_body]
    fn with_capacity(cap: usize) -> (m: SlotIndex)
        requires
            cap <= 1_048_576,
        ensures
            index_contents(m).dom() == Set::<u64>::empty(),
    {
        SlotIndex { inner: HashMap::with_capacity_and_hasher(cap, Default::default()) }
    }

    /// `hashbrown::HashMap::get`: the value under the key, if the map has it.
    #[verifier::external_body]
    fn get(&self, id: u64) -> (r: Option<u32>)
        ensures
            r == (if index_contents(*self).contains_key(id) {
                Some(index_contents(*self)[id])
            } else {
                None
            }),
    {
        self.inner.get(&id).copied()
    }

    /// `hashbrown::HashMap::insert`: puts the value under the key, in place of
    /// any that was there. It panics where the table would outgrow the address
    /// space.
    #[verifier::external_body]
    fn insert(&mut self, id: u64, slot: u32)
        requires
            index_contents(*old(self)).dom().finite(),
            index_contents(*old(self)).dom().len() < u32::MAX,
        ensures
            index_contents(*final(self)) == index_contents(*old(self)).insert(id, slot),
    {
        self.inner.insert(id, slot);
    }

    /// `hashbrown::HashMap::remove`: takes the key out and hands back its value,
    /// if the map had it.
    #[verifier::external_body]
    fn remove(&mut self, id: u64) -> (r: Option<u32>)
        ensures
            index_contents(*final(self)) == index_contents(*old(self)).remove(id),
            r == (if index_contents(*old(self)).contains_key(id) {
                Some(index_contents(*old(self))[id])
            } else {
                None
            }),
    {
        self.inner.remove(&id)
    }
}

// ─── Order slab ─────────────────────────────────────────────────────

/// Dense storage of the resting orders. A slot that an order left is reused.
#[derive(Debug)]
struct OrderSlab {
    data: Vec<OrderMeta>,
    free_list: Vec<u32>,
    index: SlotIndex,
}

impl OrderSlab {
    /// Every indexed slot and every free slot exists, no slot is both, none is
    /// indexed or free twice, and together they are all the slots.
    spec fn wf(self) -> bool {
        let ix = index_contents(self.index);
        &&& ix.dom().finite()
        &&& forall|k: u64| #[trigger] ix.contains_key(k) ==> ix[k] < self.data@.len()
        &&& forall|k: u64, l: u64|
            #![trigger ix[k], ix[l]]
            ix.contains_key(k) && ix.contains_key(l) && k != l ==> ix[k] != ix[l]
        &&& forall|i: int|
            0 <= i < self.free_list@.len() ==> #[trigger] self.free_list@[i] < self.data@.len()
        &&& forall|i: int, j: int|
            0 <= i < j < self.free_list@.len() ==> self.free_list@[i] != self.free_list@[j]
        &&& forall|k: u64, i: int|
            #![trigger ix[k], self.free_list@[i]]
            ix.contains_key(k) && 0 <= i < self.free_list@.len() ==> ix[k] != self.free_list@[i]
        &&& ix.dom().len() + self.free_list@.len() == self.data@.len()
    }

    spec fn view(&self) -> Map<u64, OrderMeta> {
        Map::new(
            |k: u64| index_contents(self.index).contains_key(k),
            |k: u64| self.data@[index_contents(self.index)[k] as int],
        )
    }

    fn with_capacity(cap: usize) -> (s: Self)
        requires
            cap <= 1_048_576,
        ensures
            s.wf(),
            s@ == Map::<u64, OrderMeta>::empty(),
    {
        let s = OrderSlab {
            data: Vec::with_capacity(cap),
            free_list: Vec::with_capacity(cap / 4),
            index: SlotIndex::with_capacity(cap),
        };
        assert(s@ =~= Map::<u64, OrderMeta>::empty());
        s
    }

    /// Puts `meta` under `id`, in place of any order that was there.
    fn insert(&mut self, id: u64, meta: OrderMeta)
        requires
            old(self).wf(),
            old(self)@.dom().len() < u32::MAX,
        ensures
            final(self).wf(),
            final(self)@ == old(self)@.insert(id, meta),
    {
        let ghost ix = index_contents(self.index);
        assert(self@.dom() =~= ix.dom());
        match self.index.get(id) {
            Some(slot) => {
                self.data.set(slot as usize, meta);
            },
            None => {
                let slot: u32 = match self.free_list.pop() {
                    Some(s) => {
                        self.data.set(s as usize, meta);
                        s
                    },
                    None => {
                        let s: u32 = self.data.len() as u32;
                        self.data.push(meta);
                        s
                    },
                };
                self.index.insert(id, slot);
            },
        }
        assert(self@ =~= old(self)@.insert(id, meta));
    }

    /// The order under `id`.
    fn get(&self, id: u64) -> (r: Option<&OrderMeta>)
        requires
            self.wf(),
        ensures
            r is Some <==> self@.contains_key(id),
            r matches Some(m) ==> *m == self@[id],
    {
        match self.index.get(id) {
            Some(slot) => Some(&self.data[slot as usize]),
            None => None,
        }
    }

    /// Replaces the order under `id`, which is there.
    fn update(&mut self, id: u64, meta: OrderMeta)
        requires
            old(self).wf(),
            old(self)@.contains_key(id),
        ensures
            final(self).wf(),
            final(self)@ == old(self)@.insert(id, meta),
    {
        if let Some(slot) = self.index.get(id) {
            self.data.set(slot as usize, meta);
        }
        assert(self@ =~= old(self)@.insert(id, meta));
    }

    /// Takes the order under `id` out and frees its slot.
    fn remove(&mut self, id: u64) -> (r: Option<OrderMeta>)
        requires
            old(self).wf(),
        ensures
            final(self).wf(),
            final(self)@ == old(self)@.remove(id),
            r == (if old(self)@.contains_key(id) {
                Some(old(self)@[id])
            } else {
                None
            }),
    {
        let ghost ix = index_contents(self.index);
        match self.index.remove(id) {
            Some(slot) => {
                let meta = self.data[slot as usize];
                self.free_list.push(slot);
                assert(self@ =~= old(self)@.remove(id));
                Some(meta)
            },
            None => {
                assert(ix.remove(id) =~= ix);
                assert(self@ =~= old(self)@.remove(id));
                None
            },
        }
    }
}

// ─── Transitions ────────────────────────────────────────────────────

/// The change of one event and whether it counts as one.
pub open spec fn hot_add(b: BookModel, e: Event, cap: nat) -> (BookModel, bool) {
    let is_bid = e.side == 0;
    let m = b.side(is_bid);
    if !m.contains_key(e.price) && m.len() >= cap {
        (b, false)
    } else if e.order_id == 0 {
        (b.with_side(is_bid, model::grow(m, e.price, e.qty as nat)), true)
    } else {
        (b.place(e.order_id, model::order_of(e)), true)
    }
}

/// Without an order ID the event's own price, side and quantity say what
/// leaves; with one the resting order does. An unknown order changes nothing.
pub open spec fn hot_cancel(b: BookModel, e: Event) -> (BookModel, bool) {
    if e.order_id == 0 {
        let is_bid = e.side == 0;
        let m = b.side(is_bid);
        (b.with_side(is_bid, model::shrink(m, e.price, e.qty as nat, true)), m.contains_key(e.price))
    } else if !b.orders.contains_key(e.order_id) {
        (b, false)
    } else {
        let o = b.orders[e.order_id];
        (b.reduce(e.order_id, model::after_cancel(o, e.qty)), true)
    }
}

/// An anonymous trade gives its level's last quantity together with one order.
pub open spec fn shrink_traded(m: Ladder, price: u64, qty: nat) -> Ladder {
    model::shrink(m, price, qty, m.contains_key(price) && m[price].qty <= qty)
}

/// As for a cancel, but an order leaves only once it is filled.
pub open spec fn hot_trade(b: BookModel, e: Event) -> (BookModel, bool) {
    if e.order_id == 0 {
        let is_bid = e.side == 0;
        let m = b.side(is_bid);
        (b.with_side(is_bid, shrink_traded(m, e.price, e.qty as nat)), m.contains_key(e.price))
    } else if !b.orders.contains_key(e.order_id) {
        (b, false)
    } else {
        let o = b.orders[e.order_id];
        (b.reduce(e.order_id, model::after_trade(o, e.qty)), true)
    }
}

/// A modify is a cancel followed by an add, and counts if either does.
pub open spec fn hot_modify(b: BookModel, e: Event, cap: nat) -> (BookModel, bool) {
    let (c, gone) = hot_cancel(b, e);
    let (n, placed) = hot_add(c, e, cap);
    (n, gone || placed)
}

/// One event.
pub open spec fn hot_apply(b: BookModel, e: Event, cap: nat) -> (BookModel, bool) {
    if e.event_type == event::event_code(EventType::OrderAdd) {
        hot_add(b, e, cap)
    } else if e.event_type == event::event_code(EventType::OrderCancel) {
        hot_cancel(b, e)
    } else if e.event_type == event::event_code(EventType::OrderModify) {
        hot_modify(b, e, cap)
    } else if e.event_type == event::event_code(EventType::Trade) {
        hot_trade(b, e)
    } else {
        (b, false)
    }
}

/// The add of `e` stays within the machine's counters: those of its level, and
/// the slot numbers of the slab.
pub open spec fn add_fits(b: BookModel, e: Event) -> bool {
    &&& model::level_fits(b, e)
    &&& b.orders.dom().len() < u32::MAX
}

/// Any add that `e` brings stays within the machine's counters.
pub open spec fn hot_fits(b: BookModel, e: Event) -> bool {
    &&& e.event_type == event::event_code(EventType::OrderAdd) ==> add_fits(b, e)
    &&& e.event_type == event::event_code(EventType::OrderModify) ==> add_fits(hot_cancel(b, e).0, e)
}

/// An add or modify of `e` would fit even if nothing were cancelled first.
pub open spec fn room_for(b: BookModel, e: Event) -> bool {
    e.event_type == event::event_code(EventType::OrderAdd) || e.event_type == event::event_code(
        EventType::OrderModify,
    ) ==> add_fits(b, e)
}

/// The three homogeneous passes of a batch.
#[derive(Debug, Clone, Copy, PartialEq, Eq, Structural)]
pub enum Lane {
    Adds,
    Trades,
    Cancels,
}

/// Which events a pass takes up. A modify is taken up by its add half alone;
/// a batch is cut at its modifies, so that no pass over one of its parts meets one.
pub open spec fn in_lane(lane: Lane, e: Event) -> bool {
    match lane {
        Lane::Adds => e.event_type == event::event_code(EventType::OrderAdd) || e.event_type == event::event_code(
            EventType::OrderModify,
        ),
        Lane::Trades => e.event_type == event::event_code(EventType::Trade),
        Lane::Cancels => e.event_type == event::event_code(EventType::OrderCancel),
    }
}

/// One event in one pass.
pub open spec fn lane_step(b: BookModel, e: Event, lane: Lane, cap: nat) -> (BookModel, bool) {
    if !in_lane(lane, e) {
        (b, false)
    } else {
        match lane {
            Lane::Adds => hot_add(b, e, cap),
            Lane::Trades => hot_trade(b, e),
            Lane::Cancels => hot_cancel(b, e),
        }
    }
}

/// One pass over a batch, and how many of its events counted as changes.
pub open spec fn run_lane(b: BookModel, es: Seq<Event>, lane: Lane, cap: nat) -> (BookModel, nat)
    decreases es.len(),
{
    if es.len() == 0 {
        (b, 0)
    } else {
        let (p, n) = run_lane(b, es.drop_last(), lane, cap);
        let (q, c) = lane_step(p, es.last(), lane, cap);
        (
            q,
            n + if c {
                1nat
            } else {
                0
            },
        )
    }
}

/// Every add of the batch, taken in turn, stays within the machine's counters.
pub open spec fn lane_fits(b: BookModel, es: Seq<Event>, cap: nat) -> bool
    decreases es.len(),
{
    es.len() == 0 || {
        &&& lane_fits(b, es.drop_last(), cap)
        &&& in_lane(Lane::Adds, es.last()) ==> add_fits(
            run_lane(b, es.drop_last(), Lane::Adds, cap).0,
            es.last(),
        )
    }
}

proof fn lemma_lane_fits_prefix(b: BookModel, es: Seq<Event>, cap: nat, n: int)
    requires
        lane_fits(b, es, cap),
        0 <= n <= es.len(),
    ensures
        lane_fits(b, es.take(n), cap),
    decreases es.len(),
{
    if n < es.len() {
        assert(es.drop_last().take(n) =~= es.take(n));
        lemma_lane_fits_prefix(b, es.drop_last(), cap, n);
    } else {
        assert(es.take(n) =~= es);
    }
}

/// The book after the three passes, and the changes of all of them.
pub open spec fn run_lanes(b: BookModel, es: Seq<Event>, cap: nat) -> (BookModel, nat) {
    let (b1, n1) = run_lane(b, es, Lane::Adds, cap);
    let (b2, n2) = run_lane(b1, es, Lane::Trades, cap);
    let (b3, n3) = run_lane(b2, es, Lane::Cancels, cap);
    (b3, n1 + n2 + n3)
}

/// The event is a modify.
pub open spec fn modifies(e: Event) -> bool {
    e.event_type == event::event_code(EventType::OrderModify)
}

/// Where the part of a batch begins that follows its last modify.
pub open spec fn last_part(es: Seq<Event>) -> nat
    decreases es.len(),
{
    if es.len() == 0 {
        0
    } else if modifies(es.last()) {
        es.len()
    } else {
        last_part(es.drop_last())
    }
}

/// The last part begins within the batch, right after a modify unless at its
/// front, and holds none.
pub proof fn lemma_last_part(es: Seq<Event>)
    ensures
        last_part(es) <= es.len(),
        last_part(es) > 0 ==> modifies(es[last_part(es) - 1]),
        forall|i: int| last_part(es) <= i < es.len() ==> !modifies(#[trigger] es[i]),
    decreases es.len(),
{
    if es.len() > 0 && !modifies(es.last()) {
        lemma_last_part(es.drop_last());
        assert forall|i: int| last_part(es) <= i < es.len() implies !modifies(#[trigger] es[i]) by {
            if i < es.len() - 1 {
                assert(es.drop_last()[i] == es[i]);
            }
        }
    }
}

/// The last part is where the last modify says.
proof fn lemma_part_is(es: Seq<Event>, w: nat)
    requires
        w <= es.len(),
        w > 0 ==> modifies(es[w - 1]),
        forall|i: int| w <= i < es.len() ==> !modifies(#[trigger] es[i]),
    ensures
        last_part(es) == w,
    decreases es.len(),
{
    if es.len() > w {
        let d = es.drop_last();
        assert forall|i: int| w <= i < d.len() implies !modifies(#[trigger] d[i]) by {
            assert(d[i] == es[i]);
        }
        assert(!modifies(es[es.len() - 1]));
        lemma_part_is(d, w);
    }
}

/// A whole batch: the three passes over each part between two modifies, and the
/// modifies in their places.
pub open spec fn run_batch(b: BookModel, es: Seq<Event>, cap: nat) -> (BookModel, nat)
    decreases es.len(),
{
    let w = last_part(es);
    if w == 0 || w > es.len() {
        run_lanes(b, es, cap)
    } else {
        let (p, n1) = run_batch(b, es.take(w - 1), cap);
        let (q, c) = hot_modify(p, es[w - 1], cap);
        let (r, n2) = run_lanes(q, es.skip(w as int), cap);
        (
            r,
            n1 + n2 + if c {
                1nat
            } else {
                0
            },
        )
    }
}

/// Every add of a whole batch stays within the machine's counters.
pub open spec fn batch_fits(b: BookModel, es: Seq<Event>, cap: nat) -> bool
    decreases es.len(),
{
    let w = last_part(es);
    if w == 0 || w > es.len() {
        lane_fits(b, es, cap)
    } else {
        let p = run_batch(b, es.take(w - 1), cap).0;
        &&& batch_fits(b, es.take(w - 1), cap)
        &&& hot_fits(p, es[w - 1])
        &&& lane_fits(hot_modify(p, es[w - 1], cap).0, es.skip(w as int), cap)
    }
}

/// A batch fits up to each of its modifies.
proof fn lemma_batch_fits_prefix(b: BookModel, es: Seq<Event>, cap: nat, i: int)
    requires
        batch_fits(b, es, cap),
        0 <= i < es.len(),
        modifies(es[i]),
    ensures
        batch_fits(b, es.take(i), cap),
        hot_fits(run_batch(b, es.take(i), cap).0, es[i]),
    decreases es.len(),
{
    lemma_last_part(es);
    let w = last_part(es);
    assert(i < w) by {
        if w <= i {
            assert(!modifies(es[i]));
        }
    }
    if i < w - 1 {
        let d = es.take(w - 1);
        assert(d[i] == es[i]);
        assert(d.take(i) =~= es.take(i));
        lemma_batch_fits_prefix(b, d, cap, i);
    }
}

/// A batch up to place `i`, its last part beginning at `start`.
proof fn lemma_part_of(b: BookModel, es: Seq<Event>, cap: nat, start: int, i: int)
    requires
        0 <= start <= i <= es.len(),
        start > 0 ==> modifies(es[start - 1]),
        forall|k: int| start <= k < i ==> !modifies(#[trigger] es[k]),
        batch_fits(b, es.take(i), cap),
    ensures
        ({
            let d = es.take(i);
            let p = run_batch(b, es.take(start), cap);
            let q = run_lanes(p.0, d.skip(start), cap);
            &&& lane_fits(p.0, d.skip(start), cap)
            &&& run_batch(b, d, cap) == (q.0, p.1 + q.1)
        }),
{
    let d = es.take(i);
    let h = es.take(start);
    assert forall|k: int| start <= k < d.len() implies !modifies(#[trigger] d[k]) by {
        assert(d[k] == es[k]);
    }
    if start > 0 {
        assert(d[start - 1] == es[start - 1] && h[start - 1] == es[start - 1]);
    }
    lemma_part_is(d, start as nat);
    lemma_part_is(h, start as nat);
    if start == 0 {
        assert(d.skip(0) =~= d);
        assert(h =~= Seq::<Event>::empty());
    } else {
        assert(d.take(start - 1) =~= h.take(start - 1));
        assert(h.skip(start) =~= Seq::<Event>::empty());
    }
}

/// The quantity of the first `n` levels.
pub open spec fn depth_of(levels: Seq<Level>, n: nat) -> nat
    decreases n,
{
    if n == 0 {
        0
    } else if n > levels.len() {
        depth_of(levels, (n - 1) as nat)
    } else {
        depth_of(levels, (n - 1) as nat) + levels[n - 1].total_qty as nat
    }
}

proof fn lemma_depth_saturates(levels: Seq<Level>, n: nat)
    requires
        n >= levels.len(),
    ensures
        depth_of(levels, n) == depth_of(levels, levels.len()),
    decreases n,
{
    if n > levels.len() {
        lemma_depth_saturates(levels, (n - 1) as nat);
    }
}

/// A cancel takes no room: where an add fits before it, it fits after it.
proof fn lemma_cancel_keeps_room(b: BookModel, e: Event)
    requires
        b.valid(),
        model::level_fits(b, e),
    ensures
        model::level_fits(hot_cancel(b, e).0, e),
        hot_cancel(b, e).0.orders.dom().len() <= b.orders.dom().len(),
{
    let c = hot_cancel(b, e).0;
    if e.order_id != 0 && b.orders.contains_key(e.order_id) {
        let left = model::after_cancel(b.orders[e.order_id], e.qty);
        assert(left is Some ==> c.orders.dom() =~= b.orders.dom());
        assert(left is None ==> c.orders.dom() =~= b.orders.dom().remove(e.order_id));
    }
}

// ─── The book ───────────────────────────────────────────────────────

/// Level-two book of at most `MAX_LEVELS` levels a side.
#[derive(Debug)]
pub struct HotOrderBook<const MAX_LEVELS: usize> {
    pub instrument_id: u32,
    bids: Vec<Level>,
    asks: Vec<Level>,
    orders: OrderSlab,
}

impl<const MAX_LEVELS: usize> View for HotOrderBook<MAX_LEVELS> {
    type V = BookModel;

    closed spec fn view(&self) -> BookModel {
        BookModel {
            bids: ladder::ladder_of(self.bids@),
            asks: ladder::ladder_of(self.asks@),
            orders: self.orders@,
        }
    }
}

impl<const MAX_LEVELS: usize> HotOrderBook<MAX_LEVELS> {
    /// Both sides are strictly sorted from the best price on, hold at most
    /// `MAX_LEVELS` levels, each with an order in it, and the slab is sound.
    pub closed spec fn wf(&self) -> bool {
        &&& ladder::sorted(self.bids@, true)
        &&& ladder::sorted(self.asks@, false)
        &&& ladder::populated(self.bids@)
        &&& ladder::populated(self.asks@)
        &&& self.bids@.len() <= MAX_LEVELS
        &&& self.asks@.len() <= MAX_LEVELS
        &&& self.orders.wf()
    }

    /// The instrument the book is for: what the field `instrument_id` holds.
    pub closed spec fn instrument(&self) -> u32 {
        self.instrument_id
    }

    /// The bid levels, best first.
    pub closed spec fn bid_seq(&self) -> Seq<Level> {
        self.bids@
    }

    /// The ask levels, best first.
    pub closed spec fn ask_seq(&self) -> Seq<Level> {
        self.asks@
    }

    /// What a well-formed book is known to keep: finite ladders without empty
    /// levels, no more than `MAX_LEVELS` a side, stored best first.
    pub proof fn lemma_wf(&self)
        requires
            self.wf(),
        ensures
            self@.valid(),
            self@.bids.len() <= MAX_LEVELS,
            self@.asks.len() <= MAX_LEVELS,
            self.bid_seq().len() == self@.bids.len(),
            self.ask_seq().len() == self@.asks.len(),
            ladder::sorted(self.bid_seq(), true),
            ladder::sorted(self.ask_seq(), false),
            ladder::ladder_of(self.bid_seq()) == self@.bids,
            ladder::ladder_of(self.ask_seq()) == self@.asks,
            self.bid_seq() == digest::best_first(self@.bids, true),
            self.ask_seq() == digest::best_first(self@.asks, false),
    {
        ladder::lemma_ladder_size(self.bids@, true);
        ladder::lemma_ladder_size(self.asks@, false);
        digest::lemma_best_first(self.bids@, true);
        digest::lemma_best_first(self.asks@, false);
        assert(self@.orders.dom() =~= index_contents(self.orders.index).dom());
        assert forall|p: u64| #[trigger] self@.bids.contains_key(p) implies self@.bids[p].count >= 1 by {
            ladder::lemma_level_at(self.bids@, true, ladder::index_of_price(self.bids@, p));
        }
        assert forall|p: u64| #[trigger] self@.asks.contains_key(p) implies self@.asks[p].count >= 1 by {
            ladder::lemma_level_at(self.asks@, false, ladder::index_of_price(self.asks@, p));
        }
    }

    /// An empty book.
    pub fn new(instrument_id: u32) -> (b: Self)
        ensures
            b.wf(),
            b@ == BookModel::empty(),
            b.instrument() == instrument_id,
    {
        let b = HotOrderBook {
            instrument_id,
            bids: Vec::new(),
            asks: Vec::new(),
            orders: OrderSlab::with_capacity(1024),
        };
        assert(b@ =~= BookModel::empty());
        b
    }

    /// Whether there is room for an event, a modify's cancel not counted.
    pub fn has_room(&self, event: &Event) -> (b: bool)
        requires
            self.wf(),
        ensures
            b == room_for(self@, *event),
            b ==> hot_fits(self@, *event),
    {
        let t: u8 = event.event_type;
        if t != EventType::OrderAdd.code() && t != EventType::OrderModify.code() {
            return true;
        }
        let is_bid: bool = event.side == 0;
        let side: &Vec<Level> = if is_bid {
            &self.bids
        } else {
            &self.asks
        };
        if let Some(i) = ladder::find_level(side, event.price, is_bid) {
            let l: Level = side[i];
            proof {
                ladder::lemma_level_at(side@, is_bid, i as int);
            }
            if l.total_qty > u64::MAX - event.qty || l.order_count == u32::MAX {
                return false;
            }
        }
        proof {
            self.lemma_wf();
            lemma_cancel_keeps_room(self@, *event);
            assert(self@.orders.dom() =~= index_contents(self.orders.index).dom());
        }
        self.orders.data.len() - self.orders.free_list.len() < u32::MAX as usize
    }

    /// Whether all quantities of both sides add up within a number.
    pub fn depth_fits(&self) -> (b: bool)
        requires
            self.wf(),
        ensures
            b == (depth_of(self.bid_seq(), self.bid_seq().len()) + depth_of(
                self.ask_seq(),
                self.ask_seq().len(),
            ) <= u64::MAX),
    {
        match Self::depth_within(&self.bids, u64::MAX) {
            None => false,
            Some(d) => Self::depth_within(&self.asks, u64::MAX - d).is_some(),
        }
    }

    /// The quantity of all levels, if it does not exceed `room`.
    fn depth_within(levels: &Vec<Level>, room: u64) -> (d: Option<u64>)
        ensures
            d is Some <==> depth_of(levels@, levels@.len()) <= room,
            d matches Some(n) ==> n == depth_of(levels@, levels@.len()),
    {
        let mut d: u64 = 0;
        let mut i: usize = 0;
        while i < levels.len()
            invariant
                i <= levels@.len(),
                d == depth_of(levels@, i as nat),
                d <= room,
            decreases levels@.len() - i,
        {
            let q: u64 = levels[i].total_qty;
            if q > room - d {
                proof {
                    lemma_depth_grows(levels@, (i + 1) as nat, levels@.len());
                }
                return None;
            }
            d = d + q;
            i += 1;
        }
        Some(d)
    }

    /// Applies one event. Returns whether the book took it up; an event that it
    /// did not take up changed nothing.
    pub fn apply(&mut self, event: &Event) -> (changed: bool)
        requires
            old(self).wf(),
            hot_fits(old(self)@, *event),
        ensures
            final(self).wf(),
            !changed ==> final(self)@ == old(self)@,
            final(self).instrument() == old(self).instrument(),
            (final(self)@, changed) == hot_apply(old(self)@, *event, MAX_LEVELS as nat),
    {
        match EventType::from_u8(event.event_type) {
            None => false,
            Some(EventType::OrderAdd) => self.add_order(event),
            Some(EventType::OrderCancel) => self.cancel_order(event),
            Some(EventType::OrderModify) => {
                let gone: bool = self.cancel_order(event);
                let placed: bool = self.add_order(event);
                gone || placed
            },
            Some(EventType::Trade) => self.trade(event),
            Some(EventType::BookSnapshot) => false,
        }
    }

    /// Applies a batch in three passes: adds, then trades, then cancels. A modify
    /// is applied in its place, between the passes over what comes before it and
    /// over what comes after it. Returns the number of changes.
    pub fn apply_lanes(&mut self, events: &[Event]) -> (changes: usize)
        requires
            old(self).wf(),
            batch_fits(old(self)@, events@, MAX_LEVELS as nat),
            events@.len() * 3 <= usize::MAX,
        ensures
            final(self).wf(),
            final(self).instrument() == old(self).instrument(),
            (final(self)@, changes as nat) == run_batch(old(self)@, events@, MAX_LEVELS as nat),
    {
        let ghost b = self@;
        let ghost es = events@;
        let ghost cap = MAX_LEVELS as nat;
        let mut changes: usize = 0;
        let mut start: usize = 0;
        let mut i: usize = 0;
        assert(es.take(0) =~= Seq::<Event>::empty());
        while i < events.len()
            invariant
                es == events@,
                cap == MAX_LEVELS,
                es.len() * 3 <= usize::MAX,
                batch_fits(b, es, cap),
                self.wf(),
                self.instrument() == old(self).instrument(),
                start <= i <= es.len(),
                start > 0 ==> modifies(es[start - 1]),
                forall|k: int| start <= k < i ==> !modifies(#[trigger] es[k]),
                changes <= 3 * start,
                (self@, changes as nat) == run_batch(b, es.take(start as int), cap),
            decreases es.len() - i,
        {
            if events[i].event_type == EventType::OrderModify.code() {
                let ghost d = es.take(i as int);
                proof {
                    lemma_batch_fits_prefix(b, es, cap, i as int);
                    lemma_part_of(b, es, cap, start as int, i as int);
                }
                let part: &[Event] = vstd::slice::slice_subrange(events, start, i);
                assert(part@ =~= d.skip(start as int));
                let n: usize = self.apply_part(part);
                assert((self@, (changes + n) as nat) == run_batch(b, d, cap));
                let changed: bool = self.apply(&events[i]);
                proof {
                    let t = es.take(i + 1);
                    lemma_part_is(t, (i + 1) as nat);
                    assert(t.take(i as int) =~= d);
                    assert(t.skip(i + 1) =~= Seq::<Event>::empty());
                    assert(t[i as int] == es[i as int]);
                }
                changes = changes + n + if changed {
                    1
                } else {
                    0
                };
                start = i + 1;
            }
            i += 1;
        }
        proof {
            assert(es.take(es.len() as int) =~= es);
            lemma_part_of(b, es, cap, start as int, es.len() as int);
        }
        let part: &[Event] = vstd::slice::slice_subrange(events, start, events.len());
        assert(part@ =~= es.skip(start as int));
        let n: usize = self.apply_part(part);
        changes + n
    }

    /// The three passes over a part of a batch.
    fn apply_part(&mut self, events: &[Event]) -> (changes: usize)
        requires
            old(self).wf(),
            lane_fits(old(self)@, events@, MAX_LEVELS as nat),
            events@.len() * 3 <= usize::MAX,
        ensures
            final(self).wf(),
            final(self).instrument() == old(self).instrument(),
            changes <= events@.len() * 3,
            (final(self)@, changes as nat) == run_lanes(old(self)@, events@, MAX_LEVELS as nat),
    {
        let adds: usize = self.apply_lane_adds(events);
        let trades: usize = self.apply_lane_trades(events);
        let cancels: usize = self.apply_lane_cancels(events);
        adds + trades + cancels
    }

    /// The add pass.
    pub fn apply_lane_adds(&mut self, events: &[Event]) -> (changes: usize)
        requires
            old(self).wf(),
            lane_fits(old(self)@, events@, MAX_LEVELS as nat),
        ensures
            final(self).wf(),
            final(self).instrument() == old(self).instrument(),
            changes <= events@.len(),
            (final(self)@, changes as nat) == run_lane(
                old(self)@,
                events@,
                Lane::Adds,
                MAX_LEVELS as nat,
            ),
    {
        let mut changes: usize = 0;
        let mut i: usize = 0;
        assert(events@.take(0) =~= Seq::<Event>::empty());
        while i < events.len()
            invariant
                self.wf(),
                self.instrument() == old(self).instrument(),
                i <= events@.len(),
                changes <= i,
                lane_fits(old(self)@, events@, MAX_LEVELS as nat),
                (self@, changes as nat) == run_lane(
                    old(self)@,
                    events@.take(i as int),
                    Lane::Adds,
                    MAX_LEVELS as nat,
                ),
            decreases events@.len() - i,
        {
            let e: Event = events[i];
            assert(events@.take(i + 1).drop_last() =~= events@.take(i as int));
            proof {
                lemma_lane_fits_prefix(old(self)@, events@, MAX_LEVELS as nat, i + 1);
            }
            if e.event_type == EventType::OrderAdd.code() || e.event_type
                == EventType::OrderModify.code() {
                if self.add_order(&e) {
                    changes += 1;
                }
            }
            i += 1;
        }
        assert(events@.take(i as int) =~= events@);
        changes
    }

    /// The trade pass.
    pub fn apply_lane_trades(&mut self, events: &[Event]) -> (changes: usize)
        requires
            old(self).wf(),
        ensures
            final(self).wf(),
            final(self).instrument() == old(self).instrument(),
            changes <= events@.len(),
            (final(self)@, changes as nat) == run_lane(
                old(self)@,
                events@,
                Lane::Trades,
                MAX_LEVELS as nat,
            ),
    {
        let mut changes: usize = 0;
        let mut i: usize = 0;
        assert(events@.take(0) =~= Seq::<Event>::empty());
        while i < events.len()
            invariant
                self.wf(),
                self.instrument() == old(self).instrument(),
                i <= events@.len(),
                changes <= i,
                (self@, changes as nat) == run_lane(
                    old(self)@,
                    events@.take(i as int),
                    Lane::Trades,
                    MAX_LEVELS as nat,
                ),
            decreases events@.len() - i,
        {
            let e: Event = events[i];
            assert(events@.take(i + 1).drop_last() =~= events@.take(i as int));
            if e.event_type == EventType::Trade.code() {
                if self.trade(&e) {
                    changes += 1;
                }
            }
            i += 1;
        }
        assert(events@.take(i as int) =~= events@);
        changes
    }

    /// The cancel pass.
    pub fn apply_lane_cancels(&mut self, events: &[Event]) -> (changes: usize)
        requires
            old(self).wf(),
        ensures
            final(self).wf(),
            final(self).instrument() == old(self).instrument(),
            changes <= events@.len(),
            (final(self)@, changes as nat) == run_lane(
                old(self)@,
                events@,
                Lane::Cancels,
                MAX_LEVELS as nat,
            ),
    {
        let mut changes: usize = 0;
        let mut i: usize = 0;
        assert(events@.take(0) =~= Seq::<Event>::empty());
        while i < events.len()
            invariant
                self.wf(),
                self.instrument() == old(self).instrument(),
                i <= events@.len(),
                changes <= i,
                (self@, changes as nat) == run_lane(
                    old(self)@,
                    events@.take(i as int),
                    Lane::Cancels,
                    MAX_LEVELS as nat,
                ),
            decreases events@.len() - i,
        {
            let e: Event = events[i];
            assert(events@.take(i + 1).drop_last() =~= events@.take(i as int));
            if e.event_type == EventType::OrderCancel.code() {
                if self.cancel_order(&e) {
                    changes += 1;
                }
            }
            i += 1;
        }
        assert(events@.take(i as int) =~= events@);
        changes
    }

    fn add_order(&mut self, e: &Event) -> (ok: bool)
        requires
            old(self).wf(),
            add_fits(old(self)@, *e),
        ensures
            final(self).wf(),
            final(self).instrument() == old(self).instrument(),
            (final(self)@, ok) == hot_add(old(self)@, *e, MAX_LEVELS as nat),
    {
        proof {
            self.lemma_wf();
        }
        let is_bid: bool = e.side == 0;
        let ok: bool = if is_bid {
            raise(&mut self.bids, e.price, e.qty, true, MAX_LEVELS)
        } else {
            raise(&mut self.asks, e.price, e.qty, false, MAX_LEVELS)
        };
        if ok && e.order_id != 0 {
            self.orders.insert(e.order_id, OrderMeta { price: e.price, qty: e.qty, side: e.side });
        }
        assert(self@ =~= hot_add(old(self)@, *e, MAX_LEVELS as nat).0);
        ok
    }

    fn cancel_order(&mut self, e: &Event) -> (ok: bool)
        requires
            old(self).wf(),
        ensures
            final(self).wf(),
            final(self).instrument() == old(self).instrument(),
            (final(self)@, ok) == hot_cancel(old(self)@, *e),
    {
        let price: u64;
        let qty: u64;
        let is_bid: bool;
        let release: bool;
        if e.order_id != 0 {
            let meta: OrderMeta = match self.orders.get(e.order_id) {
                Some(m) => *m,
                None => {
                    return false;
                },
            };
            price = meta.price;
            is_bid = meta.side == 0;
            if e.qty == 0 || e.qty >= meta.qty {
                self.orders.remove(e.order_id);
                qty = meta.qty;
                release = true;
            } else {
                self.orders.update(
                    e.order_id,
                    OrderMeta { price: meta.price, qty: meta.qty - e.qty, side: meta.side },
                );
                qty = e.qty;
                release = false;
            }
        } else {
            price = e.price;
            qty = e.qty;
            is_bid = e.side == 0;
            release = true;
        }
        let found: bool = self.lower_side(price, qty, is_bid, release);
        assert(self@ =~= hot_cancel(old(self)@, *e).0);
        found || e.order_id != 0
    }

    /// Takes `qty` from one level of one side.
    fn lower_side(&mut self, price: u64, qty: u64, is_bid: bool, release: bool) -> (found: bool)
        requires
            old(self).wf(),
        ensures
            final(self).wf(),
            final(self).instrument() == old(self).instrument(),
            found == old(self)@.side(is_bid).contains_key(price),
            final(self)@ == old(self)@.with_side(
                is_bid,
                model::shrink(old(self)@.side(is_bid), price, qty as nat, release),
            ),
    {
        if is_bid {
            lower(&mut self.bids, price, qty, true, release)
        } else {
            lower(&mut self.asks, price, qty, false, release)
        }
    }

    fn trade(&mut self, e: &Event) -> (ok: bool)
        requires
            old(self).wf(),
        ensures
            final(self).wf(),
            final(self).instrument() == old(self).instrument(),
            (final(self)@, ok) == hot_trade(old(self)@, *e),
    {
        if e.order_id == 0 {
            return self.trade_anon(e.price, e.qty, e.side == 0);
        }
        let meta: OrderMeta = match self.orders.get(e.order_id) {
            Some(m) => *m,
            None => {
                return false;
            },
        };
        let fill: u64 = if e.qty < meta.qty { e.qty } else { meta.qty };
        let left: u64 = meta.qty - fill;
        let is_bid: bool = meta.side == 0;
        if left != 0 {
            self.orders.update(
                e.order_id,
                OrderMeta { price: meta.price, qty: left, side: meta.side },
            );
            self.lower_side(meta.price, fill, is_bid, false);
            assert(self@ =~= hot_trade(old(self)@, *e).0);
            return true;
        }
        self.trade_full_fill(e.order_id, meta.price, fill, is_bid);
        assert(self@ =~= hot_trade(old(self)@, *e).0);
        true
    }

    /// The trade consumed the order: it leaves with what was left of it.
    fn trade_full_fill(&mut self, order_id: u64, price: u64, fill: u64, is_bid: bool) -> (found: bool)
        requires
            old(self).wf(),
        ensures
            final(self).wf(),
            final(self).instrument() == old(self).instrument(),
            found == old(self)@.side(is_bid).contains_key(price),
            final(self)@ == old(self)@.with_orders(old(self)@.orders.remove(order_id)).with_side(
                is_bid,
                model::shrink(old(self)@.side(is_bid), price, fill as nat, true),
            ),
    {
        self.orders.remove(order_id);
        self.lower_side(price, fill, is_bid, true)
    }

    /// A trade that names no order. One order leaves only with the level's last quantity.
    fn trade_anon(&mut self, price: u64, qty: u64, is_bid: bool) -> (found: bool)
        requires
            old(self).wf(),
        ensures
            final(self).wf(),
            final(self).instrument() == old(self).instrument(),
            found == old(self)@.side(is_bid).contains_key(price),
            final(self)@ == old(self)@.with_side(
                is_bid,
                shrink_traded(old(self)@.side(is_bid), price, qty as nat),
            ),
    {
        let at: Option<usize> = if is_bid {
            find_level(&self.bids, price, true)
        } else {
            find_level(&self.asks, price, false)
        };
        let drained: bool = match at {
            Some(i) => {
                proof {
                    ladder::lemma_level_at(if is_bid { self.bids@ } else { self.asks@ }, is_bid, i as int);
                }
                if is_bid {
                    self.bids[i].total_qty <= qty
                } else {
                    self.asks[i].total_qty <= qty
                }
            },
            None => false,
        };
        self.lower_side(price, qty, is_bid, drained)
    }

    // ─── Accessors ──────────────────────────────────────────────────

    /// Highest bid price.
    pub fn best_bid(&self) -> (r: Option<Price>)
        requires
            self.wf(),
        ensures
            r is None <==> self@.bids.dom() == Set::<u64>::empty(),
            r matches Some(p) ==> self@.is_best_bid(p),
            r == (if self.bid_seq().len() > 0 {
                Some(self.bid_seq()[0].price)
            } else {
                None
            }),
    {
        if self.bids.len() > 0 {
            proof {
                ladder::lemma_level_at(self.bids@, true, 0);
                assert forall|q: u64| #[trigger] self@.bids.contains_key(q) implies q <= self.bids@[0].price by {
                    let k = ladder::index_of_price(self.bids@, q);
                    if k > 0 {
                        assert(ladder::better(true, self.bids@[0].price, self.bids@[k].price));
                    }
                }
            }
            Some(self.bids[0].price)
        } else {
            assert(self@.bids.dom() =~= Set::<u64>::empty());
            None
        }
    }

    /// Lowest ask price.
    pub fn best_ask(&self) -> (r: Option<Price>)
        requires
            self.wf(),
        ensures
            r is None <==> self@.asks.dom() == Set::<u64>::empty(),
            r matches Some(p) ==> self@.is_best_ask(p),
            r == (if self.ask_seq().len() > 0 {
                Some(self.ask_seq()[0].price)
            } else {
                None
            }),
    {
        if self.asks.len() > 0 {
            proof {
                ladder::lemma_level_at(self.asks@, false, 0);
                assert forall|q: u64| #[trigger] self@.asks.contains_key(q) implies self.asks@[0].price <= q by {
                    let k = ladder::index_of_price(self.asks@, q);
                    if k > 0 {
                        assert(ladder::better(false, self.asks@[0].price, self.asks@[k].price));
                    }
                }
            }
            Some(self.asks[0].price)
        } else {
            assert(self@.asks.dom() =~= Set::<u64>::empty());
            None
        }
    }

    /// Quantity at the best bid, 0 without one.
    pub fn best_bid_size(&self) -> (r: u64)
        requires
            self.wf(),
        ensures
            r == (if self.bid_seq().len() > 0 {
                self.bid_seq()[0].total_qty
            } else {
                0
            }),
    {
        if self.bids.len() > 0 {
            self.bids[0].total_qty
        } else {
            0
        }
    }

    /// Quantity at the best ask, 0 without one.
    pub fn best_ask_size(&self) -> (r: u64)
        requires
            self.wf(),
        ensures
            r == (if self.ask_seq().len() > 0 {
                self.ask_seq()[0].total_qty
            } else {
                0
            }),
    {
        if self.asks.len() > 0 {
            self.asks[0].total_qty
        } else {
            0
        }
    }

    /// Best ask less best bid, where both stand and the book is not crossed.
    pub fn spread(&self) -> (r: Option<u64>)
        requires
            self.wf(),
        ensures
            r == spread_of(self.bid_seq(), self.ask_seq()),
    {
        match (self.best_bid(), self.best_ask()) {
            (Some(bid), Some(ask)) => if ask > bid {
                Some(ask - bid)
            } else {
                None
            },
            _ => None,
        }
    }

    /// Number of bid levels.
    pub fn bid_count(&self) -> (n: usize)
        requires
            self.wf(),
        ensures
            n == self.bid_seq().len(),
            n == self@.bids.len(),
    {
        proof {
            self.lemma_wf();
        }
        self.bids.len()
    }

    /// Number of ask levels.
    pub fn ask_count(&self) -> (n: usize)
        requires
            self.wf(),
        ensures
            n == self.ask_seq().len(),
            n == self@.asks.len(),
    {
        proof {
            self.lemma_wf();
        }
        self.asks.len()
    }

    /// What rests under `oid`.
    pub fn order_meta(&self, oid: u64) -> (r: Option<&OrderMeta>)
        requires
            self.wf(),
        ensures
            r is Some <==> self@.orders.contains_key(oid),
            r matches Some(m) ==> *m == self@.orders[oid],
    {
        self.orders.get(oid)
    }

    /// Bid quantity of the best `n` levels.
    pub fn bid_depth(&self, n: usize) -> (d: u64)
        requires
            self.wf(),
            depth_of(self.bid_seq(), self.bid_seq().len()) <= u64::MAX,
        ensures
            d == depth_of(self.bid_seq(), n as nat),
    {
        Self::depth_sum(&self.bids, n)
    }

    /// Ask quantity of the best `n` levels.
    pub fn ask_depth(&self, n: usize) -> (d: u64)
        requires
            self.wf(),
            depth_of(self.ask_seq(), self.ask_seq().len()) <= u64::MAX,
        ensures
            d == depth_of(self.ask_seq(), n as nat),
    {
        Self::depth_sum(&self.asks, n)
    }

    fn depth_sum(levels: &Vec<Level>, n: usize) -> (d: u64)
        requires
            depth_of(levels@, levels@.len()) <= u64::MAX,
        ensures
            d == depth_of(levels@, n as nat),
    {
        let top: usize = if n < levels.len() { n } else { levels.len() };
        let mut d: u64 = 0;
        let mut i: usize = 0;
        while i < top
            invariant
                i <= top <= levels@.len(),
                d == depth_of(levels@, i as nat),
                depth_of(levels@, levels@.len()) <= u64::MAX,
            decreases top - i,
        {
            proof {
                lemma_depth_grows(levels@, (i + 1) as nat, levels@.len());
            }
            d = d + levels[i].total_qty;
            i += 1;
        }
        proof {
            if n > levels@.len() {
                lemma_depth_saturates(levels@, n as nat);
            }
        }
        d
    }

    /// Bid quantity of all levels.
    pub fn total_bid_depth(&self) -> (d: u64)
        requires
            self.wf(),
            depth_of(self.bid_seq(), self.bid_seq().len()) <= u64::MAX,
        ensures
            d == depth_of(self.bid_seq(), self.bid_seq().len()),
    {
        self.bid_depth(self.bids.len())
    }

    /// Ask quantity of all levels.
    pub fn total_ask_depth(&self) -> (d: u64)
        requires
            self.wf(),
            depth_of(self.ask_seq(), self.ask_seq().len()) <= u64::MAX,
        ensures
            d == depth_of(self.ask_seq(), self.ask_seq().len()),
    {
        self.ask_depth(self.asks.len())
    }

    /// The bid levels, best first.
    pub fn bid_levels(&self) -> (s: &[Level])
        requires
            self.wf(),
        ensures
            s@ == self.bid_seq(),
            ladder::sorted(s@, true),
            ladder::ladder_of(s@) == self@.bids,
    {
        self.bids.as_slice()
    }

    /// The ask levels, best first.
    pub fn ask_levels(&self) -> (s: &[Level])
        requires
            self.wf(),
        ensures
            s@ == self.ask_seq(),
            ladder::sorted(s@, false),
            ladder::ladder_of(s@) == self@.asks,
    {
        self.asks.as_slice()
    }

    /// The canonical level-two digest. It depends on the ladders alone.
    pub fn canonical_l2_hash(&self) -> (h: u64)
        requires
            self.wf(),
        ensures
            h == digest::l2_digest(digest::best_first(self@.bids, true), digest::best_first(self@.asks, false)),
    {
        proof {
            self.lemma_wf();
        }
        digest_book(self.bids.as_slice(), self.asks.as_slice())
    }
}

/// Best ask less best bid, where both stand and the ask is the higher.
pub open spec fn spread_of(bids: Seq<Level>, asks: Seq<Level>) -> Option<u64> {
    if bids.len() > 0 && asks.len() > 0 && asks[0].price > bids[0].price {
        Some((asks[0].price - bids[0].price) as u64)
    } else {
        None
    }
}

/// No prefix of the levels holds more than all of them.
pub proof fn lemma_depth_total(levels: Seq<Level>, n: nat)
    ensures
        depth_of(levels, n) <= depth_of(levels, levels.len()),
{
    if n <= levels.len() {
        lemma_depth_grows(levels, n, levels.len());
    } else {
        lemma_depth_saturates(levels, n);
    }
}

pub proof fn lemma_depth_grows(levels: Seq<Level>, n: nat, m: nat)
    requires
        n <= m,
    ensures
        depth_of(levels, n) <= depth_of(levels, m),
    decreases m,
{
    if n < m {
        lemma_depth_grows(levels, n, (m - 1) as nat);
    }
}

/// The depth of so many levels is the quantity of the best ones, each counted once: one
/// level more is its quantity more, and beyond the last there is nothing.
pub proof fn depths_add_up(levels: Seq<Level>, n: nat)
    ensures
        depth_of(levels, 0) == 0,
        n < levels.len() ==> depth_of(levels, n + 1) == depth_of(levels, n) + levels[n as int].total_qty,
        n >= levels.len() ==> depth_of(levels, n) == depth_of(levels, levels.len()),
{
    if n >= levels.len() {
        lemma_depth_saturates(levels, n);
    }
}

/// The spread is how far the best ask lies above the best bid; a book that is one-sided,
/// locked or crossed has none.
pub proof fn spreads_are_ask_over_bid(bids: Seq<Level>, asks: Seq<Level>)
    ensures
        spread_of(bids, asks) is Some <==> bids.len() > 0 && asks.len() > 0 && bids[0].price < asks[0].price,
        spread_of(bids, asks) matches Some(s) ==> bids[0].price + s == asks[0].price,
{
}

/// There is room for an add exactly where it fits and for a modify exactly where its add
/// would fit as things are; all else needs none.
pub proof fn only_adds_need_room(b: BookModel, e: Event)
    ensures
        e.event_type != 1 && e.event_type != 3 ==> room_for(b, e),
        e.event_type == 1 ==> (room_for(b, e) <==> hot_fits(b, e)),
        e.event_type == 3 ==> (room_for(b, e) <==> hot_fits(b, (Event { event_type: 1, ..e }))),
{
}

} // verus!
