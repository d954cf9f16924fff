//! Phantom liquidity: levels that appear, are never traded, and vanish.
//!
//! A level is a candidate from its first add on. A trade at it proves it real.
//! Once cancels have taken as much and as many as adds brought, it is gone, and
//! if its whole life fits the sequence window or the time window it is flagged.

use crate::book::event::{EventType, SequencedEvent};
#[allow(unused_imports)]
use crate::book::event;
use crate::book::types::SeqNum;
use crate::chaos::flag::{ChaosEvent, ChaosFeatures, ChaosKind, Severity};
#[allow(unused_imports)]
use crate::chaos::flag;
#[allow(unused_imports)]
use crate::chaos::order_tracker;
use crate::ratio::{cross, Fraction};
use std::collections::BTreeMap;
use vstd::prelude::*;

verus! {

/// What is remembered of one candidate level.
#[derive(Debug, Clone, Copy, PartialEq, Eq, Structural)]
pub struct LevelTracker {
    /// Sequence number and time of the first add.
    pub created_seq: SeqNum,
    pub created_ts: u64,
    /// Quantity added and cancelled since.
    pub added_qty: u64,
    pub cancelled_qty: u64,
    /// Orders added since, and those of them that a cancel took from.
    pub order_count: u32,
    pub cancel_count: u32,
}

/// Side and price as one key.
pub open spec fn level_key(side: u8, price: u64) -> u128 {
    (side * 0x1_0000_0000_0000_0000 + price) as u128
}

fn key_of(side: u8, price: u64) -> (k: u128)
    ensures
        k == level_key(side, price),
{
    side as u128 * 0x1_0000_0000_0000_0000 + price as u128
}

/// No two levels share a key.
pub proof fn level_keys_are_distinct(s1: u8, p1: u64, s2: u8, p2: u64)
    ensures
        level_key(s1, p1) == level_key(s2, p2) <==> s1 == s2 && p1 == p2,
{
}

/// `a + b`, or the largest number where that is larger.
pub open spec fn plus_u64(a: u64, b: u64) -> u64 {
    if a + b > u64::MAX {
        u64::MAX
    } else {
        (a + b) as u64
    }
}

/// `a + 1`, or the largest number where that is larger.
pub open spec fn next_u32(a: u32) -> u32 {
    if a == u32::MAX {
        u32::MAX
    } else {
        (a + 1) as u32
    }
}

/// `a - b`, or zero where that is negative.
pub open spec fn less_u64(a: u64, b: u64) -> u64 {
    if a >= b {
        (a - b) as u64
    } else {
        0
    }
}

impl LevelTracker {
    /// Cancels have taken at least what adds brought, in quantity and number.
    pub open spec fn is_gone(self) -> bool {
        self.cancelled_qty >= self.added_qty && self.cancel_count >= self.order_count
    }

    fn fully_cancelled(&self) -> (r: bool)
        ensures
            r == self.is_gone(),
    {
        self.cancelled_qty >= self.added_qty && self.cancel_count >= self.order_count
    }

    /// One more add.
    pub open spec fn with_add(self, qty: u64) -> LevelTracker {
        LevelTracker {
            added_qty: plus_u64(self.added_qty, qty),
            order_count: next_u32(self.order_count),
            ..self
        }
    }

    /// What a cancel without a known order takes. One that says no quantity takes
    /// the average share of what is left.
    pub open spec fn cancel_share(self, qty: u64) -> u64 {
        if qty == 0 {
            let left = less_u64(self.added_qty, self.cancelled_qty);
            let some = if left < 1 {
                1u64
            } else {
                left
            };
            let orders = if self.order_count < 1 {
                1u64
            } else {
                self.order_count as u64
            };
            (some / orders) as u64
        } else {
            qty
        }
    }

    /// One more cancel of so much, the first of its order or not.
    pub open spec fn with_cancel(self, taken: u64, first: bool) -> LevelTracker {
        LevelTracker {
            cancelled_qty: plus_u64(self.cancelled_qty, taken),
            cancel_count: if first {
                next_u32(self.cancel_count)
            } else {
                self.cancel_count
            },
            ..self
        }
    }
}

/// The tracker of a level at its first add.
pub open spec fn new_tracker(e: SequencedEvent) -> LevelTracker {
    LevelTracker {
        created_seq: e.seq,
        created_ts: e.event.ts,
        added_qty: e.event.qty,
        cancelled_qty: 0,
        order_count: 1,
        cancel_count: 0,
    }
}

/// The limits of a detector. A window of zero is off.
#[derive(Debug, Clone, Copy, PartialEq, Eq, Structural)]
pub struct PhantomLimits {
    pub max_seq_gap: u64,
    pub max_time_gap_ns: u64,
    pub max_tracked: usize,
    pub min_qty: u64,
}

/// Where an order was added, what is left of it, and whether a cancel took from it
/// before.
#[derive(Debug, Clone, Copy, PartialEq, Eq, Structural)]
pub struct Placed {
    pub key: u128,
    pub left: u64,
    pub touched: bool,
}

/// Candidate levels and the places of live orders.
#[verifier::ext_equal]
pub struct PhantomModel {
    pub levels: Map<u128, LevelTracker>,
    /// Each order added and not yet cancelled in full.
    pub orders: Map<u64, Placed>,
}

/// The oldest level; of several the one with the lowest key.
pub open spec fn is_oldest_level(m: Map<u128, LevelTracker>, k: u128) -> bool {
    &&& m.contains_key(k)
    &&& forall|j: u128| #[trigger]
        m.contains_key(j) ==> m[k].created_seq < m[j].created_seq || (m[k].created_seq
            == m[j].created_seq && k <= j)
}

/// The levels with room for one more.
pub open spec fn roomy_levels(m: Map<u128, LevelTracker>, max: nat) -> Map<u128, LevelTracker> {
    if m.len() >= max {
        m.remove(choose|k: u128| is_oldest_level(m, k))
    } else {
        m
    }
}

/// One add: room is made for its level, then level and order are entered.
pub open spec fn phantom_add(m: PhantomModel, max: nat, e: SequencedEvent) -> PhantomModel {
    let key = level_key(e.event.side, e.event.price);
    let levels = roomy_levels(m.levels, max);
    PhantomModel {
        levels: levels.insert(
            key,
            if levels.contains_key(key) {
                levels[key].with_add(e.event.qty)
            } else {
                new_tracker(e)
            },
        ),
        orders: if e.event.order_id == 0 {
            m.orders
        } else {
            m.orders.insert(e.event.order_id, Placed { key, left: e.event.qty, touched: false })
        },
    }
}

/// The event names an order that is known.
pub open spec fn of_known(m: PhantomModel, e: SequencedEvent) -> bool {
    e.event.order_id != 0 && m.orders.contains_key(e.event.order_id)
}

/// The level a cancel is for: that of its order if it is known, or else the one
/// that the cancel itself names. A modify names the new place of its order, so of
/// an unknown order it cancels nothing.
pub open spec fn cancel_target(m: PhantomModel, e: SequencedEvent) -> Option<u128> {
    if of_known(m, e) {
        Some(m.orders[e.event.order_id].key)
    } else if e.event.order_id == 0 || e.event.event_type == event::event_code(EventType::OrderCancel) {
        Some(level_key(e.event.side, e.event.price))
    } else {
        None
    }
}

/// A cancel is the first of its order; one without a known order counts for
/// itself.
pub open spec fn first_cancel(m: PhantomModel, e: SequencedEvent) -> bool {
    of_known(m, e) ==> !m.orders[e.event.order_id].touched
}

/// What a cancel takes from a level: what leaves of its order if that is known.
pub open spec fn taken_by(m: PhantomModel, t: LevelTracker, e: SequencedEvent) -> u64 {
    if of_known(m, e) {
        order_tracker::leaving(m.orders[e.event.order_id].left, e.event.qty)
    } else {
        t.cancel_share(e.event.qty)
    }
}

/// The orders after a cancel: one that takes a part leaves the rest known.
pub open spec fn orders_after(m: PhantomModel, e: SequencedEvent) -> Map<u64, Placed> {
    let id = e.event.order_id;
    if !of_known(m, e) {
        m.orders
    } else if e.event.qty == 0 || e.event.qty >= m.orders[id].left {
        m.orders.remove(id)
    } else {
        m.orders.insert(
            id,
            Placed { left: (m.orders[id].left - e.event.qty) as u64, touched: true, ..m.orders[id] },
        )
    }
}

/// Its life fits one of the windows.
pub open spec fn short_lived(t: LevelTracker, l: PhantomLimits, e: SequencedEvent) -> bool {
    ||| l.max_seq_gap > 0 && less_u64(e.seq, t.created_seq) <= l.max_seq_gap
    ||| l.max_time_gap_ns > 0 && less_u64(e.event.ts, t.created_ts) <= l.max_time_gap_ns
}

/// How much of a window was left, as a fraction; nothing when it is off or over.
pub open spec fn slack(gap: u64, window: u64) -> (u64, u64) {
    if window > 0 && gap <= window {
        ((window - gap) as u64, window)
    } else {
        (0, 1)
    }
}

/// The larger slack of the two windows.
pub open spec fn phantom_severity(t: LevelTracker, l: PhantomLimits, e: SequencedEvent) -> Severity {
    let a = slack(less_u64(e.seq, t.created_seq), l.max_seq_gap);
    let b = slack(less_u64(e.event.ts, t.created_ts), l.max_time_gap_ns);
    if a.0 * b.1 >= b.0 * a.1 {
        flag::single_of(a.0 as nat, a.1 as nat)
    } else {
        flag::single_of(b.0 as nat, b.1 as nat)
    }
}

/// The flag of a level whose last cancel is `e`.
pub open spec fn phantom_flag(t: LevelTracker, l: PhantomLimits, e: SequencedEvent) -> ChaosEvent {
    ChaosEvent {
        kind: ChaosKind::PhantomLiquidity,
        start_seq: t.created_seq,
        end_seq: e.seq,
        severity: phantom_severity(t, l, e),
        initiator: None,
        features: ChaosFeatures {
            event_count: (t.order_count + t.cancel_count) as u64,
            duration_ns: less_u64(e.event.ts, t.created_ts),
            cancel_trade_ratio: Fraction { num: t.cancel_count as u128, den: 0 },
            price_displacement: 0,
            depth_removed: t.cancelled_qty,
        },
    }
}

/// One cancel. An order is forgotten once it is cancelled in full, or with its
/// level; the level, if tracked, is reduced, and leaves once gone: flagged if it
/// was large enough and short-lived.
pub open spec fn phantom_cancel(m: PhantomModel, l: PhantomLimits, e: SequencedEvent) -> (
    PhantomModel,
    Option<ChaosEvent>,
) {
    let orders = orders_after(m, e);
    match cancel_target(m, e) {
        Some(key) => if m.levels.contains_key(key) {
            let t = m.levels[key].with_cancel(taken_by(m, m.levels[key], e), first_cancel(m, e));
            if !t.is_gone() {
                (PhantomModel { levels: m.levels.insert(key, t), orders }, None)
            } else {
                (
                    PhantomModel {
                        levels: m.levels.remove(key),
                        orders: if of_known(m, e) {
                            orders.remove(e.event.order_id)
                        } else {
                            orders
                        },
                    },
                    if t.added_qty >= l.min_qty && short_lived(t, l, e) {
                        Some(phantom_flag(t, l, e))
                    } else {
                        None
                    },
                )
            }
        } else {
            (PhantomModel { levels: m.levels, orders }, None)
        },
        None => (m, None),
    }
}

/// One event. A modify is a cancel, which may flag, and then an add. A trade
/// drops the level it is at.
pub open spec fn phantom_step(m: PhantomModel, l: PhantomLimits, e: SequencedEvent) -> (
    PhantomModel,
    Option<ChaosEvent>,
) {
    let t = e.event.event_type;
    if t == event::event_code(EventType::OrderAdd) {
        (phantom_add(m, l.max_tracked as nat, e), None)
    } else if t == event::event_code(EventType::OrderCancel) {
        phantom_cancel(m, l, e)
    } else if t == event::event_code(EventType::OrderModify) {
        let (n, f) = phantom_cancel(m, l, e);
        (phantom_add(n, l.max_tracked as nat, e), f)
    } else if t == event::event_code(EventType::Trade) {
        (
            PhantomModel {
                levels: m.levels.remove(level_key(e.event.side, e.event.price)),
                orders: m.orders,
            },
            None,
        )
    } else {
        (m, None)
    }
}

/// The counts of every level still add up within a counter.
pub open spec fn counts_fit(m: Map<u128, LevelTracker>) -> bool {
    forall|k: u128| #[trigger] m.contains_key(k) ==> m[k].order_count + m[k].cancel_count < u32::MAX
}

proof fn lemma_oldest_level_unique(m: Map<u128, LevelTracker>, k: u128)
    requires
        is_oldest_level(m, k),
    ensures
        (choose|j: u128| is_oldest_level(m, j)) == k,
{
    let j = choose|j: u128| is_oldest_level(m, j);
    assert(is_oldest_level(m, j));
    assert(m.contains_key(j) && m.contains_key(k));
}

/// The oldest level.
fn oldest_level(levels: &BTreeMap<u128, LevelTracker>) -> (r: Option<u128>)
    ensures
        r is None <==> levels@.dom() == Set::<u128>::empty(),
        r matches Some(k) ==> is_oldest_level(levels@, k),
{
    let mut best: Option<(u64, u128)> = None;
    let iter = levels.iter();
    let ghost items = vstd::std_specs::iter::IteratorSpec::remaining(&iter);
    let ghost keys = items.map_values(|kv: (&u128, &LevelTracker)| *kv.0);
    for kv in it: iter
        invariant
            it.seq() == items,
            best is None <==> it.index() == 0,
            best matches Some(b) ==> {
                &&& exists|i: int|
                    0 <= i < it.index() && *(#[trigger] items[i]).0 == b.1 && items[i].1.created_seq == b.0
                &&& forall|i: int|
                    0 <= i < it.index() ==> b.0 < (#[trigger] items[i]).1.created_seq || (b.0
                        == items[i].1.created_seq && b.1 <= *items[i].0)
            },
            items.len() == keys.len(),
            forall|i: int| 0 <= i < items.len() ==> keys[i] == *(#[trigger] items[i]).0,
            vstd::std_specs::btree::increasing_seq(keys),
    {
        let ghost n = it.index();
        let age: u64 = kv.1.created_seq;
        let older: bool = match best {
            None => true,
            Some(b) => age < b.0,
        };
        proof {
            assert(kv == items[n]);
            if let Some(b) = best {
                let i = choose|i: int|
                    0 <= i < n && *(#[trigger] items[i]).0 == b.1 && items[i].1.created_seq == b.0;
                assert(keys[i] == *items[i].0 && keys[n] == *items[n].0);
                assert(vstd::std_specs::cmp::OrdSpec::cmp_spec(&keys[i], &keys[n]) is Less);
            }
        }
        if older {
            best = Some((age, *kv.0));
        }
    }
    proof {
        if let Some(b) = best {
            let i = choose|i: int|
                0 <= i < items.len() && *(#[trigger] items[i]).0 == b.1 && items[i].1.created_seq == b.0;
            assert(levels@.contains_key(*items[i].0) && levels@[*items[i].0] == *items[i].1);
            assert forall|j: u128| #[trigger] levels@.contains_key(j) implies b.0 < levels@[j].created_seq || (b.0
                == levels@[j].created_seq && b.1 <= j) by {
                assert(items.contains((&j, &levels@[j])));
                let w = choose|w: int| 0 <= w < items.len() && items[w] == (&j, &levels@[j]);
                assert(b.0 < items[w].1.created_seq || (b.0 == items[w].1.created_seq && b.1
                    <= *items[w].0));
            }
        } else {
            assert forall|j: u128| !levels@.dom().contains(j) by {
                if levels@.contains_key(j) {
                    assert(items.contains((&j, &levels@[j])));
                }
            }
            assert(levels@.dom() =~= Set::<u128>::empty());
        }
    }
    match best {
        Some(b) => Some(b.1),
        None => None,
    }
}

/// Phantom-liquidity detector.
#[derive(Debug)]
pub struct PhantomLiquidityDetector {
    levels: BTreeMap<u128, LevelTracker>,
    orders: BTreeMap<u64, Placed>,
    limits: PhantomLimits,
}

impl View for PhantomLiquidityDetector {
    type V = PhantomModel;

    closed spec fn view(&self) -> PhantomModel {
        PhantomModel { levels: self.levels@, orders: self.orders@ }
    }
}

impl PhantomLiquidityDetector {
    /// The limits it was made with.
    pub closed spec fn config(&self) -> PhantomLimits {
        self.limits
    }

    /// A detector. At least one window has to be on.
    pub fn new(max_seq_gap: u64, max_time_gap_ns: u64, max_tracked: usize, min_qty: u64) -> (d: Self)
        requires
            max_seq_gap != 0 || max_time_gap_ns != 0,
        ensures
            d.config() == (PhantomLimits { max_seq_gap, max_time_gap_ns, max_tracked, min_qty }),
            d@ == (PhantomModel { levels: Map::empty(), orders: Map::empty() }),
    {
        PhantomLiquidityDetector {
            levels: BTreeMap::new(),
            orders: BTreeMap::new(),
            limits: PhantomLimits { max_seq_gap, max_time_gap_ns, max_tracked, min_qty },
        }
    }

    /// Number of candidate levels.
    pub fn tracked_levels(&self) -> (n: usize)
        ensures
            n == self@.levels.len(),
    {
        self.levels.len()
    }

    /// Whether the counts of all levels leave room for one more.
    pub fn is_ready(&self) -> (b: bool)
        ensures
            b == counts_fit(self@.levels),
    {
        let iter = self.levels.iter();
        let ghost items = vstd::std_specs::iter::IteratorSpec::remaining(&iter);
        for kv in it: iter
            invariant
                it.seq() == items,
                forall|k: u128| #[trigger]
                    self.levels@.contains_key(k) ==> items.contains((&k, &self.levels@[k])),
                forall|i: int|
                    0 <= i < items.len() ==> self.levels@.contains_key(*(#[trigger] items[i]).0)
                        && self.levels@[*items[i].0] == *items[i].1,
                forall|i: int|
                    0 <= i < it.index() ==> (#[trigger] items[i]).1.order_count + items[i].1.cancel_count
                        < u32::MAX,
        {
            let t: LevelTracker = *kv.1;
            if t.order_count as u64 + t.cancel_count as u64 >= u32::MAX as u64 {
                assert(self@.levels.contains_key(*items[it.index()].0));
                return false;
            }
        }
        assert forall|k: u128| #[trigger] self@.levels.contains_key(k) implies self@.levels[k].order_count
            + self@.levels[k].cancel_count < u32::MAX by {
            assert(items.contains((&k, &self.levels@[k])));
        }
        true
    }

    /// Feeds one event; hands out the flag it completes.
    pub fn process(&mut self, seq_event: &SequencedEvent) -> (r: Option<ChaosEvent>)
        requires
            counts_fit(old(self)@.levels),
        ensures
            final(self).config() == old(self).config(),
            (final(self)@, r) == phantom_step(old(self)@, old(self).config(), *seq_event),
    {
        match EventType::from_u8(seq_event.event.event_type) {
            None => None,
            Some(EventType::OrderAdd) => {
                self.on_add(seq_event);
                None
            },
            Some(EventType::OrderCancel) => self.on_cancel(seq_event),
            Some(EventType::OrderModify) => {
                let flagged = self.on_cancel(seq_event);
                self.on_add(seq_event);
                flagged
            },
            Some(EventType::Trade) => {
                let key: u128 = key_of(seq_event.event.side, seq_event.event.price);
                self.levels.remove(&key);
                None
            },
            Some(EventType::BookSnapshot) => None,
        }
    }

    fn on_add(&mut self, seq_event: &SequencedEvent)
        ensures
            final(self).config() == old(self).config(),
            final(self)@ == phantom_add(
                old(self)@,
                old(self).config().max_tracked as nat,
                *seq_event,
            ),
    {
        let e = &seq_event.event;
        if self.levels.len() >= self.limits.max_tracked {
            self.evict_oldest();
        }
        let key: u128 = key_of(e.side, e.price);
        let next: LevelTracker = match self.levels.get(&key) {
            Some(t) => LevelTracker {
                created_seq: t.created_seq,
                created_ts: t.created_ts,
                added_qty: t.added_qty.saturating_add(e.qty),
                cancelled_qty: t.cancelled_qty,
                order_count: t.order_count.saturating_add(1),
                cancel_count: t.cancel_count,
            },
            None => LevelTracker {
                created_seq: seq_event.seq,
                created_ts: e.ts,
                added_qty: e.qty,
                cancelled_qty: 0,
                order_count: 1,
                cancel_count: 0,
            },
        };
        self.levels.insert(key, next);
        if e.order_id != 0 {
            self.orders.insert(e.order_id, Placed { key, left: e.qty, touched: false });
        }
    }

    fn on_cancel(&mut self, seq_event: &SequencedEvent) -> (r: Option<ChaosEvent>)
        requires
            counts_fit(old(self)@.levels),
        ensures
            final(self).config() == old(self).config(),
            (final(self)@, r) == phantom_cancel(old(self)@, old(self).config(), *seq_event),
    {
        let e = &seq_event.event;
        let order: Option<Placed> = if e.order_id == 0 {
            None
        } else {
            match self.orders.get(&e.order_id) {
                Some(o) => Some(*o),
                None => None,
            }
        };
        let key: u128 = match order {
            Some(o) => o.key,
            None => key_of(e.side, e.price),
        };
        match order {
            Some(o) => if e.qty == 0 || e.qty >= o.left {
                self.orders.remove(&e.order_id);
            } else {
                self.orders.insert(
                    e.order_id,
                    Placed { key: o.key, left: o.left - e.qty, touched: true },
                );
            },
            None => if e.order_id != 0 && e.event_type != EventType::OrderCancel.code() {
                return None;
            },
        }
        let known: Option<LevelTracker> = match self.levels.get(&key) {
            Some(t) => Some(*t),
            None => None,
        };
        let t0: LevelTracker = match known {
            Some(t) => t,
            None => {
                return None;
            },
        };
        let taken: u64 = match order {
            Some(o) => if e.qty == 0 || e.qty >= o.left {
                o.left
            } else {
                e.qty
            },
            None => if e.qty == 0 {
                let left: u64 = t0.added_qty.saturating_sub(t0.cancelled_qty);
                let some: u64 = if left < 1 { 1 } else { left };
                let orders: u64 = if t0.order_count < 1 { 1 } else { t0.order_count as u64 };
                some / orders
            } else {
                e.qty
            },
        };
        let first: bool = match order {
            Some(o) => !o.touched,
            None => true,
        };
        let t = LevelTracker {
            created_seq: t0.created_seq,
            created_ts: t0.created_ts,
            added_qty: t0.added_qty,
            cancelled_qty: t0.cancelled_qty.saturating_add(taken),
            order_count: t0.order_count,
            cancel_count: if first {
                t0.cancel_count.saturating_add(1)
            } else {
                t0.cancel_count
            },
        };
        assert(t == t0.with_cancel(taken, first));
        if !t.fully_cancelled() {
            self.levels.insert(key, t);
            return None;
        }
        self.levels.remove(&key);
        if order.is_some() {
            self.orders.remove(&e.order_id);
        }
        if t.added_qty < self.limits.min_qty {
            return None;
        }
        let seq_gap: u64 = seq_event.seq.saturating_sub(t.created_seq);
        let time_gap: u64 = e.ts.saturating_sub(t.created_ts);
        let inside_seq: bool = self.limits.max_seq_gap > 0 && seq_gap <= self.limits.max_seq_gap;
        let inside_time: bool = self.limits.max_time_gap_ns > 0 && time_gap
            <= self.limits.max_time_gap_ns;
        if !(inside_seq || inside_time) {
            return None;
        }
        let a: (u64, u64) = if inside_seq {
            (self.limits.max_seq_gap - seq_gap, self.limits.max_seq_gap)
        } else {
            (0, 1)
        };
        let b: (u64, u64) = if inside_time {
            (self.limits.max_time_gap_ns - time_gap, self.limits.max_time_gap_ns)
        } else {
            (0, 1)
        };
        let severity: Severity = if cross(a.0, b.1) >= cross(b.0, a.1) {
            Severity::single(a.0 as u128, a.1 as u128)
        } else {
            Severity::single(b.0 as u128, b.1 as u128)
        };
        Some(
            ChaosEvent {
                kind: ChaosKind::PhantomLiquidity,
                start_seq: t.created_seq,
                end_seq: seq_event.seq,
                severity,
                initiator: None,
                features: ChaosFeatures {
                    event_count: (t.order_count + t.cancel_count) as u64,
                    duration_ns: time_gap,
                    cancel_trade_ratio: Fraction { num: t.cancel_count as u128, den: 0 },
                    price_displacement: 0,
                    depth_removed: t.cancelled_qty,
                },
            },
        )
    }

    /// Makes room for a level.
    fn evict_oldest(&mut self)
        ensures
            final(self).config() == old(self).config(),
            final(self).orders@ == old(self).orders@,
            final(self).levels@ == old(self).levels@.remove(
                choose|k: u128| is_oldest_level(old(self).levels@, k),
            ),
    {
        match oldest_level(&self.levels) {
            Some(k) => {
                proof {
                    lemma_oldest_level_unique(self.levels@, k);
                }
                self.levels.remove(&k);
            },
            None => {
                assert(self.levels@ =~= self.levels@.remove(
                    choose|k: u128| is_oldest_level(self.levels@, k),
                ));
            },
        }
    }
}

// ─── Laws ───────────────────────────────────────────────────────────

proof fn lemma_oldest_level_exists(m: Map<u128, LevelTracker>)
    requires
        m.dom().finite(),
        m.dom().len() > 0,
    ensures
        exists|k: u128| is_oldest_level(m, k),
    decreases m.dom().len(),
{
    let c = m.dom().choose();
    assert(m.contains_key(c));
    let r = m.remove(c);
    if r.dom().len() == 0 {
        assert forall|j: u128| #[trigger] m.contains_key(j) implies j == c by {
            if j != c {
                assert(r.dom().contains(j));
                r.dom().lemma_len0_is_empty();
            }
        }
        assert(is_oldest_level(m, c));
    } else {
        lemma_oldest_level_exists(r);
        let k = choose|k: u128| is_oldest_level(r, k);
        assert(m[k] == r[k]);
        let best = if m[c].created_seq < m[k].created_seq || (m[c].created_seq == m[k].created_seq && c <= k) {
            c
        } else {
            k
        };
        assert forall|j: u128| #[trigger] m.contains_key(j) implies m[best].created_seq < m[j].created_seq || (
        m[best].created_seq == m[j].created_seq && best <= j) by {
            if j != c {
                assert(r.contains_key(j));
            }
        }
        assert(is_oldest_level(m, best));
    }
}

/// The levels are within the cap, which is never below one.
pub open spec fn within_cap(m: PhantomModel, max: nat) -> bool {
    let cap = if max == 0 {
        1
    } else {
        max
    };
    &&& m.levels.dom().finite()
    &&& m.levels.len() <= cap
}

proof fn lemma_add_within_cap(m: PhantomModel, max: nat, e: SequencedEvent)
    requires
        within_cap(m, max),
    ensures
        within_cap(phantom_add(m, max, e), max),
{
    if m.levels.len() >= max && m.levels.dom().len() > 0 {
        lemma_oldest_level_exists(m.levels);
        let k = choose|k: u128| is_oldest_level(m.levels, k);
        assert(m.levels.contains_key(k));
    }
}

proof fn lemma_step_within_cap(m: PhantomModel, l: PhantomLimits, e: SequencedEvent)
    requires
        within_cap(m, l.max_tracked as nat),
    ensures
        within_cap(phantom_step(m, l, e).0, l.max_tracked as nat),
{
    lemma_add_within_cap(m, l.max_tracked as nat, e);
    let n = phantom_cancel(m, l, e).0;
    assert(within_cap(n, l.max_tracked as nat));
    lemma_add_within_cap(n, l.max_tracked as nat, e);
}

/// The detector after a stream.
pub open spec fn phantom_run(l: PhantomLimits, es: Seq<SequencedEvent>) -> PhantomModel
    decreases es.len(),
{
    if es.len() == 0 {
        PhantomModel { levels: Map::empty(), orders: Map::empty() }
    } else {
        phantom_step(phantom_run(l, es.drop_last()), l, es.last()).0
    }
}

/// However long the stream, the tracker holds no more levels than it is allowed.
pub proof fn tracker_stays_bounded(l: PhantomLimits, es: Seq<SequencedEvent>)
    ensures
        within_cap(phantom_run(l, es), l.max_tracked as nat),
    decreases es.len(),
{
    if es.len() > 0 {
        tracker_stays_bounded(l, es.drop_last());
        lemma_step_within_cap(phantom_run(l, es.drop_last()), l, es.last());
    } else {
        assert(phantom_run(l, es).levels.dom() =~= Set::<u128>::empty());
    }
}

/// The event adds at this level.
pub open spec fn adds_at(e: SequencedEvent, key: u128) -> bool {
    (e.event.event_type == event::event_code(EventType::OrderAdd) || e.event.event_type
        == event::event_code(EventType::OrderModify)) && level_key(e.event.side, e.event.price) == key
}

/// The event trades at this level.
pub open spec fn trades_at(e: SequencedEvent, key: u128) -> bool {
    e.event.event_type == event::event_code(EventType::Trade) && level_key(
        e.event.side,
        e.event.price,
    ) == key
}

/// From the add at `c` on nothing traded at this level.
pub open spec fn untraded_since(es: Seq<SequencedEvent>, key: u128, c: int) -> bool {
    &&& 0 <= c < es.len()
    &&& adds_at(es[c], key)
    &&& forall|j: int| c < j < es.len() ==> !trades_at(#[trigger] es[j], key)
}

proof fn lemma_tracked_untraded(l: PhantomLimits, es: Seq<SequencedEvent>, key: u128)
    requires
        phantom_run(l, es).levels.contains_key(key),
    ensures
        exists|c: int|
            untraded_since(es, key, c) && (#[trigger] es[c]).seq == phantom_run(l, es).levels[key].created_seq,
    decreases es.len(),
{
    assert(es.len() > 0);
    let d = es.drop_last();
    let e = es[es.len() - 1];
    let p = phantom_run(l, d);
    let q = phantom_run(l, es);
    if p.levels.contains_key(key) && q.levels[key].created_seq == p.levels[key].created_seq && !trades_at(e, key) {
        lemma_tracked_untraded(l, d, key);
        let c = choose|c: int|
            untraded_since(d, key, c) && (#[trigger] d[c]).seq == p.levels[key].created_seq;
        assert(es[c] == d[c]);
        assert forall|j: int| c < j < es.len() implies !trades_at(#[trigger] es[j], key) by {
            if j < d.len() {
                assert(es[j] == d[j]);
            }
        }
        assert(untraded_since(es, key, c));
    } else {
        let c = es.len() - 1;
        assert(untraded_since(es, key, c));
        assert(es[c].seq == q.levels[key].created_seq);
    }
}

/// A flagged level never traded: from the add that the flag starts at up to the
/// cancel that completes it, no trade printed at its side and price.
pub proof fn flagged_level_never_traded(l: PhantomLimits, es: Seq<SequencedEvent>, e: SequencedEvent)
    requires
        phantom_step(phantom_run(l, es), l, e).1 is Some,
    ensures
        e.event.event_type == event::event_code(EventType::OrderCancel) || e.event.event_type
            == event::event_code(EventType::OrderModify),
        exists|key: u128, c: int|
            #![trigger untraded_since(es, key, c)]
            untraded_since(es, key, c) && es[c].seq == phantom_step(phantom_run(l, es), l, e).1->0.start_seq,
{
    let m = phantom_run(l, es);
    let key = cancel_target(m, e)->0;
    assert(m.levels.contains_key(key));
    lemma_tracked_untraded(l, es, key);
    let c = choose|c: int|
        untraded_since(es, key, c) && (#[trigger] es[c]).seq == m.levels[key].created_seq;
    assert(untraded_since(es, key, c));
}

/// A cancel, or a modify, right after a trade at the level that it is for never
/// flags, whatever came before and whichever way it names the level.
pub proof fn cancel_after_a_trade_never_flags(
    m: PhantomModel,
    l: PhantomLimits,
    t: SequencedEvent,
    c: SequencedEvent,
    key: u128,
)
    requires
        trades_at(t, key),
        cancel_target(phantom_step(m, l, t).0, c) == Some(key),
    ensures
        !phantom_step(m, l, t).0.levels.contains_key(key),
        phantom_step(m, l, t).1 is None,
        phantom_step(phantom_step(m, l, t).0, l, c).1 is None,
{
}

proof fn lemma_traded_is_untracked(l: PhantomLimits, es: Seq<SequencedEvent>, k: int, key: u128)
    requires
        0 <= k < es.len(),
        trades_at(es[k], key),
        forall|j: int| k < j < es.len() ==> !adds_at(#[trigger] es[j], key),
    ensures
        !phantom_run(l, es).levels.contains_key(key),
    decreases es.len(),
{
    if k < es.len() - 1 {
        let d = es.drop_last();
        assert(d[k] == es[k]);
        assert forall|j: int| k < j < d.len() implies !adds_at(#[trigger] d[j], key) by {
            assert(d[j] == es[j]);
        }
        lemma_traded_is_untracked(l, d, k, key);
        assert(!adds_at(es[es.len() - 1], key));
    }
}

/// Once a level traded no cancel of it flags until something is added there again.
pub proof fn traded_level_stays_unflagged(l: PhantomLimits, es: Seq<SequencedEvent>, k: int, key: u128, c: SequencedEvent)
    requires
        0 <= k < es.len(),
        trades_at(es[k], key),
        forall|j: int| k < j < es.len() ==> !adds_at(#[trigger] es[j], key),
        cancel_target(phantom_run(l, es), c) == Some(key),
    ensures
        phantom_step(phantom_run(l, es), l, c).1 is None,
{
    lemma_traded_is_untracked(l, es, k, key);
}

/// What an add does to its level: a level that is not tracked begins with it, one that is
/// gets its quantity and one order more. The order is remembered at its level with all of
/// its quantity. While there is room no other level changes.
pub proof fn phantom_adds_are_counted(m: PhantomModel, max: nat, e: SequencedEvent, k: u128, id: u64)
    requires
        m.levels.len() < max,
    ensures
        ({
            let key = level_key(e.event.side, e.event.price);
            let n = phantom_add(m, max, e);
            let t = n.levels[key];
            &&& n.levels.contains_key(key)
            &&& !m.levels.contains_key(key) ==> {
                &&& t.created_seq == e.seq && t.created_ts == e.event.ts
                &&& t.added_qty == e.event.qty && t.cancelled_qty == 0
                &&& t.order_count == 1 && t.cancel_count == 0
            }
            &&& m.levels.contains_key(key) ==> {
                let o = m.levels[key];
                &&& t.created_seq == o.created_seq && t.created_ts == o.created_ts
                &&& o.added_qty + e.event.qty <= u64::MAX ==> t.added_qty == o.added_qty + e.event.qty
                &&& o.order_count < u32::MAX ==> t.order_count == o.order_count + 1
                &&& t.cancelled_qty == o.cancelled_qty && t.cancel_count == o.cancel_count
            }
            &&& k != key ==> n.levels.contains_key(k) == m.levels.contains_key(k) && n.levels[k] == m.levels[k]
            &&& e.event.order_id != 0 ==> n.orders.contains_key(e.event.order_id) && n.orders[e.event.order_id].left
                == e.event.qty && n.orders[e.event.order_id].key == key && !n.orders[e.event.order_id].touched
            &&& id != e.event.order_id || id == 0 ==> n.orders.contains_key(id) == m.orders.contains_key(id) && n.orders[id]
                == m.orders[id]
        }),
{
}

/// Where there is no room the level that began first goes, and only that one.
pub proof fn the_oldest_level_makes_room(m: Map<u128, LevelTracker>, max: nat, k: u128)
    requires
        m.dom().finite(),
        m.len() >= max,
        m.len() > 0,
        m.contains_key(k),
    ensures
        roomy_levels(m, max).len() == m.len() - 1,
        !roomy_levels(m, max).contains_key(k) ==> forall|j: u128| #[trigger]
            m.contains_key(j) ==> m[k].created_seq <= m[j].created_seq,
        roomy_levels(m, max).contains_key(k) ==> roomy_levels(m, max)[k] == m[k],
{
    lemma_oldest_exists(m);
    let o = choose|j: u128| is_oldest_level(m, j);
    assert(is_oldest_level(m, o));
}

proof fn lemma_oldest_exists(m: Map<u128, LevelTracker>)
    requires
        m.dom().finite(),
        m.len() > 0,
    ensures
        exists|k: u128| is_oldest_level(m, k),
    decreases m.len(),
{
    let c = m.dom().choose();
    assert(m.dom().contains(c));
    if m.len() == 1 {
        assert forall|j: u128| #[trigger] m.contains_key(j) implies m[c].created_seq < m[j].created_seq || (m[c].created_seq
            == m[j].created_seq && c <= j) by {
            if j != c {
                assert(m.dom().remove(c).contains(j));
                assert(m.dom().remove(c).len() == 0);
            }
        }
        assert(is_oldest_level(m, c));
    } else {
        let d = m.remove(c);
        lemma_oldest_exists(d);
        let k = choose|k: u128| is_oldest_level(d, k);
        let first = m[c].created_seq < m[k].created_seq || (m[c].created_seq == m[k].created_seq && c <= k);
        let w = if first {
            c
        } else {
            k
        };
        assert forall|j: u128| #[trigger] m.contains_key(j) implies m[w].created_seq < m[j].created_seq || (m[w].created_seq
            == m[j].created_seq && w <= j) by {
            if j != c {
                assert(d.contains_key(j));
            }
        }
        assert(is_oldest_level(m, w));
    }
}

/// What a cancel of a known order does: it takes what is said of the order, or all that
/// is left where that is nothing or more, from the level that the order was added to. The
/// level goes once cancels took as much as adds brought, of as many orders; it is flagged
/// exactly where that was at least the minimum and its life fits a window that is on.
pub proof fn phantom_cancels_are_counted(m: PhantomModel, l: PhantomLimits, e: SequencedEvent, taken: int)
    requires
        e.event.order_id != 0,
        m.orders.contains_key(e.event.order_id),
        m.levels.contains_key(m.orders[e.event.order_id].key),
        e.event.qty == 0 || e.event.qty >= m.orders[e.event.order_id].left ==> taken
            == m.orders[e.event.order_id].left,
        0 < e.event.qty < m.orders[e.event.order_id].left ==> taken == e.event.qty,
        m.levels[m.orders[e.event.order_id].key].cancelled_qty + taken <= u64::MAX,
        m.levels[m.orders[e.event.order_id].key].cancel_count < u32::MAX,
    ensures
        ({
            let o = m.orders[e.event.order_id];
            let t = m.levels[o.key];
            let (n, f) = phantom_cancel(m, l, e);
            let qty = t.cancelled_qty + taken;
            let count = t.cancel_count + if o.touched { 0int } else { 1 };
            let gone = qty >= t.added_qty && count >= t.order_count;
            let soon = (l.max_seq_gap > 0 && e.seq - t.created_seq <= l.max_seq_gap) || (l.max_time_gap_ns > 0
                && e.event.ts - t.created_ts <= l.max_time_gap_ns);
            &&& gone <==> !n.levels.contains_key(o.key)
            &&& !gone ==> n.levels[o.key].cancelled_qty == qty && n.levels[o.key].cancel_count == count
                && n.levels[o.key].added_qty == t.added_qty && n.levels[o.key].order_count == t.order_count
                && n.levels[o.key].created_seq == t.created_seq && n.levels[o.key].created_ts == t.created_ts
            &&& f is Some <==> gone && t.added_qty >= l.min_qty && soon
            &&& f matches Some(x) ==> {
                &&& x.kind == ChaosKind::PhantomLiquidity
                &&& x.start_seq == t.created_seq
                &&& x.end_seq == e.seq
                &&& x.features.depth_removed == qty
                &&& x.features.event_count == t.order_count + count
                &&& x.initiator is None
                &&& e.event.ts >= t.created_ts ==> x.features.duration_ns == e.event.ts - t.created_ts
            }
            &&& taken == o.left || gone ==> !n.orders.contains_key(e.event.order_id)
            &&& taken < o.left && !gone ==> n.orders.contains_key(e.event.order_id) && n.orders[e.event.order_id].left
                == o.left - taken && n.orders[e.event.order_id].touched && n.orders[e.event.order_id].key == o.key
        }),
{
}

/// A trade drops the level at its side and price, and no other level and no order.
pub proof fn phantom_trades_drop_their_level(m: PhantomModel, l: PhantomLimits, e: SequencedEvent, k: u128)
    requires
        e.event.event_type == event::event_code(EventType::Trade),
    ensures
        ({
            let key = level_key(e.event.side, e.event.price);
            let (n, f) = phantom_step(m, l, e);
            &&& f is None
            &&& !n.levels.contains_key(key)
            &&& k != key ==> n.levels.contains_key(k) == m.levels.contains_key(k) && n.levels[k] == m.levels[k]
            &&& n.orders == m.orders
        }),
{
}

/// An event is of another level and another order: it neither names the order nor the
/// level.
pub open spec fn elsewhere(e: SequencedEvent, id: u64, side: u8, price: u64) -> bool {
    e.event.order_id != id && (e.event.side != side || e.event.price != price)
}

/// No order but this one is at this level.
spec fn alone_at(m: PhantomModel, id: u64, key: u128) -> bool {
    forall|k: u64| #[trigger] m.orders.contains_key(k) && k != id ==> m.orders[k].key != key
}

proof fn lemma_levels_few(l: PhantomLimits, es: Seq<SequencedEvent>)
    ensures
        phantom_run(l, es).levels.dom().finite(),
        phantom_run(l, es).levels.len() <= es.len(),
    decreases es.len(),
{
    if es.len() > 0 {
        let d = es.drop_last();
        lemma_levels_few(l, d);
        let m = phantom_run(l, d);
        let e = es.last();
        let n = phantom_step(m, l, e).0;
        let c = phantom_cancel(m, l, e).0;
        assert(c.levels.dom().finite() && c.levels.len() <= m.levels.len()) by {
            if cancel_target(m, e) is Some {
                let key = cancel_target(m, e)->0;
                if m.levels.contains_key(key) {
                    assert(m.levels.dom().insert(key) =~= m.levels.dom());
                    assert(c.levels.dom() =~= m.levels.dom() || c.levels.dom() =~= m.levels.dom().remove(key));
                }
            }
        }
        lemma_add_one_level(m, l.max_tracked as nat, e);
        lemma_add_one_level(c, l.max_tracked as nat, e);
        let key = level_key(e.event.side, e.event.price);
        assert(m.levels.remove(key).dom() =~= m.levels.dom().remove(key));
    } else {
        assert(phantom_run(l, es).levels.dom() =~= Set::<u128>::empty());
    }
}

proof fn lemma_add_one_level(m: PhantomModel, max: nat, e: SequencedEvent)
    requires
        m.levels.dom().finite(),
    ensures
        phantom_add(m, max, e).levels.dom().finite(),
        phantom_add(m, max, e).levels.len() <= m.levels.len() + 1,
{
    let key = level_key(e.event.side, e.event.price);
    let r = roomy_levels(m.levels, max);
    let o = choose|k: u128| is_oldest_level(m.levels, k);
    assert(r.dom() =~= m.levels.dom() || r.dom() =~= m.levels.dom().remove(o));
    assert(phantom_add(m, max, e).levels.dom() =~= r.dom().insert(key));
}

/// What other levels do leaves a level and its order alone.
proof fn lemma_elsewhere(m: PhantomModel, l: PhantomLimits, e: SequencedEvent, id: u64, side: u8, price: u64)
    requires
        id != 0,
        elsewhere(e, id, side, price),
        alone_at(m, id, level_key(side, price)),
        m.levels.len() < l.max_tracked,
        m.levels.dom().finite(),
    ensures
        ({
            let n = phantom_step(m, l, e).0;
            let key = level_key(side, price);
            &&& n.levels.contains_key(key) == m.levels.contains_key(key)
            &&& n.levels[key] == m.levels[key]
            &&& n.orders.contains_key(id) == m.orders.contains_key(id)
            &&& n.orders[id] == m.orders[id]
            &&& alone_at(n, id, key)
        }),
{
    let key = level_key(side, price);
    level_keys_are_distinct(side, price, e.event.side, e.event.price);
    let c = phantom_cancel(m, l, e).0;
    let n = phantom_step(m, l, e).0;
    assert(c.levels.len() <= m.levels.len()) by {
        if cancel_target(m, e) is Some {
            let k = cancel_target(m, e)->0;
            if m.levels.contains_key(k) {
                assert(m.levels.dom().insert(k) =~= m.levels.dom());
                assert(c.levels.dom() =~= m.levels.dom() || c.levels.dom() =~= m.levels.dom().remove(k));
            }
        }
    }
    assert forall|k: u64| #[trigger] n.orders.contains_key(k) && k != id implies n.orders[k].key != key by {
        assert(k == e.event.order_id || m.orders.contains_key(k));
    }
}

/// A level that appears and goes again before anything trades there is flagged: an order
/// added to a level of its own, with at least the minimum quantity, that is cancelled in
/// full within a window that is on, whatever happens at other levels in between. The flag
/// starts at the add and tells all of its quantity.
pub proof fn vanishing_levels_are_flagged(l: PhantomLimits, es: Seq<SequencedEvent>, a: int, c: SequencedEvent)
    requires
        0 <= a < es.len(),
        es.len() < l.max_tracked,
        es[a].event.event_type == event::event_code(EventType::OrderAdd),
        es[a].event.order_id != 0,
        es[a].event.qty >= l.min_qty,
        forall|j: int|
            0 <= j < es.len() && j != a ==> elsewhere(
                #[trigger] es[j],
                es[a].event.order_id,
                es[a].event.side,
                es[a].event.price,
            ),
        c.event.event_type == event::event_code(EventType::OrderCancel),
        c.event.order_id == es[a].event.order_id,
        c.event.qty == 0 || c.event.qty >= es[a].event.qty,
        (l.max_seq_gap > 0 && c.seq - es[a].seq <= l.max_seq_gap) || (l.max_time_gap_ns > 0 && c.event.ts
            - es[a].event.ts <= l.max_time_gap_ns),
    ensures
        phantom_step(phantom_run(l, es), l, c).1 matches Some(f) && f.start_seq == es[a].seq && f.end_seq == c.seq
            && f.features.depth_removed == es[a].event.qty && f.features.event_count == 2,
{
    lemma_untouched(l, es, a);
    phantom_cancels_are_counted(phantom_run(l, es), l, c, es[a].event.qty as int);
}

proof fn lemma_untouched(l: PhantomLimits, es: Seq<SequencedEvent>, a: int)
    requires
        0 <= a < es.len(),
        es.len() < l.max_tracked,
        es[a].event.event_type == event::event_code(EventType::OrderAdd),
        es[a].event.order_id != 0,
        forall|j: int|
            0 <= j < es.len() && j != a ==> elsewhere(
                #[trigger] es[j],
                es[a].event.order_id,
                es[a].event.side,
                es[a].event.price,
            ),
    ensures
        ({
            let m = phantom_run(l, es);
            let e = es[a];
            let key = level_key(e.event.side, e.event.price);
            &&& m.levels.contains_key(key)
            &&& m.levels[key] == new_tracker(e)
            &&& m.orders.contains_key(e.event.order_id)
            &&& m.orders[e.event.order_id] == (Placed { key, left: e.event.qty, touched: false })
            &&& alone_at(m, e.event.order_id, key)
        }),
    decreases es.len(),
{
    let d = es.drop_last();
    let e = es[a];
    let m = phantom_run(l, d);
    lemma_levels_few(l, d);
    if a < es.len() - 1 {
        assert(d[a] == es[a]);
        assert forall|j: int| 0 <= j < d.len() && j != a implies elsewhere(
            #[trigger] d[j],
            e.event.order_id,
            e.event.side,
            e.event.price,
        ) by {
            assert(d[j] == es[j]);
        }
        lemma_untouched(l, d, a);
        assert(elsewhere(es[es.len() - 1], e.event.order_id, e.event.side, e.event.price));
        lemma_elsewhere(m, l, es.last(), e.event.order_id, e.event.side, e.event.price);
    } else {
        assert forall|j: int| 0 <= j < d.len() implies elsewhere(
            #[trigger] d[j],
            e.event.order_id,
            e.event.side,
            e.event.price,
        ) by {
            assert(d[j] == es[j]);
        }
        lemma_never_seen(l, d, e.event.order_id, e.event.side, e.event.price);
    }
}

proof fn lemma_never_seen(l: PhantomLimits, es: Seq<SequencedEvent>, id: u64, side: u8, price: u64)
    requires
        es.len() < l.max_tracked,
        id != 0,
        forall|j: int| 0 <= j < es.len() ==> elsewhere(#[trigger] es[j], id, side, price),
    ensures
        !phantom_run(l, es).levels.contains_key(level_key(side, price)),
        alone_at(phantom_run(l, es), id, level_key(side, price)),
    decreases es.len(),
{
    if es.len() > 0 {
        let d = es.drop_last();
        assert forall|j: int| 0 <= j < d.len() implies elsewhere(#[trigger] d[j], id, side, price) by {
            assert(d[j] == es[j]);
        }
        lemma_never_seen(l, d, id, side, price);
        lemma_levels_few(l, d);
        assert(elsewhere(es[es.len() - 1], id, side, price));
        lemma_elsewhere(phantom_run(l, d), l, es.last(), id, side, price);
    }
}

/// What a flag of a level that vanished tells: its life, how many came and went, how much
/// went, and as its severity the larger share that was left of one of the windows.
pub proof fn phantom_flags_tell_their_level(t: LevelTracker, l: PhantomLimits, e: SequencedEvent)
    requires
        t.created_seq <= e.seq,
        t.created_ts <= e.event.ts,
    ensures
        ({
            let f = phantom_flag(t, l, e);
            let x = f.severity.first;
            let (events, time) = (e.seq - t.created_seq, e.event.ts - t.created_ts);
            &&& f.kind == ChaosKind::PhantomLiquidity
            &&& f.start_seq == t.created_seq
            &&& f.end_seq == e.seq
            &&& f.initiator is None
            &&& t.order_count + t.cancel_count <= u64::MAX ==> f.features.event_count == t.order_count
                + t.cancel_count
            &&& t.created_ts + f.features.duration_ns == e.event.ts
            &&& f.features.cancel_trade_ratio.num == t.cancel_count && f.features.cancel_trade_ratio.den == 0
            &&& f.features.price_displacement == 0
            &&& f.features.depth_removed == t.cancelled_qty
            &&& x.tenths == 10 && f.severity.second.num == 0 && f.severity.third.num == 0
            &&& 0 < l.max_seq_gap && events <= l.max_seq_gap ==> x.num * l.max_seq_gap >= (l.max_seq_gap - events)
                * x.den
            &&& 0 < l.max_time_gap_ns && time <= l.max_time_gap_ns ==> x.num * l.max_time_gap_ns >= (
            l.max_time_gap_ns - time) * x.den
            &&& {
                ||| 0 < l.max_seq_gap && events <= l.max_seq_gap && x.num * l.max_seq_gap == (l.max_seq_gap - events)
                    * x.den
                ||| 0 < l.max_time_gap_ns && time <= l.max_time_gap_ns && x.num * l.max_time_gap_ns == (
                l.max_time_gap_ns - time) * x.den
                ||| x.num == 0
            }
        }),
{
    let a = slack(less_u64(e.seq, t.created_seq), l.max_seq_gap);
    let b = slack(less_u64(e.event.ts, t.created_ts), l.max_time_gap_ns);
    flag::parts_are_capped(10, a.0 as nat, a.1 as nat);
    flag::parts_are_capped(10, b.0 as nat, b.1 as nat);
    let x = phantom_flag(t, l, e).severity.first;
    let (n, d) = (x.num as int, x.den as int);
    let (p, q) = (a.0 as int, a.1 as int);
    let (r, s) = (b.0 as int, b.1 as int);
    if p * s >= r * q {
        assert(n * q == p * d) by {
            if p >= q {
                assert(p == q && n == d);
                assert(n * q == p * d) by (nonlinear_arith)
                    requires
                        p == q,
                        n == d,
                ;
            }
        }
        assert(n * s >= r * d) by (nonlinear_arith)
            requires
                n * q == p * d,
                p * s >= r * q,
                q > 0,
                d > 0,
                s > 0,
        ;
    } else {
        assert(n * s == r * d) by {
            if r >= s {
                assert(r == s && n == d);
                assert(n * s == r * d) by (nonlinear_arith)
                    requires
                        r == s,
                        n == d,
                ;
            }
        }
        assert(n * q >= p * d) by (nonlinear_arith)
            requires
                n * s == r * d,
                p * s < r * q,
                q > 0,
                d > 0,
                s > 0,
        ;
    }
    if n != 0 {
        assert(p != 0 || r != 0) by {
            if p == 0 && r == 0 {
                assert(n * q == 0 ==> n == 0) by (nonlinear_arith)
                    requires
                        q > 0,
                ;
                assert(n * s == 0 ==> n == 0) by (nonlinear_arith)
                    requires
                        s > 0,
                ;
                assert(p * d == 0 && r * d == 0) by (nonlinear_arith)
                    requires
                        p == 0,
                        r == 0,
                ;
            }
        }
    }
}

} // verus!
