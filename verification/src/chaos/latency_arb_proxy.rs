//! Reaction proxy for latency arbitrage: a burst of quotes on the opposite side
//! right after a large print, in the same narrow band of prices.

use crate::book::event::{EventType, SequencedEvent};
#[allow(unused_imports)]
use crate::book::event;
use crate::book::model::OrderMeta;
use crate::chaos::flag::{ChaosEvent, ChaosFeatures, ChaosKind, Severity, Term};
#[allow(unused_imports)]
use crate::chaos::flag;
use crate::chaos::mini_book::{MiniBook, MiniModel};
use crate::chaos::momentum_ignition::{book_has_room, BookChange};
#[allow(unused_imports)]
use crate::chaos::momentum_ignition;
use crate::chaos::order_tracker::{AggressorSide, OrderTracker, ResolvedTrade};
#[allow(unused_imports)]
use crate::chaos::order_tracker;
use crate::ratio::Fraction;
use std::collections::VecDeque;
use vstd::prelude::*;

verus! {

/// A large print that waits for its reaction.
#[derive(Debug, Clone, Copy, PartialEq, Eq, Structural)]
pub struct PendingTrigger {
    pub seq: u64,
    pub ts: u64,
    pub price: u64,
    pub qty: u64,
    pub dir: AggressorSide,
    pub mid_at_trade: u64,
    /// Quotes of the reaction so far, and when the last of them came.
    pub burst_count: u32,
    pub last_burst_seq: u64,
    pub last_burst_ts: u64,
    /// The burst is large enough.
    pub burst_qualified: bool,
}

/// The limits of a detector. A window of zero is off.
#[derive(Debug, Clone, Copy, PartialEq, Eq, Structural)]
pub struct ReactionLimits {
    pub reaction_seq: u64,
    pub reaction_time_ns: u64,
    pub max_book_levels: usize,
    pub band_ticks: u64,
    pub min_trade_qty: u64,
    pub min_burst: u32,
    pub require_reversion: bool,
    pub reversion_bps: u32,
    pub cooldown_seq: u64,
}

/// Everything the detector remembers.
#[verifier::ext_equal]
pub struct ReactionModel {
    pub book: MiniModel,
    pub orders: Map<u64, OrderMeta>,
    pub pending: Seq<PendingTrigger>,
    /// No flag and no new trigger before this sequence number.
    pub quiet_until: u64,
}

/// How many triggers wait at most.
pub const MAX_PENDING: usize = 64;

/// The event is still within a window of the trigger.
pub open spec fn in_window(l: ReactionLimits, t: PendingTrigger, e: SequencedEvent) -> bool {
    ||| l.reaction_seq > 0 && momentum_ignition::since(e.seq, t.seq) <= l.reaction_seq
    ||| l.reaction_time_ns > 0 && momentum_ignition::since(e.event.ts, t.ts) <= l.reaction_time_ns
}

/// The side whose quotes react: bids to a bought print, asks to a sold one.
pub open spec fn reacting_side(dir: AggressorSide) -> u8 {
    match dir {
        AggressorSide::Buy => 0,
        AggressorSide::Sell => 1,
    }
}

/// The distance of two prices.
pub open spec fn apart(a: u64, b: u64) -> nat {
    if a >= b {
        (a - b) as nat
    } else {
        (b - a) as nat
    }
}

/// The event is a quote on the reacting side within the band of the print.
pub open spec fn reacts(l: ReactionLimits, t: PendingTrigger, e: SequencedEvent) -> bool {
    &&& e.event.event_type == event::event_code(EventType::OrderAdd) || e.event.event_type
        == event::event_code(EventType::OrderCancel)
    &&& e.event.side == reacting_side(t.dir)
    &&& apart(e.event.price, t.price) <= l.band_ticks
}

/// The trigger with the event counted towards its burst.
pub open spec fn bursting(l: ReactionLimits, t: PendingTrigger, e: SequencedEvent) -> PendingTrigger {
    if in_window(l, t, e) && !t.burst_qualified && reacts(l, t, e) {
        let n = if t.burst_count == u32::MAX {
            u32::MAX
        } else {
            (t.burst_count + 1) as u32
        };
        PendingTrigger {
            burst_count: n,
            last_burst_seq: e.seq,
            last_burst_ts: e.event.ts,
            burst_qualified: n >= l.min_burst,
            ..t
        }
    } else {
        t
    }
}

/// How far the midprice came back from where it was at the print.
pub open spec fn come_back(t: PendingTrigger, mid: u64) -> int {
    match t.dir {
        AggressorSide::Buy => t.mid_at_trade - mid,
        AggressorSide::Sell => mid - t.mid_at_trade,
    }
}

/// That distance in basis points of the midprice at the print.
pub open spec fn back_bps(t: PendingTrigger, mid: u64) -> u32 {
    let base = if t.mid_at_trade == 0 {
        1int
    } else {
        t.mid_at_trade as int
    };
    ((come_back(t, mid) * 10_000 / base) as u128) as u32
}

/// The midprice came back far enough.
pub open spec fn reverted(l: ReactionLimits, t: PendingTrigger, mid: Option<u64>) -> bool {
    mid matches Some(m) && come_back(t, m) > 0 && back_bps(t, m) >= l.reversion_bps
}

/// What becomes of a trigger.
#[derive(Debug, Clone, Copy, PartialEq, Eq, Structural)]
pub enum Fate {
    Keep,
    Drop,
    Flag,
}

/// A trigger out of its window goes. One whose burst is large enough flags at
/// once or, where a reversion is asked for, when the midprice comes back; until
/// then it waits as long as the sequence window after its burst lasts. At most
/// one trigger flags, and none while flags are suppressed; another that could flag
/// at once goes without.
pub open spec fn fate(
    l: ReactionLimits,
    t: PendingTrigger,
    e: SequencedEvent,
    mid: Option<u64>,
    flagged: bool,
) -> Fate {
    if !in_window(l, t, e) {
        Fate::Drop
    } else if !t.burst_qualified {
        Fate::Keep
    } else if l.require_reversion {
        if momentum_ignition::since(e.seq, t.last_burst_seq) > l.reaction_seq {
            Fate::Drop
        } else if reverted(l, t, mid) && !flagged {
            Fate::Flag
        } else {
            Fate::Keep
        }
    } else if !flagged {
        Fate::Flag
    } else {
        Fate::Drop
    }
}

/// Six tenths how early the reaction came, four tenths the burst against four
/// times the minimum.
pub open spec fn reaction_severity(l: ReactionLimits, t: PendingTrigger, end_seq: u64) -> Severity {
    let gap = momentum_ignition::since(end_seq, t.seq);
    Severity {
        first: if l.reaction_seq > 0 && gap < l.reaction_seq {
            flag::capped(6, (l.reaction_seq - gap) as nat, l.reaction_seq as nat)
        } else {
            flag::capped(6, 0, 1)
        },
        second: flag::capped(4, t.burst_count as nat, (l.min_burst * 4) as nat),
        third: flag::no_term(),
    }
}

/// The flag of a trigger.
pub open spec fn reaction_flag(l: ReactionLimits, t: PendingTrigger, e: SequencedEvent) -> ChaosEvent {
    ChaosEvent {
        kind: ChaosKind::LatencyArbitrage,
        start_seq: t.seq,
        end_seq: e.seq,
        severity: reaction_severity(l, t, e.seq),
        initiator: None,
        features: ChaosFeatures {
            event_count: t.burst_count as u64,
            duration_ns: momentum_ignition::since(e.event.ts, t.ts),
            cancel_trade_ratio: Fraction { num: 0, den: 1 },
            price_displacement: 0,
            depth_removed: t.qty,
        },
    }
}

/// All triggers in turn: those that stay, and the flag of the first that flags,
/// unless flags are suppressed.
pub open spec fn settle_all(
    l: ReactionLimits,
    pending: Seq<PendingTrigger>,
    e: SequencedEvent,
    mid: Option<u64>,
    quiet: bool,
) -> (Seq<PendingTrigger>, Option<ChaosEvent>)
    decreases pending.len(),
{
    if pending.len() == 0 {
        (Seq::empty(), None)
    } else {
        let (kept, flagged) = settle_all(l, pending.drop_last(), e, mid, quiet);
        let t = bursting(l, pending.last(), e);
        match fate(l, t, e, mid, quiet || flagged is Some) {
            Fate::Keep => (kept.push(t), flagged),
            Fate::Drop => (kept, flagged),
            Fate::Flag => (kept, Some(reaction_flag(l, t, e))),
        }
    }
}

/// The triggers with a new one, the oldest gone if there are too many.
pub open spec fn armed(pending: Seq<PendingTrigger>, t: PendingTrigger) -> Seq<PendingTrigger> {
    if pending.len() + 1 > MAX_PENDING {
        pending.push(t).drop_first()
    } else {
        pending.push(t)
    }
}

/// The trigger a print sets.
pub open spec fn trigger_of(e: SequencedEvent, price: u64, qty: u64, dir: AggressorSide, mid: u64) -> PendingTrigger {
    PendingTrigger {
        seq: e.seq,
        ts: e.event.ts,
        price,
        qty,
        dir,
        mid_at_trade: mid,
        burst_count: 0,
        last_burst_seq: e.seq,
        last_burst_ts: e.event.ts,
        burst_qualified: false,
    }
}

/// Who took a print: below the midprice before it somebody sold, above it somebody
/// bought. At the midprice the side that rested decides.
pub open spec fn taker_of(price: u64, mid: u64, resting: AggressorSide) -> AggressorSide {
    if price < mid {
        AggressorSide::Sell
    } else if price > mid {
        AggressorSide::Buy
    } else {
        resting
    }
}

/// The book after a change. Here also an add of nothing makes a level.
pub open spec fn reaction_book(b: MiniModel, c: BookChange, cap: nat) -> MiniModel {
    match c {
        BookChange::Added { is_bid, price, qty } => b.laid_on(is_bid, price, qty, cap),
        _ => momentum_ignition::changed(b, c, cap),
    }
}

/// One event: the book changes; a large print, outside the cooldown and with a
/// midprice before it, sets a trigger; then all triggers are settled. During the
/// cooldown none of them flags.
pub open spec fn reaction_step(m: ReactionModel, l: ReactionLimits, e: SequencedEvent) -> (
    ReactionModel,
    Option<ChaosEvent>,
) {
    if e.event.event_type < 1 || e.event.event_type > 4 {
        (m, None)
    } else {
        let (orders, c) = momentum_ignition::change_of(m.orders, e.event);
        let book = reaction_book(m.book, c, l.max_book_levels as nat);
        let pending = match c {
            BookChange::Traded { is_bid: _, price, qty, aggressor } => if e.seq >= m.quiet_until
                && m.book.mid() is Some && qty >= l.min_trade_qty {
                armed(
                    m.pending,
                    trigger_of(
                        e,
                        price,
                        qty,
                        taker_of(price, m.book.mid()->0, aggressor),
                        m.book.mid()->0,
                    ),
                )
            } else {
                m.pending
            },
            _ => m.pending,
        };
        let (kept, flagged) = settle_all(l, pending, e, book.mid(), e.seq < m.quiet_until);
        (
            ReactionModel {
                book,
                orders,
                pending: kept,
                quiet_until: if flagged is Some {
                    momentum_ignition::later(e.seq, l.cooldown_seq)
                } else {
                    m.quiet_until
                },
            },
            flagged,
        )
    }
}

fn taker(price: u64, mid: u64, resting: AggressorSide) -> (d: AggressorSide)
    ensures
        d == taker_of(price, mid, resting),
{
    if price < mid {
        AggressorSide::Sell
    } else if price > mid {
        AggressorSide::Buy
    } else {
        resting
    }
}

/// Reaction-proxy detector.
#[derive(Debug)]
pub struct LatencyArbProxyDetector {
    book: MiniBook,
    order_tracker: OrderTracker,
    pending: VecDeque<PendingTrigger>,
    limits: ReactionLimits,
    refractory_until: u64,
}

impl View for LatencyArbProxyDetector {
    type V = ReactionModel;

    closed spec fn view(&self) -> ReactionModel {
        ReactionModel {
            book: self.book@,
            orders: self.order_tracker@,
            pending: self.pending@,
            quiet_until: self.refractory_until,
        }
    }
}

impl LatencyArbProxyDetector {
    /// The limits it was made with.
    pub closed spec fn config(&self) -> ReactionLimits {
        self.limits
    }

    /// The book is within its depth and the tracker knows sides only.
    pub closed spec fn wf(&self) -> bool {
        &&& self.book.wf()
        &&& self.book.depth() == self.limits.max_book_levels
        &&& self.order_tracker.wf()
    }

    /// A detector. At least one window has to be on.
    pub fn new(
        reaction_seq: u64,
        reaction_time_ns: u64,
        max_book_levels: usize,
        band_ticks: u64,
        min_trade_qty: u64,
        min_burst: u32,
        require_reversion: bool,
        reversion_bps: u32,
        cooldown_seq: u64,
    ) -> (d: Self)
        requires
            reaction_seq != 0 || reaction_time_ns != 0,
            min_burst >= 1,
            max_book_levels >= 1,
        ensures
            d.wf(),
            d.config() == (ReactionLimits {
                reaction_seq,
                reaction_time_ns,
                max_book_levels,
                band_ticks,
                min_trade_qty,
                min_burst,
                require_reversion,
                reversion_bps,
                cooldown_seq,
            }),
            d@ == (ReactionModel {
                book: MiniModel::empty(),
                orders: Map::empty(),
                pending: Seq::empty(),
                quiet_until: 0,
            }),
    {
        LatencyArbProxyDetector {
            book: MiniBook::new(max_book_levels),
            order_tracker: OrderTracker::new(),
            pending: VecDeque::with_capacity(16),
            limits: ReactionLimits {
                reaction_seq,
                reaction_time_ns,
                max_book_levels,
                band_ticks,
                min_trade_qty,
                min_burst,
                require_reversion,
                reversion_bps,
                cooldown_seq,
            },
            refractory_until: 0,
        }
    }

    /// Highest bid.
    pub fn best_bid(&self) -> (r: Option<u64>)
        ensures
            r == self@.book.best_bid(),
    {
        self.book.best_bid()
    }

    /// Lowest ask.
    pub fn best_ask(&self) -> (r: Option<u64>)
        ensures
            r == self@.book.best_ask(),
    {
        self.book.best_ask()
    }

    /// Midprice.
    pub fn midprice(&self) -> (r: Option<u64>)
        ensures
            r == self@.book.mid(),
    {
        self.book.midprice()
    }

    /// Number of triggers that wait.
    pub fn pending_triggers(&self) -> (n: usize)
        ensures
            n == self@.pending.len(),
    {
        self.pending.len()
    }

    /// Whether the book leaves room for an event.
    pub fn is_ready(&self, seq_event: &SequencedEvent) -> (b: bool)
        ensures
            b == momentum_ignition::change_fits(self@.book, seq_event.event),
    {
        book_has_room(&self.book, &seq_event.event)
    }

    /// Feeds one event; hands out the flag it completes.
    pub fn process(&mut self, seq_event: &SequencedEvent) -> (r: Option<ChaosEvent>)
        requires
            old(self).wf(),
            momentum_ignition::change_fits(old(self)@.book, seq_event.event),
        ensures
            final(self).wf(),
            final(self).config() == old(self).config(),
            (final(self)@, r) == reaction_step(old(self)@, old(self).config(), *seq_event),
    {
        let event = &seq_event.event;
        let mid_before: Option<u64> = self.midprice();
        let mut print: Option<ResolvedTrade> = None;
        match EventType::from_u8(event.event_type) {
            None => {
                return None;
            },
            Some(EventType::BookSnapshot) => {
                return None;
            },
            Some(EventType::OrderAdd) => {
                if let Some(u) = self.order_tracker.on_add(event) {
                    self.book.lay_qty(u.side == 0, u.price, u.qty);
                }
            },
            Some(EventType::OrderCancel) => {
                if let Some(u) = self.order_tracker.on_cancel(event) {
                    self.book.sub_qty(u.side == 0, u.price, u.qty);
                }
            },
            Some(EventType::OrderModify) => {},
            Some(EventType::Trade) => {
                if let Some(t) = self.order_tracker.on_trade(event) {
                    self.book.sub_qty(t.update.side == 0, t.update.price, t.update.qty);
                    print = Some(t);
                }
            },
        }
        if seq_event.seq >= self.refractory_until {
            if let (Some(t), Some(m)) = (print, mid_before) {
                if t.update.qty >= self.limits.min_trade_qty {
                    self.pending.push_back(
                        PendingTrigger {
                            seq: seq_event.seq,
                            ts: event.ts,
                            price: t.update.price,
                            qty: t.update.qty,
                            dir: taker(t.update.price, m, t.aggressor),
                            mid_at_trade: m,
                            burst_count: 0,
                            last_burst_seq: seq_event.seq,
                            last_burst_ts: event.ts,
                            burst_qualified: false,
                        },
                    );
                    if self.pending.len() > MAX_PENDING {
                        self.pending.pop_front();
                    }
                }
            }
        }
        let ghost pending = self.pending@;
        proof {
            let (orders, c) = momentum_ignition::change_of(old(self)@.orders, *event);
            if let BookChange::Traded { is_bid, price, qty, aggressor } = c {
                let mid = old(self)@.book.mid()->0;
                let t = trigger_of(*seq_event, price, qty, taker_of(price, mid, aggressor), mid);
                let full = old(self)@.pending.push(t);
                assert(full.drop_first() =~= full.subrange(1, full.len() as int));
            }
        }
        let mid_now: Option<u64> = self.midprice();
        let quiet: bool = seq_event.seq < self.refractory_until;
        let mut flagged: Option<ChaosEvent> = None;
        let mut keep: VecDeque<PendingTrigger> = VecDeque::new();
        let mut i: usize = 0;
        assert(pending.take(0) =~= Seq::<PendingTrigger>::empty());
        while i < self.pending.len()
            invariant
                i <= pending.len(),
                pending == self.pending@,
                (keep@, flagged) == settle_all(
                    self.limits,
                    pending.take(i as int),
                    *seq_event,
                    mid_now,
                    quiet,
                ),
            decreases pending.len() - i,
        {
            assert(pending.take(i + 1).drop_last() =~= pending.take(i as int));
            let t: PendingTrigger = self.count_towards(self.pending[i], seq_event);
            match self.decide(&t, seq_event, mid_now, quiet || flagged.is_some()) {
                Fate::Keep => {
                    keep.push_back(t);
                },
                Fate::Drop => {},
                Fate::Flag => {
                    flagged = Some(self.build_flag(&t, seq_event));
                },
            }
            i += 1;
        }
        assert(pending.take(i as int) =~= pending);
        self.pending = keep;
        if flagged.is_some() {
            self.refractory_until = seq_event.seq.saturating_add(self.limits.cooldown_seq);
        }
        flagged
    }

    fn inside(&self, t: &PendingTrigger, e: &SequencedEvent) -> (r: bool)
        ensures
            r == in_window(self.limits, *t, *e),
    {
        let in_seq: bool = self.limits.reaction_seq > 0 && e.seq.saturating_sub(t.seq)
            <= self.limits.reaction_seq;
        let in_time: bool = self.limits.reaction_time_ns > 0 && e.event.ts.saturating_sub(t.ts)
            <= self.limits.reaction_time_ns;
        in_seq || in_time
    }

    /// The trigger with the event counted towards its burst.
    fn count_towards(&self, t: PendingTrigger, e: &SequencedEvent) -> (r: PendingTrigger)
        ensures
            r == bursting(self.limits, t, *e),
    {
        if !self.inside(&t, e) || t.burst_qualified {
            return t;
        }
        let quote: bool = e.event.event_type == EventType::OrderAdd.code() || e.event.event_type
            == EventType::OrderCancel.code();
        let side: u8 = match t.dir {
            AggressorSide::Buy => 0,
            AggressorSide::Sell => 1,
        };
        let off: u64 = if e.event.price >= t.price {
            e.event.price - t.price
        } else {
            t.price - e.event.price
        };
        if !quote || e.event.side != side || off > self.limits.band_ticks {
            return t;
        }
        let n: u32 = t.burst_count.saturating_add(1);
        PendingTrigger {
            seq: t.seq,
            ts: t.ts,
            price: t.price,
            qty: t.qty,
            dir: t.dir,
            mid_at_trade: t.mid_at_trade,
            burst_count: n,
            last_burst_seq: e.seq,
            last_burst_ts: e.event.ts,
            burst_qualified: n >= self.limits.min_burst,
        }
    }

    /// What becomes of a trigger.
    fn decide(&self, t: &PendingTrigger, e: &SequencedEvent, mid: Option<u64>, flagged: bool) -> (f: Fate)
        ensures
            f == fate(self.limits, *t, *e, mid, flagged),
    {
        if !self.inside(t, e) {
            return Fate::Drop;
        }
        if !t.burst_qualified {
            return Fate::Keep;
        }
        if self.limits.require_reversion {
            if e.seq.saturating_sub(t.last_burst_seq) > self.limits.reaction_seq {
                return Fate::Drop;
            }
            if !flagged && self.has_reverted(t, mid) {
                return Fate::Flag;
            }
            return Fate::Keep;
        }
        if flagged {
            Fate::Drop
        } else {
            Fate::Flag
        }
    }

    fn has_reverted(&self, t: &PendingTrigger, mid: Option<u64>) -> (r: bool)
        ensures
            r == reverted(self.limits, *t, mid),
    {
        let m: u64 = match mid {
            Some(m) => m,
            None => {
                return false;
            },
        };
        let (from, to): (u64, u64) = match t.dir {
            AggressorSide::Buy => (m, t.mid_at_trade),
            AggressorSide::Sell => (t.mid_at_trade, m),
        };
        if to <= from {
            return false;
        }
        let base: u64 = if t.mid_at_trade == 0 { 1 } else { t.mid_at_trade };
        let wide: u128 = (to - from) as u128 * 10_000 / base as u128;
        let bps: u32 = #[verifier::truncate] (wide as u32);
        bps >= self.limits.reversion_bps
    }

    fn build_flag(&self, t: &PendingTrigger, e: &SequencedEvent) -> (f: ChaosEvent)
        ensures
            f == reaction_flag(self.limits, *t, *e),
    {
        let gap: u64 = e.seq.saturating_sub(t.seq);
        let speed: Term = if self.limits.reaction_seq > 0 && gap < self.limits.reaction_seq {
            Term::capped(
                6,
                (self.limits.reaction_seq - gap) as u128,
                self.limits.reaction_seq as u128,
            )
        } else {
            Term::capped(6, 0, 1)
        };
        let severity: Severity = Severity::double(
            speed,
            Term::capped(4, t.burst_count as u128, self.limits.min_burst as u128 * 4),
        );
        ChaosEvent {
            kind: ChaosKind::LatencyArbitrage,
            start_seq: t.seq,
            end_seq: e.seq,
            severity,
            initiator: None,
            features: ChaosFeatures {
                event_count: t.burst_count as u64,
                duration_ns: e.event.ts.saturating_sub(t.ts),
                cancel_trade_ratio: Fraction { num: 0, den: 1 },
                price_displacement: 0,
                depth_removed: t.qty,
            },
        }
    }
}

// ─── Laws ───────────────────────────────────────────────────────────

proof fn lemma_settle_bounded(l: ReactionLimits, pending: Seq<PendingTrigger>, e: SequencedEvent, mid: Option<u64>, quiet: bool)
    ensures
        settle_all(l, pending, e, mid, quiet).0.len() <= pending.len(),
    decreases pending.len(),
{
    if pending.len() > 0 {
        lemma_settle_bounded(l, pending.drop_last(), e, mid, quiet);
    }
}

/// No more triggers ever wait than are allowed to.
pub proof fn triggers_stay_bounded(m: ReactionModel, l: ReactionLimits, e: SequencedEvent)
    requires
        m.pending.len() <= MAX_PENDING,
    ensures
        reaction_step(m, l, e).0.pending.len() <= MAX_PENDING,
{
    let (orders, c) = momentum_ignition::change_of(m.orders, e.event);
    let book = reaction_book(m.book, c, l.max_book_levels as nat);
    lemma_settle_bounded(l, m.pending, e, book.mid(), e.seq < m.quiet_until);
    if let BookChange::Traded { is_bid, price, qty, aggressor } = c {
        lemma_settle_bounded(
            l,
            armed(
                m.pending,
                trigger_of(e, price, qty, taker_of(price, m.book.mid()->0, aggressor), m.book.mid()->0),
            ),
            e,
            book.mid(),
            e.seq < m.quiet_until,
        );
    }
}

proof fn lemma_flag_from_trigger(l: ReactionLimits, pending: Seq<PendingTrigger>, e: SequencedEvent, mid: Option<u64>, quiet: bool)
    requires
        settle_all(l, pending, e, mid, quiet).1 is Some,
    ensures
        exists|i: int|
            0 <= i < pending.len() && in_window(l, #[trigger] pending[i], e) && settle_all(l, pending, e, mid, quiet).1
                == Some(reaction_flag(l, bursting(l, pending[i], e), e)) && bursting(
                l,
                pending[i],
                e,
            ).burst_qualified,
    decreases pending.len(),
{
    let d = pending.drop_last();
    let (kept, flagged) = settle_all(l, d, e, mid, quiet);
    if flagged is Some {
        lemma_flag_from_trigger(l, d, e, mid, quiet);
        let i = choose|i: int|
            0 <= i < d.len() && in_window(l, #[trigger] d[i], e) && settle_all(l, d, e, mid, quiet).1 == Some(
                reaction_flag(l, bursting(l, d[i], e), e),
            ) && bursting(l, d[i], e).burst_qualified;
        assert(pending[i] == d[i]);
    } else {
        let i = pending.len() - 1;
        assert(in_window(l, pending[i], e));
    }
}

/// A flag always comes from one print that waited, within its window, with a
/// burst that is large enough.
pub proof fn reaction_flags_a_pending_print(
    l: ReactionLimits,
    pending: Seq<PendingTrigger>,
    e: SequencedEvent,
    mid: Option<u64>,
    quiet: bool,
)
    requires
        settle_all(l, pending, e, mid, quiet).1 is Some,
    ensures
        exists|i: int|
            0 <= i < pending.len() && in_window(l, #[trigger] pending[i], e) && settle_all(
                l,
                pending,
                e,
                mid,
                quiet,
            ).1->0.start_seq == pending[i].seq && bursting(l, pending[i], e).burst_qualified,
{
    lemma_flag_from_trigger(l, pending, e, mid, quiet);
    let i = choose|i: int|
        0 <= i < pending.len() && in_window(l, #[trigger] pending[i], e) && settle_all(l, pending, e, mid, quiet).1 == Some(
            reaction_flag(l, bursting(l, pending[i], e), e),
        ) && bursting(l, pending[i], e).burst_qualified;
    assert(in_window(l, pending[i], e));
}

/// Without a trade no trigger is set, so a detector that starts without one
/// never flags.
pub proof fn no_reaction_without_trades(m: ReactionModel, l: ReactionLimits, e: SequencedEvent)
    requires
        m.pending.len() == 0,
        e.event.event_type != event::event_code(EventType::Trade),
    ensures
        reaction_step(m, l, e).1 is None,
        reaction_step(m, l, e).0.pending.len() == 0,
{
}

proof fn lemma_quiet(l: ReactionLimits, pending: Seq<PendingTrigger>, e: SequencedEvent, mid: Option<u64>)
    ensures
        settle_all(l, pending, e, mid, true).1 is None,
        settle_all(l, pending, e, mid, true).0.len() <= pending.len(),
    decreases pending.len(),
{
    if pending.len() > 0 {
        lemma_quiet(l, pending.drop_last(), e, mid);
    }
}

/// While flags are suppressed an event neither flags, nor sets a trigger, nor ends
/// the suppression.
proof fn lemma_suppressed(m: ReactionModel, l: ReactionLimits, f: SequencedEvent)
    requires
        f.seq < m.quiet_until,
    ensures
        reaction_step(m, l, f).1 is None,
        reaction_step(m, l, f).0.quiet_until == m.quiet_until,
        reaction_step(m, l, f).0.pending.len() <= m.pending.len(),
{
    let (orders, c) = momentum_ignition::change_of(m.orders, f.event);
    let book = reaction_book(m.book, c, l.max_book_levels as nat);
    lemma_quiet(l, m.pending, f, book.mid());
}

/// Where the detector is after a series of events.
pub open spec fn reaction_run(m: ReactionModel, l: ReactionLimits, s: Seq<SequencedEvent>) -> ReactionModel
    decreases s.len(),
{
    if s.len() == 0 {
        m
    } else {
        reaction_step(reaction_run(m, l, s.drop_last()), l, s.last()).0
    }
}

/// After a flag nothing is flagged, however many events come, until the cooldown
/// is over, and no print sets a trigger.
pub proof fn reaction_cools_down(
    m: ReactionModel,
    l: ReactionLimits,
    e: SequencedEvent,
    s: Seq<SequencedEvent>,
    f: SequencedEvent,
)
    requires
        reaction_step(m, l, e).1 is Some,
        forall|i: int|
            0 <= i < s.len() ==> (#[trigger] s[i]).seq < momentum_ignition::later(e.seq, l.cooldown_seq),
        f.seq < momentum_ignition::later(e.seq, l.cooldown_seq),
    ensures
        reaction_step(reaction_run(reaction_step(m, l, e).0, l, s), l, f).1 is None,
        reaction_step(reaction_run(reaction_step(m, l, e).0, l, s), l, f).0.pending.len() <= reaction_run(
            reaction_step(m, l, e).0,
            l,
            s,
        ).pending.len(),
        reaction_run(reaction_step(m, l, e).0, l, s).quiet_until == momentum_ignition::later(
            e.seq,
            l.cooldown_seq,
        ),
    decreases s.len(),
{
    let n = reaction_step(m, l, e).0;
    if s.len() > 0 {
        let last = s[s.len() - 1];
        assert forall|i: int| 0 <= i < s.drop_last().len() implies (#[trigger] s.drop_last()[i]).seq
            < momentum_ignition::later(e.seq, l.cooldown_seq) by {
            assert(s.drop_last()[i] == s[i]);
        }
        reaction_cools_down(m, l, e, s.drop_last(), last);
        lemma_suppressed(reaction_run(n, l, s.drop_last()), l, last);
    }
    lemma_suppressed(reaction_run(n, l, s), l, f);
}

/// The event comes soon enough after a print, by one of the windows that are on.
pub open spec fn soon_after(l: ReactionLimits, t: PendingTrigger, e: SequencedEvent) -> bool {
    ||| l.reaction_seq > 0 && e.seq - t.seq <= l.reaction_seq
    ||| l.reaction_time_ns > 0 && e.event.ts - t.ts <= l.reaction_time_ns
}

/// The event is an add or a cancel on the side that answers a print, bids after a bought
/// one and asks after a sold one, no further from its price than the band.
pub open spec fn answers(l: ReactionLimits, t: PendingTrigger, e: SequencedEvent) -> bool {
    &&& e.event.event_type == event::event_code(EventType::OrderAdd) || e.event.event_type
        == event::event_code(EventType::OrderCancel)
    &&& t.dir == AggressorSide::Buy ==> e.event.side == 0
    &&& t.dir == AggressorSide::Sell ==> e.event.side == 1
    &&& e.event.price - t.price <= l.band_ticks
    &&& t.price - e.event.price <= l.band_ticks
}

/// A print counts its answers one by one until there are enough of them: each that comes
/// soon, on the right side and within the band, and no other event.
pub proof fn answers_are_counted(l: ReactionLimits, t: PendingTrigger, e: SequencedEvent)
    requires
        t.burst_count < u32::MAX,
    ensures
        ({
            let n = bursting(l, t, e);
            let counts = soon_after(l, t, e) && answers(l, t, e) && !t.burst_qualified;
            &&& counts ==> n.burst_count == t.burst_count + 1 && n.last_burst_seq == e.seq && (n.burst_qualified
                <==> t.burst_count + 1 >= l.min_burst)
            &&& !counts ==> n == t
            &&& n.seq == t.seq && n.ts == t.ts && n.price == t.price && n.qty == t.qty && n.dir == t.dir
                && n.mid_at_trade == t.mid_at_trade
        }),
{
}

/// The midprice came back by at least so many basis points of where it was at a print,
/// down after a bought one and up after a sold one.
pub proof fn reversions_go_back(l: ReactionLimits, t: PendingTrigger, mid: u64, back: int)
    requires
        t.mid_at_trade > 0,
        t.dir == AggressorSide::Buy ==> back == t.mid_at_trade - mid,
        t.dir == AggressorSide::Sell ==> back == mid - t.mid_at_trade,
        back * 10_000 < t.mid_at_trade * u32::MAX,
    ensures
        reverted(l, t, Some(mid)) <==> back > 0 && back * 10_000 >= l.reversion_bps * t.mid_at_trade,
        !reverted(l, t, None),
{
    if back > 0 {
        let (x, f) = (back * 10_000, t.mid_at_trade as int);
        let q = x / f;
        vstd::arithmetic::div_mod::lemma_fundamental_div_mod(x, f);
        vstd::arithmetic::div_mod::lemma_mod_bound(x, f);
        assert(0 <= q < u32::MAX) by (nonlinear_arith)
            requires
                0 <= x < f * u32::MAX,
                f * q <= x < f * q + f,
                f > 0,
        ;
        let b = l.reversion_bps as int;
        assert(q >= b <==> x >= b * f) by (nonlinear_arith)
            requires
                f * q <= x < f * q + f,
                f > 0,
        ;
    }
}

/// A print that has enough answers and still is in its window: it flags at once, or with
/// the midprice come back where that is asked for, not too long after its answers.
pub open spec fn is_due(l: ReactionLimits, t: PendingTrigger, e: SequencedEvent, mid: Option<u64>) -> bool {
    let n = bursting(l, t, e);
    &&& soon_after(l, t, e)
    &&& n.burst_qualified
    &&& l.require_reversion ==> e.seq - n.last_burst_seq <= l.reaction_seq && reverted(l, n, mid)
}

/// A reaction is flagged exactly where some waiting print is due and flags are not held
/// back, and the earliest due print is the one.
pub proof fn reactions_flag_the_earliest_due_print(
    l: ReactionLimits,
    pending: Seq<PendingTrigger>,
    e: SequencedEvent,
    mid: Option<u64>,
    quiet: bool,
)
    ensures
        ({
            let f = settle_all(l, pending, e, mid, quiet).1;
            &&& f is Some <==> !quiet && exists|i: int|
                0 <= i < pending.len() && is_due(l, #[trigger] pending[i], e, mid)
            &&& f matches Some(x) ==> exists|i: int|
                0 <= i < pending.len() && is_due(l, #[trigger] pending[i], e, mid) && {
                    &&& x.kind == ChaosKind::LatencyArbitrage
                    &&& x.start_seq == pending[i].seq
                    &&& x.end_seq == e.seq
                    &&& x.features.depth_removed == pending[i].qty
                    &&& x.features.event_count == bursting(l, pending[i], e).burst_count
                    &&& forall|j: int| 0 <= j < i ==> !is_due(l, #[trigger] pending[j], e, mid)
                }
        }),
    decreases pending.len(),
{
    if pending.len() > 0 {
        let d = pending.drop_last();
        reactions_flag_the_earliest_due_print(l, d, e, mid, quiet);
        let before = settle_all(l, d, e, mid, quiet).1;
        let f = settle_all(l, pending, e, mid, quiet).1;
        let k = pending.len() - 1;
        let t = bursting(l, pending[k], e);
        assert(in_window(l, t, e) == soon_after(l, pending[k], e));
        assert(pending.last() == pending[k]);
        if before is Some {
            let i = choose|i: int|
                0 <= i < d.len() && is_due(l, #[trigger] d[i], e, mid) && {
                    &&& before->0.kind == ChaosKind::LatencyArbitrage
                    &&& before->0.start_seq == d[i].seq
                    &&& before->0.end_seq == e.seq
                    &&& before->0.features.depth_removed == d[i].qty
                    &&& before->0.features.event_count == bursting(l, d[i], e).burst_count
                    &&& forall|j: int| 0 <= j < i ==> !is_due(l, #[trigger] d[j], e, mid)
                };
            assert(pending[i] == d[i]);
            assert forall|j: int| 0 <= j < i implies !is_due(l, #[trigger] pending[j], e, mid) by {
                assert(d[j] == pending[j]);
            }
            assert(is_due(l, pending[i], e, mid));
            assert(f == before);
        } else if !quiet {
            assert forall|j: int| 0 <= j < k implies !is_due(l, #[trigger] pending[j], e, mid) by {
                assert(d[j] == pending[j]);
            }
            assert(f is Some <==> is_due(l, pending[k], e, mid));
        }
    }
}

/// A print waits as long as it is in its window and has not flagged: of those that wait
/// on, each is one that waited before, in the same order, with its answers counted.
pub proof fn prints_wait_within_their_window(
    l: ReactionLimits,
    pending: Seq<PendingTrigger>,
    e: SequencedEvent,
    mid: Option<u64>,
    quiet: bool,
    i: int,
)
    requires
        0 <= i < pending.len(),
    ensures
        soon_after(l, pending[i], e) && !bursting(l, pending[i], e).burst_qualified ==> settle_all(
            l,
            pending,
            e,
            mid,
            quiet,
        ).0.contains(bursting(l, pending[i], e)),
        forall|x: PendingTrigger| #[trigger]
            settle_all(l, pending, e, mid, quiet).0.contains(x) ==> soon_after(l, x, e) && exists|k: int|
                0 <= k < pending.len() && x == bursting(l, #[trigger] pending[k], e),
    decreases pending.len(),
{
    let d = pending.drop_last();
    let k = pending.len() - 1;
    let a = settle_all(l, d, e, mid, quiet).0;
    let r = settle_all(l, pending, e, mid, quiet).0;
    assert(pending.last() == pending[k]);
    if i < k {
        assert(d[i] == pending[i]);
        prints_wait_within_their_window(l, d, e, mid, quiet, i);
        if a.contains(bursting(l, d[i], e)) {
            let j = choose|j: int| 0 <= j < a.len() && a[j] == bursting(l, d[i], e);
            assert(r[j] == bursting(l, pending[i], e));
        }
    } else {
        if d.len() > 0 {
            prints_wait_within_their_window(l, d, e, mid, quiet, 0);
        }
        if soon_after(l, pending[k], e) && !bursting(l, pending[k], e).burst_qualified {
            assert(r[r.len() - 1] == bursting(l, pending[k], e));
        }
    }
    assert forall|x: PendingTrigger| #[trigger] r.contains(x) implies soon_after(l, x, e) && exists|k: int|
        0 <= k < pending.len() && x == bursting(l, #[trigger] pending[k], e) by {
        let j = choose|j: int| 0 <= j < r.len() && r[j] == x;
        if j < a.len() {
            assert(a[j] == x);
            assert(a.contains(x));
            let c = choose|c: int| 0 <= c < d.len() && x == bursting(l, #[trigger] d[c], e);
            assert(pending[c] == d[c]);
        } else {
            assert(x == bursting(l, pending[k], e));
        }
    }
}

/// A print waits for answers exactly where it is large enough, a midprice stood before it
/// and no cooldown runs. It waits as the newest with its number, time, price, quantity and
/// that midprice; a print below the midprice was sold, one above it bought.
pub proof fn large_prints_wait(m: ReactionModel, l: ReactionLimits, e: SequencedEvent, price: u64, qty: u64, by: AggressorSide)
    requires
        1 <= e.event.event_type <= 4,
        m.pending.len() == 0,
        l.min_burst >= 1,
        momentum_ignition::change_of(m.orders, e.event).1 matches BookChange::Traded {
            is_bid: _,
            price: p,
            qty: q,
            aggressor: a,
        } && p == price && q == qty && a == by,
        l.reaction_seq > 0,
    ensures
        ({
            let n = reaction_step(m, l, e).0;
            let mid = m.book.mid()->0;
            let waits = e.seq >= m.quiet_until && m.book.mid() is Some && qty >= l.min_trade_qty;
            &&& waits <==> n.pending.len() == 1
            &&& !waits ==> n.pending.len() == 0
            &&& waits ==> {
                let t = n.pending[0];
                &&& t.seq == e.seq && t.ts == e.event.ts && t.price == price && t.qty == qty
                &&& t.mid_at_trade == mid
                &&& t.burst_count == 0 && !t.burst_qualified
                &&& price < mid ==> t.dir == AggressorSide::Sell
                &&& price > mid ==> t.dir == AggressorSide::Buy
                &&& price == mid ==> t.dir == by
            }
        }),
{
    let (orders, c) = momentum_ignition::change_of(m.orders, e.event);
    let book = reaction_book(m.book, c, l.max_book_levels as nat);
    let quiet = e.seq < m.quiet_until;
    let mid = m.book.mid()->0;
    if e.seq >= m.quiet_until && m.book.mid() is Some && qty >= l.min_trade_qty {
        let t = trigger_of(e, price, qty, taker_of(price, mid, by), mid);
        let p = armed(m.pending, t);
        assert(e.event.event_type == event::event_code(EventType::Trade));
        assert(p =~= seq![t]);
        assert(p.drop_last() =~= Seq::<PendingTrigger>::empty());
        assert(bursting(l, t, e) == t);
        assert(settle_all(l, p.drop_last(), e, book.mid(), quiet) == (Seq::<PendingTrigger>::empty(), None::<ChaosEvent>));
        assert(settle_all(l, p, e, book.mid(), quiet).0 =~= seq![t]);
    } else {
        assert(settle_all(l, m.pending, e, book.mid(), quiet).0 =~= Seq::<PendingTrigger>::empty());
    }
}

/// A new print waits behind the others; where too many wait the oldest goes.
pub proof fn new_prints_wait_last(pending: Seq<PendingTrigger>, t: PendingTrigger)
    requires
        pending.len() <= MAX_PENDING,
    ensures
        armed(pending, t).last() == t,
        pending.len() < MAX_PENDING ==> armed(pending, t).drop_last() == pending,
        pending.len() == MAX_PENDING ==> armed(pending, t).drop_last() == pending.drop_first(),
        armed(pending, t).len() <= 64,
{
    if pending.len() < MAX_PENDING {
        assert(armed(pending, t).drop_last() =~= pending);
    } else {
        assert(armed(pending, t).drop_last() =~= pending.drop_first());
    }
}

/// What a flag of a reaction tells: from the print to now, the quantity printed, how many
/// quotes answered it, and that in tenths: six for how early it came, none at the end of
/// the window, and four for the answers, full at four times the minimum.
pub proof fn reaction_flags_tell_their_print(l: ReactionLimits, t: PendingTrigger, e: SequencedEvent)
    ensures
        ({
            let f = reaction_flag(l, t, e);
            let gap = e.seq - t.seq;
            &&& f.kind == ChaosKind::LatencyArbitrage
            &&& f.start_seq == t.seq
            &&& f.end_seq == e.seq
            &&& f.initiator is None
            &&& f.features.event_count == t.burst_count
            &&& e.event.ts >= t.ts ==> t.ts + f.features.duration_ns == e.event.ts
            &&& e.event.ts < t.ts ==> f.features.duration_ns == 0
            &&& f.features.cancel_trade_ratio.num == 0
            &&& f.features.price_displacement == 0
            &&& f.features.depth_removed == t.qty
            &&& 0 <= gap < l.reaction_seq ==> flag::is_part(
                f.severity.first,
                6,
                l.reaction_seq - gap,
                l.reaction_seq as int,
            )
            &&& gap >= l.reaction_seq ==> f.severity.first.num == 0
            &&& flag::is_part(f.severity.second, 4, t.burst_count as int, 4 * l.min_burst)
            &&& f.severity.third.num == 0 && f.severity.third.tenths == 0
        }),
{
    let gap = momentum_ignition::since(e.seq, t.seq);
    if gap < l.reaction_seq {
        flag::parts_are_capped(6, (l.reaction_seq - gap) as nat, l.reaction_seq as nat);
    }
    flag::parts_are_capped(4, t.burst_count as nat, (l.min_burst * 4) as nat);
}

} // verus!
