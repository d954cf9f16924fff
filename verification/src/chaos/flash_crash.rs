//! Flash crash: the midprice jumps within a few events, the book around its old
//! place is gone, and trades push the same way.
//!
//! The best prices and the quantity around them are cached and brought up to
//! date with every change.

use crate::book::event::{Event, EventType, SequencedEvent};
#[allow(unused_imports)]
use crate::book::event;
use crate::book::model::OrderMeta;
use crate::chaos::flag::{ChaosEvent, ChaosFeatures, ChaosKind, Severity, Term};
#[allow(unused_imports)]
use crate::chaos::flag;
use crate::chaos::mini_book::{mid_between, MiniBook, MiniModel};
#[allow(unused_imports)]
use crate::chaos::mini_book;
use crate::chaos::momentum_ignition::{book_has_room, bps_move, BookChange};
#[allow(unused_imports)]
use crate::chaos::momentum_ignition;
use crate::chaos::order_tracker::{AggressorSide, OrderTracker};
#[allow(unused_imports)]
use crate::chaos::order_tracker;
use crate::flow::rolling::slide_in;
#[allow(unused_imports)]
use crate::flow::rolling;
use crate::ratio::{Fraction, Ratio};
#[allow(unused_imports)]
use crate::ratio;
use std::collections::VecDeque;
use vstd::prelude::*;

verus! {

/// The window of a gap is shorter than this.
pub const SNAP_CAP: u32 = 16;

/// The top of the book right before an event.
#[derive(Debug, Clone, Copy, PartialEq, Eq, Structural)]
pub struct TopSnapshot {
    pub seq: u64,
    pub ts: u64,
    pub mid: u64,
    pub best_bid: u64,
    pub best_ask: u64,
    /// Quantity around the best prices.
    pub depth_in_band: u64,
}

/// The limits of a detector.
#[derive(Debug, Clone, Copy, PartialEq, Eq, Structural)]
pub struct CrashLimits {
    pub min_gap_bps: u32,
    /// How many events a gap may span.
    pub gap_window_events: u32,
    pub max_book_levels: usize,
    /// How far from the best the book is watched.
    pub depth_band_ticks: u64,
    /// Share of the watched quantity that has to be gone. Zero is no condition.
    pub depth_drop: Ratio,
    pub min_aggr_trades: u32,
    pub cooldown_seq: u64,
}

/// An aggressive trade.
#[derive(Debug, Clone, Copy, PartialEq, Eq, Structural)]
pub struct Aggression {
    pub seq: u64,
    pub side: AggressorSide,
}

/// Everything the detector remembers.
#[verifier::ext_equal]
pub struct CrashModel {
    pub book: MiniModel,
    pub orders: Map<u64, OrderMeta>,
    pub snaps: Seq<TopSnapshot>,
    /// The latest aggressive trades, as many as there may be snapshots.
    pub trades: Seq<Aggression>,
    /// No flag before this sequence number.
    pub quiet_until: u64,
}

/// The trade lies within the window of a gap that ends at `seq`, and pushes the
/// given way.
pub open spec fn pushes(l: CrashLimits, t: Aggression, seq: u64, side: AggressorSide) -> bool {
    t.side == side && momentum_ignition::since(seq, t.seq) <= l.gap_window_events
}

/// How many of the trades do.
pub open spec fn pushing(l: CrashLimits, trades: Seq<Aggression>, seq: u64, side: AggressorSide) -> nat
    decreases trades.len(),
{
    if trades.len() == 0 {
        0
    } else {
        pushing(l, trades.drop_last(), seq, side) + if pushes(l, trades.last(), seq, side) {
            1nat
        } else {
            0
        }
    }
}

/// The quantity within `ticks` of two best prices, on the far side of each.
pub open spec fn depth_around(b: MiniModel, bid: u64, ask: u64, ticks: u64) -> nat {
    mini_book::held(
        mini_book::band(b.bids, momentum_ignition::since(bid, ticks), bid) + mini_book::band(
            b.asks,
            ask,
            momentum_ignition::later(ask, ticks),
        ),
    ) as nat
}

/// The quantity around the current best prices, zero when a side is empty.
pub open spec fn depth_now(b: MiniModel, ticks: u64) -> nat {
    if b.best_bid() is Some && b.best_ask() is Some {
        depth_around(b, b.best_bid()->0, b.best_ask()->0, ticks)
    } else {
        0
    }
}

/// The snapshots with the one taken before `e`, where there is a midprice.
pub open spec fn with_snapshot(m: CrashModel, l: CrashLimits, e: SequencedEvent) -> Seq<TopSnapshot> {
    match m.book.mid() {
        None => m.snaps,
        Some(mid) => rolling::slide(
            m.snaps,
            (l.gap_window_events + 1) as nat,
            TopSnapshot {
                seq: e.seq,
                ts: e.event.ts,
                mid,
                best_bid: m.book.best_bid()->0,
                best_ask: m.book.best_ask()->0,
                depth_in_band: depth_now(m.book, l.depth_band_ticks) as u64,
            },
        ),
    }
}

/// The snapshot is within the window and the midprice is far from it.
pub open spec fn is_gap(l: CrashLimits, s: TopSnapshot, seq: u64, mid: u64) -> bool {
    let span = momentum_ignition::since(seq, s.seq);
    &&& span != 0
    &&& span <= l.gap_window_events
    &&& momentum_ignition::bps_of(s.mid, mid) >= l.min_gap_bps
}

/// The earliest snapshot with a gap.
pub open spec fn first_gap(l: CrashLimits, snaps: Seq<TopSnapshot>, seq: u64, mid: u64) -> Option<TopSnapshot>
    decreases snaps.len(),
{
    if snaps.len() == 0 {
        None
    } else if is_gap(l, snaps[0], seq, mid) {
        Some(snaps[0])
    } else {
        first_gap(l, snaps.drop_first(), seq, mid)
    }
}

/// What is gone of the quantity watched at the snapshot.
pub open spec fn vanished(then_: u64, now: nat) -> u64 {
    if then_ >= now {
        (then_ - now) as u64
    } else {
        0
    }
}

/// Enough of it is gone. Where nothing was watched nothing can be proved.
pub open spec fn collapsed(l: CrashLimits, then_: u64, now: nat) -> bool {
    l.depth_drop.num == 0 || (then_ > 0 && ratio::at_least(
        vanished(then_, now) as nat,
        then_ as nat,
        l.depth_drop,
    ))
}

/// The way the midprice went.
pub open spec fn heading(s: TopSnapshot, mid: u64) -> AggressorSide {
    if mid < s.mid {
        AggressorSide::Sell
    } else {
        AggressorSide::Buy
    }
}

/// Trades within the window that push the way the midprice went.
pub open spec fn aligned(m: CrashModel, l: CrashLimits, s: TopSnapshot, mid: u64, seq: u64) -> nat {
    pushing(l, m.trades, seq, heading(s, mid))
}

/// Five tenths the gap against four times the minimum, three tenths what is
/// gone of the watched quantity, two tenths how one-sided the trades are.
pub open spec fn crash_severity(
    m: CrashModel,
    l: CrashLimits,
    s: TopSnapshot,
    mid: u64,
    seq: u64,
    now: nat,
) -> Severity {
    let total = pushing(l, m.trades, seq, AggressorSide::Buy) + pushing(
        l,
        m.trades,
        seq,
        AggressorSide::Sell,
    );
    Severity {
        first: flag::capped(
            5,
            momentum_ignition::bps_of(s.mid, mid) as nat,
            (l.min_gap_bps * 4) as nat,
        ),
        second: if s.depth_in_band > 0 {
            flag::capped(3, vanished(s.depth_in_band, now) as nat, s.depth_in_band as nat)
        } else {
            flag::capped(3, 0, 1)
        },
        third: flag::capped(
            2,
            aligned(m, l, s, mid, seq),
            if total == 0 {
                1
            } else {
                total as nat
            },
        ),
    }
}

/// The flag of a crash.
pub open spec fn crash_flag(m: CrashModel, l: CrashLimits, s: TopSnapshot, mid: u64, e: SequencedEvent) -> ChaosEvent {
    let now = depth_around(m.book, s.best_bid, s.best_ask, l.depth_band_ticks);
    ChaosEvent {
        kind: ChaosKind::FlashCrash,
        start_seq: s.seq,
        end_seq: e.seq,
        severity: crash_severity(m, l, s, mid, e.seq, now),
        initiator: None,
        features: ChaosFeatures {
            event_count: momentum_ignition::since(e.seq, s.seq),
            duration_ns: momentum_ignition::since(e.event.ts, s.ts),
            cancel_trade_ratio: Fraction { num: 0, den: 1 },
            price_displacement: momentum_ignition::displacement(s.mid, mid),
            depth_removed: vanished(s.depth_in_band, now),
        },
    }
}

/// The event mutates the book, and an aggressive trade is remembered.
pub open spec fn crash_mutated(m: CrashModel, l: CrashLimits, e: SequencedEvent) -> CrashModel {
    let (orders, c) = momentum_ignition::change_of(m.orders, e.event);
    let n = CrashModel {
        orders,
        book: momentum_ignition::changed(m.book, c, l.max_book_levels as nat),
        ..m
    };
    match c {
        BookChange::Traded { is_bid: _, price: _, qty: _, aggressor } => CrashModel {
            trades: rolling::slide(
                m.trades,
                (l.gap_window_events + 1) as nat,
                Aggression { seq: e.seq, side: aggressor },
            ),
            ..n
        },
        _ => n,
    }
}

/// The decision after the mutation: quiet during the cooldown, else a flag for
/// the earliest gap, if the book collapsed and enough trades push that way.
pub open spec fn crash_judged(n: CrashModel, l: CrashLimits, e: SequencedEvent) -> (
    CrashModel,
    Option<ChaosEvent>,
) {
    match n.book.mid() {
        None => (n, None),
        Some(mid) => if e.seq < n.quiet_until {
            (CrashModel { trades: Seq::empty(), ..n }, None)
        } else {
            match first_gap(l, n.snaps, e.seq, mid) {
                None => (n, None),
                Some(s) => if collapsed(
                    l,
                    s.depth_in_band,
                    depth_around(n.book, s.best_bid, s.best_ask, l.depth_band_ticks),
                ) && aligned(n, l, s, mid, e.seq) >= l.min_aggr_trades {
                    (
                        CrashModel {
                            trades: Seq::empty(),
                            snaps: Seq::empty(),
                            quiet_until: momentum_ignition::later(e.seq, l.cooldown_seq),
                            ..n
                        },
                        Some(crash_flag(n, l, s, mid, e)),
                    )
                } else {
                    (n, None)
                },
            }
        },
    }
}

/// One event: the top is remembered, the book changes, the change is judged.
/// A book snapshot is only remembered.
pub open spec fn crash_step(m: CrashModel, l: CrashLimits, e: SequencedEvent) -> (
    CrashModel,
    Option<ChaosEvent>,
) {
    if e.event.event_type < 1 || e.event.event_type > 5 {
        (m, None)
    } else {
        let s = CrashModel { snaps: with_snapshot(m, l, e), ..m };
        if e.event.event_type == event::event_code(EventType::BookSnapshot) {
            (s, None)
        } else {
            crash_judged(crash_mutated(s, l, e), l, e)
        }
    }
}

/// Flash-crash detector.
#[derive(Debug)]
pub struct FlashCrashDetector {
    book: MiniBook,
    order_tracker: OrderTracker,
    cached_bb: Option<u64>,
    cached_ba: Option<u64>,
    snaps: VecDeque<TopSnapshot>,
    band_depth: u64,
    band_depth_valid: bool,
    limits: CrashLimits,
    aggr: VecDeque<Aggression>,
    refractory_until: u64,
}

impl View for FlashCrashDetector {
    type V = CrashModel;

    closed spec fn view(&self) -> CrashModel {
        CrashModel {
            book: self.book@,
            orders: self.order_tracker@,
            snaps: self.snaps@,
            trades: self.aggr@,
            quiet_until: self.refractory_until,
        }
    }
}

impl FlashCrashDetector {
    /// The limits it was made with.
    pub closed spec fn config(&self) -> CrashLimits {
        self.limits
    }

    /// The cached best prices are the best prices, and the cached depth, while
    /// it counts as valid, is the depth around them.
    pub closed spec fn wf(&self) -> bool {
        &&& self.book.wf()
        &&& self.book.depth() == self.limits.max_book_levels
        &&& self.book@.positive()
        &&& self.order_tracker.wf()
        &&& self.limits.gap_window_events < SNAP_CAP
        &&& self.limits.depth_drop.wf()
        &&& self.cached_bb == self.book@.best_bid()
        &&& self.cached_ba == self.book@.best_ask()
        &&& self.aggr@.len() <= self.limits.gap_window_events + 1
        &&& self.band_depth_valid ==> {
            &&& self.cached_bb is Some
            &&& self.cached_ba is Some
            &&& self.band_depth == depth_now(self.book@, self.limits.depth_band_ticks)
        }
    }

    /// The book is no deeper than is allowed and has no empty level.
    pub proof fn lemma_wf(&self)
        requires
            self.wf(),
        ensures
            self@.book.positive(),
            self@.trades.len() <= self.config().gap_window_events + 1,
            self@.book.within(self.config().max_book_levels as nat),
    {
    }

    /// A detector.
    pub fn new(
        min_gap_bps: u32,
        gap_window_events: u32,
        max_book_levels: usize,
        depth_band_ticks: u64,
        depth_drop: Ratio,
        min_aggr_trades: u32,
        cooldown_seq: u64,
    ) -> (d: Self)
        requires
            min_gap_bps >= 1,
            1 <= gap_window_events < SNAP_CAP,
            max_book_levels >= 1,
            depth_drop.wf(),
            depth_drop.num <= depth_drop.den,
        ensures
            d.wf(),
            d.config() == (CrashLimits {
                min_gap_bps,
                gap_window_events,
                max_book_levels,
                depth_band_ticks,
                depth_drop,
                min_aggr_trades,
                cooldown_seq,
            }),
            d@ == (CrashModel {
                book: MiniModel::empty(),
                orders: Map::empty(),
                snaps: Seq::empty(),
                trades: Seq::empty(),
                quiet_until: 0,
            }),
    {
        FlashCrashDetector {
            book: MiniBook::new(max_book_levels),
            order_tracker: OrderTracker::new(),
            cached_bb: None,
            cached_ba: None,
            snaps: VecDeque::new(),
            band_depth: 0,
            band_depth_valid: false,
            limits: CrashLimits {
                min_gap_bps,
                gap_window_events,
                max_book_levels,
                depth_band_ticks,
                depth_drop,
                min_aggr_trades,
                cooldown_seq,
            },
            aggr: VecDeque::new(),
            refractory_until: 0,
        }
    }

    /// Highest bid.
    pub fn best_bid(&self) -> (r: Option<u64>)
        requires
            self.wf(),
        ensures
            r == self@.book.best_bid(),
    {
        self.cached_bb
    }

    /// Lowest ask.
    pub fn best_ask(&self) -> (r: Option<u64>)
        requires
            self.wf(),
        ensures
            r == self@.book.best_ask(),
    {
        self.cached_ba
    }

    /// Midprice.
    pub fn midprice(&self) -> (r: Option<u64>)
        requires
            self.wf(),
        ensures
            r == self@.book.mid(),
    {
        mid_between(self.cached_bb, self.cached_ba)
    }

    /// Quantity around the best prices, zero when a side is empty. It is
    /// computed at most once between two moves of the best.
    pub fn depth_in_band(&mut self) -> (d: u64)
        requires
            old(self).wf(),
        ensures
            final(self).wf(),
            final(self).config() == old(self).config(),
            final(self)@ == old(self)@,
            d == depth_now(old(self)@.book, old(self).config().depth_band_ticks),
    {
        if self.band_depth_valid {
            return self.band_depth;
        }
        match (self.cached_bb, self.cached_ba) {
            (Some(bid), Some(ask)) => {
                let d: u64 = self.depth_in_band_around(bid, ask);
                self.band_depth = d;
                self.band_depth_valid = true;
                d
            },
            _ => 0,
        }
    }

    /// Quantity around two given prices.
    fn depth_in_band_around(&self, bid: u64, ask: u64) -> (d: u64)
        requires
            self.wf(),
        ensures
            d == depth_around(self.book@, bid, ask, self.limits.depth_band_ticks),
    {
        let lo: u64 = bid.saturating_sub(self.limits.depth_band_ticks);
        let hi: u64 = ask.saturating_add(self.limits.depth_band_ticks);
        let bids: u64 = self.book.bid_band(lo, bid);
        let asks: u64 = self.book.ask_band(ask, hi);
        bids.saturating_add(asks)
    }

    /// Whether the book leaves room for an event.
    pub fn is_ready(&self, seq_event: &SequencedEvent) -> (b: bool)
        requires
            self.wf(),
        ensures
            b == momentum_ignition::change_fits(self@.book, seq_event.event),
    {
        book_has_room(&self.book, &seq_event.event)
    }

    /// Feeds one event; hands out the flag it completes.
    pub fn process(&mut self, seq_event: &SequencedEvent) -> (r: Option<ChaosEvent>)
        requires
            old(self).wf(),
            momentum_ignition::change_fits(old(self)@.book, seq_event.event),
        ensures
            final(self).wf(),
            final(self).config() == old(self).config(),
            (final(self)@, r) == crash_step(old(self)@, old(self).config(), *seq_event),
    {
        let event = &seq_event.event;
        let etype: EventType = match EventType::from_u8(event.event_type) {
            Some(t) => t,
            None => {
                return None;
            },
        };
        self.take_snapshot(seq_event);
        match etype {
            EventType::BookSnapshot => {
                return None;
            },
            EventType::OrderAdd => {
                if let Some(u) = self.order_tracker.on_add(event) {
                    self.add_qty(u.side == 0, u.price, u.qty);
                }
            },
            EventType::OrderCancel => {
                if let Some(u) = self.order_tracker.on_cancel(event) {
                    self.sub_qty(u.side == 0, u.price, u.qty);
                }
            },
            EventType::OrderModify => {},
            EventType::Trade => {
                if let Some(t) = self.order_tracker.on_trade(event) {
                    let cap: usize = self.limits.gap_window_events as usize + 1;
                    slide_in(&mut self.aggr, cap, Aggression { seq: seq_event.seq, side: t.aggressor });
                    self.sub_qty(t.update.side == 0, t.update.price, t.update.qty);
                }
            },
        }
        proof {
            let s = CrashModel {
                snaps: with_snapshot(old(self)@, self.limits, *seq_event),
                ..old(self)@
            };
            assert(self@ =~= crash_mutated(s, self.limits, *seq_event));
        }
        self.judge(seq_event)
    }

    /// Remembers the top of the book before the event.
    fn take_snapshot(&mut self, seq_event: &SequencedEvent)
        requires
            old(self).wf(),
        ensures
            final(self).wf(),
            final(self).config() == old(self).config(),
            final(self)@ == (CrashModel {
                snaps: with_snapshot(old(self)@, old(self).config(), *seq_event),
                ..old(self)@
            }),
    {
        if let Some(mid) = self.midprice() {
            let depth: u64 = self.depth_in_band();
            if let (Some(bid), Some(ask)) = (self.cached_bb, self.cached_ba) {
                let cap: usize = self.limits.gap_window_events as usize + 1;
                slide_in(
                    &mut self.snaps,
                    cap,
                    TopSnapshot {
                        seq: seq_event.seq,
                        ts: seq_event.event.ts,
                        mid,
                        best_bid: bid,
                        best_ask: ask,
                        depth_in_band: depth,
                    },
                );
            }
        }
    }

    /// Decides whether the book as it is now, against its snapshots, is a crash.
    fn judge(&mut self, seq_event: &SequencedEvent) -> (r: Option<ChaosEvent>)
        requires
            old(self).wf(),
        ensures
            final(self).wf(),
            final(self).config() == old(self).config(),
            (final(self)@, r) == crash_judged(old(self)@, old(self).config(), *seq_event),
    {
        let mid: u64 = match self.midprice() {
            Some(m) => m,
            None => {
                return None;
            },
        };
        if seq_event.seq < self.refractory_until {
            self.aggr.clear();
            return None;
        }
        let snap: TopSnapshot = match self.find_gap(seq_event.seq, mid) {
            Some(s) => s,
            None => {
                return None;
            },
        };
        let now: u64 = self.depth_in_band_around(snap.best_bid, snap.best_ask);
        let gone: u64 = snap.depth_in_band.saturating_sub(now);
        let drop_ok: bool = if self.limits.depth_drop.num == 0 {
            true
        } else {
            snap.depth_in_band > 0 && self.limits.depth_drop.is_reached_by(gone, snap.depth_in_band)
        };
        if !drop_ok {
            return None;
        }
        let (buys, sells): (u32, u32) = self.pressure(seq_event.seq);
        let with: u32 = if mid < snap.mid { sells } else { buys };
        if with < self.limits.min_aggr_trades {
            return None;
        }
        let total: u32 = buys + sells;
        let gap_bps: u32 = bps_move(snap.mid, mid);
        let severity = Severity {
            first: Term::capped(5, gap_bps as u128, self.limits.min_gap_bps as u128 * 4),
            second: if snap.depth_in_band > 0 {
                Term::capped(3, gone as u128, snap.depth_in_band as u128)
            } else {
                Term::capped(3, 0, 1)
            },
            third: Term::capped(2, with as u128, if total == 0 { 1 } else { total as u128 }),
        };
        self.refractory_until = seq_event.seq.saturating_add(self.limits.cooldown_seq);
        self.aggr.clear();
        self.snaps.clear();
        Some(
            ChaosEvent {
                kind: ChaosKind::FlashCrash,
                start_seq: snap.seq,
                end_seq: seq_event.seq,
                severity,
                initiator: None,
                features: ChaosFeatures {
                    event_count: seq_event.seq.saturating_sub(snap.seq),
                    duration_ns: seq_event.event.ts.saturating_sub(snap.ts),
                    cancel_trade_ratio: Fraction { num: 0, den: 1 },
                    price_displacement: (mid as i64).wrapping_sub(snap.mid as i64),
                    depth_removed: gone,
                },
            },
        )
    }

    /// Trades within the window, bought and sold.
    fn pressure(&self, seq: u64) -> (r: (u32, u32))
        requires
            self.wf(),
        ensures
            r.0 == pushing(self.limits, self.aggr@, seq, AggressorSide::Buy),
            r.1 == pushing(self.limits, self.aggr@, seq, AggressorSide::Sell),
            r.0 + r.1 <= SNAP_CAP,
    {
        let ghost trades = self.aggr@;
        let mut buys: u32 = 0;
        let mut sells: u32 = 0;
        let mut i: usize = 0;
        assert(trades.take(0) =~= Seq::<Aggression>::empty());
        while i < self.aggr.len()
            invariant
                trades == self.aggr@,
                trades.len() <= SNAP_CAP,
                i <= trades.len(),
                buys + sells <= i,
                buys == pushing(self.limits, trades.take(i as int), seq, AggressorSide::Buy),
                sells == pushing(self.limits, trades.take(i as int), seq, AggressorSide::Sell),
            decreases trades.len() - i,
        {
            let t: Aggression = self.aggr[i];
            assert(trades.take(i + 1).drop_last() =~= trades.take(i as int));
            if seq.saturating_sub(t.seq) <= self.limits.gap_window_events as u64 {
                match t.side {
                    AggressorSide::Buy => {
                        buys += 1;
                    },
                    AggressorSide::Sell => {
                        sells += 1;
                    },
                }
            }
            i += 1;
        }
        assert(trades.take(i as int) =~= trades);
        (buys, sells)
    }

    /// The earliest snapshot with a gap.
    fn find_gap(&self, seq: u64, mid: u64) -> (r: Option<TopSnapshot>)
        ensures
            r == first_gap(self.limits, self.snaps@, seq, mid),
    {
        let ghost snaps = self.snaps@;
        let mut i: usize = 0;
        assert(snaps.skip(0) =~= snaps);
        while i < self.snaps.len()
            invariant
                snaps == self.snaps@,
                i <= snaps.len(),
                first_gap(self.limits, snaps, seq, mid) == first_gap(
                    self.limits,
                    snaps.skip(i as int),
                    seq,
                    mid,
                ),
            decreases snaps.len() - i,
        {
            let s: TopSnapshot = self.snaps[i];
            let span: u64 = seq.saturating_sub(s.seq);
            assert(snaps.skip(i as int)[0] == s);
            assert(snaps.skip(i as int).drop_first() =~= snaps.skip(i + 1));
            if span != 0 && span <= self.limits.gap_window_events as u64 && bps_move(s.mid, mid)
                >= self.limits.min_gap_bps {
                return Some(s);
            }
            i += 1;
        }
        None
    }

    /// Adds to the book and brings the caches up to date.
    fn add_qty(&mut self, is_bid: bool, price: u64, qty: u64)
        requires
            old(self).wf(),
            mini_book::qty_at(old(self).book@.side(is_bid), price) + qty <= u64::MAX,
        ensures
            final(self).wf(),
            final(self).config() == old(self).config(),
            final(self)@ == (CrashModel {
                book: old(self)@.book.added(
                    is_bid,
                    price,
                    qty,
                    old(self).config().max_book_levels as nat,
                ),
                ..old(self)@
            }),
    {
        let ghost b = self.book@;
        let ghost m = b.side(is_bid);
        let ghost cap = self.book.depth();
        let ghost ticks = self.limits.depth_band_ticks;
        proof {
            mini_book::lemma_top_after_add(m, is_bid, price, qty, cap);
            assert(ordered_top(b, is_bid) == mini_book::top(m, is_bid));
        }
        let pruned: bool = self.book.add_qty(is_bid, price, qty);
        let best: Option<u64> = if is_bid { self.cached_bb } else { self.cached_ba };
        let moved: bool = qty > 0 && match best {
            None => true,
            Some(p) => if is_bid {
                price > p
            } else {
                price < p
            },
        };
        if moved {
            if is_bid {
                self.cached_bb = Some(price);
            } else {
                self.cached_ba = Some(price);
            }
        }
        if moved || pruned {
            self.band_depth_valid = false;
        } else if self.band_depth_valid {
            let ghost bid = self.cached_bb->0;
            let ghost ask = self.cached_ba->0;
            proof {
                mini_book::lemma_band_after_add(
                    m,
                    is_bid,
                    price,
                    qty,
                    cap,
                    momentum_ignition::since(bid, ticks),
                    bid,
                );
                mini_book::lemma_band_after_add(
                    m,
                    is_bid,
                    price,
                    qty,
                    cap,
                    ask,
                    momentum_ignition::later(ask, ticks),
                );
            }
            if self.in_band_same_side(is_bid, price) {
                self.band_depth = self.band_depth.saturating_add(qty);
            }
        }
    }

    /// Takes from the book and brings the caches up to date.
    fn sub_qty(&mut self, is_bid: bool, price: u64, qty: u64)
        requires
            old(self).wf(),
        ensures
            final(self).wf(),
            final(self).config() == old(self).config(),
            final(self)@ == (CrashModel {
                book: old(self)@.book.reduced(is_bid, price, qty),
                ..old(self)@
            }),
    {
        let ghost b = self.book@;
        let ghost m = b.side(is_bid);
        let ghost ticks = self.limits.depth_band_ticks;
        proof {
            assert(ordered_top(b, is_bid) == mini_book::top(m, is_bid));
        }
        let (removed, emptied): (u64, bool) = self.book.sub_qty(is_bid, price, qty);
        let best: Option<u64> = if is_bid { self.cached_bb } else { self.cached_ba };
        let moved: bool = emptied && match best {
            Some(p) => p == price,
            None => false,
        };
        if moved {
            if is_bid {
                self.cached_bb = self.book.best_bid();
            } else {
                self.cached_ba = self.book.best_ask();
            }
            self.band_depth_valid = false;
        } else {
            proof {
                mini_book::lemma_top_after_take(m, is_bid, price, qty);
            }
            if self.band_depth_valid && removed > 0 {
                let ghost bid = self.cached_bb->0;
                let ghost ask = self.cached_ba->0;
                proof {
                    mini_book::lemma_band_after_take(
                        m,
                        price,
                        qty,
                        momentum_ignition::since(bid, ticks),
                        bid,
                    );
                    mini_book::lemma_band_after_take(
                        m,
                        price,
                        qty,
                        ask,
                        momentum_ignition::later(ask, ticks),
                    );
                }
                if self.in_band_same_side(is_bid, price) {
                    if self.band_depth == u64::MAX {
                        self.band_depth_valid = false;
                    } else {
                        self.band_depth = self.band_depth - removed;
                    }
                }
            } else if self.band_depth_valid {
                proof {
                    let bid = self.cached_bb->0;
                    let ask = self.cached_ba->0;
                    mini_book::lemma_band_after_take(
                        m,
                        price,
                        qty,
                        momentum_ignition::since(bid, ticks),
                        bid,
                    );
                    mini_book::lemma_band_after_take(
                        m,
                        price,
                        qty,
                        ask,
                        momentum_ignition::later(ask, ticks),
                    );
                }
            }
        }
    }

    /// The price is within the watched band of its side.
    fn in_band_same_side(&self, is_bid: bool, price: u64) -> (r: bool)
        requires
            self.cached_bb is Some,
            self.cached_ba is Some,
        ensures
            r == (if is_bid {
                momentum_ignition::since(self.cached_bb->0, self.limits.depth_band_ticks) <= price
                    <= self.cached_bb->0
            } else {
                self.cached_ba->0 <= price <= momentum_ignition::later(
                    self.cached_ba->0,
                    self.limits.depth_band_ticks,
                )
            }),
    {
        if is_bid {
            match self.cached_bb {
                Some(bid) => price >= bid.saturating_sub(self.limits.depth_band_ticks) && price <= bid,
                None => false,
            }
        } else {
            match self.cached_ba {
                Some(ask) => price >= ask && price <= ask.saturating_add(self.limits.depth_band_ticks),
                None => false,
            }
        }
    }
}

/// The best price of a side of the book.
pub open spec fn ordered_top(b: MiniModel, is_bid: bool) -> Option<u64> {
    if is_bid {
        b.best_bid()
    } else {
        b.best_ask()
    }
}

// ─── Laws ───────────────────────────────────────────────────────────

/// Where the detector is after a series of events.
pub open spec fn crash_run(m: CrashModel, l: CrashLimits, s: Seq<SequencedEvent>) -> CrashModel
    decreases s.len(),
{
    if s.len() == 0 {
        m
    } else {
        crash_step(crash_run(m, l, s.drop_last()), l, s.last()).0
    }
}

/// After a flag nothing is flagged, however many events come, until the cooldown
/// is over.
pub proof fn crash_cools_down(
    m: CrashModel,
    l: CrashLimits,
    e: SequencedEvent,
    s: Seq<SequencedEvent>,
    f: SequencedEvent,
)
    requires
        crash_step(m, l, e).1 is Some,
        forall|i: int|
            0 <= i < s.len() ==> (#[trigger] s[i]).seq < momentum_ignition::later(e.seq, l.cooldown_seq),
        f.seq < momentum_ignition::later(e.seq, l.cooldown_seq),
    ensures
        crash_step(crash_run(crash_step(m, l, e).0, l, s), l, f).1 is None,
        crash_run(crash_step(m, l, e).0, l, s).quiet_until == momentum_ignition::later(e.seq, l.cooldown_seq),
    decreases s.len(),
{
    if s.len() > 0 {
        assert forall|i: int| 0 <= i < s.drop_last().len() implies (#[trigger] s.drop_last()[i]).seq
            < momentum_ignition::later(e.seq, l.cooldown_seq) by {
            assert(s.drop_last()[i] == s[i]);
        }
        crash_cools_down(m, l, e, s.drop_last(), s[s.len() - 1]);
    }
}

proof fn lemma_first_gap(l: CrashLimits, snaps: Seq<TopSnapshot>, seq: u64, mid: u64)
    requires
        first_gap(l, snaps, seq, mid) is Some,
    ensures
        snaps.contains(first_gap(l, snaps, seq, mid)->0),
        is_gap(l, first_gap(l, snaps, seq, mid)->0, seq, mid),
    decreases snaps.len(),
{
    if is_gap(l, snaps[0], seq, mid) {
        assert(snaps.contains(snaps[0]));
    } else {
        lemma_first_gap(l, snaps.drop_first(), seq, mid);
        let i = choose|i: int|
            0 <= i < snaps.drop_first().len() && snaps.drop_first()[i] == first_gap(l, snaps, seq, mid)->0;
        assert(snaps[i + 1] == first_gap(l, snaps, seq, mid)->0);
    }
}

pub proof fn lemma_pushing(l: CrashLimits, trades: Seq<Aggression>, seq: u64, side: AggressorSide)
    ensures
        pushing(l, trades, seq, side) <= trades.len(),
        pushing(l, trades, seq, side) > 0 ==> exists|i: int|
            0 <= i < trades.len() && pushes(l, #[trigger] trades[i], seq, side),
    decreases trades.len(),
{
    if trades.len() > 0 {
        let d = trades.drop_last();
        lemma_pushing(l, d, seq, side);
        if pushes(l, trades.last(), seq, side) {
            assert(pushes(l, trades[trades.len() - 1], seq, side));
        } else if pushing(l, d, seq, side) > 0 {
            let i = choose|i: int| 0 <= i < d.len() && pushes(l, #[trigger] d[i], seq, side);
            assert(trades[i] == d[i]);
        }
    }
}

/// The midprice is at least the minimum away from a remembered top and, where
/// trades are asked for, one within the window pushed it there.
pub open spec fn confirmed(n: CrashModel, l: CrashLimits, s: TopSnapshot, seq: u64) -> bool {
    let mid = n.book.mid()->0;
    &&& momentum_ignition::bps_of(s.mid, mid) >= l.min_gap_bps
    &&& l.min_aggr_trades >= 1 ==> exists|k: int|
        0 <= k < n.trades.len() && pushes(l, #[trigger] n.trades[k], seq, heading(s, mid))
}

/// A flag starts at a remembered top, spans at least one event and no more than
/// the window, its gap is at least the minimum, and its severity is proper. Where
/// trades are asked for, one that pushes the same way lies within the window.
pub proof fn crash_flag_is_sudden(m: CrashModel, l: CrashLimits, e: SequencedEvent)
    requires
        crash_step(m, l, e).1 is Some,
        m.trades.len() <= l.gap_window_events + 1,
    ensures
        1 <= crash_step(m, l, e).1->0.features.event_count <= l.gap_window_events,
        crash_step(m, l, e).1->0.severity.wf(),
        ({
            let n = crash_mutated(CrashModel { snaps: with_snapshot(m, l, e), ..m }, l, e);
            &&& n.book.mid() is Some
            &&& exists|i: int|
                0 <= i < n.snaps.len() && (#[trigger] n.snaps[i]).seq == crash_step(m, l, e).1->0.start_seq
                    && confirmed(n, l, n.snaps[i], e.seq)
        }),
{
    let s = CrashModel { snaps: with_snapshot(m, l, e), ..m };
    let n = crash_mutated(s, l, e);
    let mid = n.book.mid()->0;
    lemma_first_gap(l, n.snaps, e.seq, mid);
    let g = first_gap(l, n.snaps, e.seq, mid)->0;
    let i = choose|i: int| 0 <= i < n.snaps.len() && n.snaps[i] == g;
    lemma_pushing(l, n.trades, e.seq, AggressorSide::Buy);
    lemma_pushing(l, n.trades, e.seq, AggressorSide::Sell);
    assert(n.snaps[i].seq == g.seq && confirmed(n, l, n.snaps[i], e.seq));
}

/// No more tops and trades are remembered than the window needs.
pub proof fn snapshots_stay_bounded(m: CrashModel, l: CrashLimits, e: SequencedEvent)
    requires
        m.snaps.len() <= l.gap_window_events + 1,
        m.trades.len() <= l.gap_window_events + 1,
    ensures
        crash_step(m, l, e).0.snaps.len() <= l.gap_window_events + 1,
        crash_step(m, l, e).0.trades.len() <= l.gap_window_events + 1,
{
}

/// Without aggressive trades there is never a flag, where at least one is asked for.
pub proof fn no_crash_without_trades(m: CrashModel, l: CrashLimits, e: SequencedEvent)
    requires
        l.min_aggr_trades >= 1,
        m.trades.len() == 0,
        e.event.event_type != event::event_code(EventType::Trade),
    ensures
        crash_step(m, l, e).1 is None,
        crash_step(m, l, e).0.trades.len() == 0,
{
}

/// The event at `i` of a series found the top of the book as `x` has it.
pub open spec fn top_before(m: CrashModel, l: CrashLimits, s: Seq<SequencedEvent>, i: int, x: TopSnapshot) -> bool {
    let b = crash_run(m, l, s.take(i)).book;
    &&& 0 <= i < s.len()
    &&& x.seq == s[i].seq
    &&& x.ts == s[i].event.ts
    &&& b.mid() == Some(x.mid)
    &&& b.best_bid() == Some(x.best_bid)
    &&& b.best_ask() == Some(x.best_ask)
    &&& x.depth_in_band == depth_now(b, l.depth_band_ticks) as u64
}

/// A flag speaks of the gap from `x` to a book.
pub open spec fn measures(f: ChaosEvent, l: CrashLimits, x: TopSnapshot, b: MiniModel, ts: u64) -> bool {
    let mid = b.mid()->0;
    &&& b.mid() is Some
    &&& f.start_seq == x.seq
    &&& f.features.duration_ns == momentum_ignition::since(ts, x.ts)
    &&& f.features.price_displacement == momentum_ignition::displacement(x.mid, mid)
    &&& momentum_ignition::bps_of(x.mid, mid) >= l.min_gap_bps
    &&& f.features.depth_removed == vanished(
        x.depth_in_band,
        depth_around(b, x.best_bid, x.best_ask, l.depth_band_ticks),
    )
}

proof fn lemma_snaps_were_tops(m: CrashModel, l: CrashLimits, s: Seq<SequencedEvent>, x: TopSnapshot) -> (i: int)
    requires
        m.snaps.len() == 0,
        crash_run(m, l, s).snaps.contains(x),
    ensures
        top_before(m, l, s, i, x),
    decreases s.len(),
{
    let d = s.drop_last();
    let n = crash_run(m, l, d);
    assert(s.take(s.len() - 1) =~= d);
    if n.snaps.contains(x) {
        let i = lemma_snaps_were_tops(m, l, d, x);
        assert(s.take(i) =~= d.take(i));
        i
    } else {
        lemma_new_snap(n, l, s.last(), x);
        s.len() - 1
    }
}

proof fn lemma_new_snap(n: CrashModel, l: CrashLimits, e: SequencedEvent, x: TopSnapshot)
    requires
        with_snapshot(n, l, e).contains(x) || crash_step(n, l, e).0.snaps.contains(x),
        !n.snaps.contains(x),
    ensures
        n.book.mid() == Some(x.mid),
        n.book.best_bid() == Some(x.best_bid),
        n.book.best_ask() == Some(x.best_ask),
        x.seq == e.seq,
        x.ts == e.event.ts,
        x.depth_in_band == depth_now(n.book, l.depth_band_ticks) as u64,
{
    let w = with_snapshot(n, l, e);
    let after = crash_step(n, l, e).0.snaps;
    assert(after == w || after == n.snaps || after.len() == 0);
    let k = choose|k: int| 0 <= k < w.len() && w[k] == x;
    if n.snaps.len() >= l.gap_window_events + 1 {
        if k < w.len() - 1 {
            assert(n.snaps[k + 1] == x);
        }
    } else {
        if k < w.len() - 1 {
            assert(n.snaps[k] == x);
        }
    }
}

/// What a flag of a series says: it ends at the event that completes it, it spans
/// at least one sequence number and no more than the window, and it starts at an
/// event of the series whose top it measures from. Its displacement is the gap
/// from the midprice there to the midprice now, and that gap is at least the
/// minimum, so never zero where the minimum is not.
pub proof fn crash_flag_measures_the_gap(m: CrashModel, l: CrashLimits, s: Seq<SequencedEvent>)
    requires
        s.len() > 0,
        m.snaps.len() == 0,
        m.trades.len() <= l.gap_window_events + 1,
        crash_step(crash_run(m, l, s.drop_last()), l, s.last()).1 is Some,
    ensures
        ({
            let f = crash_step(crash_run(m, l, s.drop_last()), l, s.last()).1->0;
            let b = crash_run(m, l, s).book;
            &&& f.kind == ChaosKind::FlashCrash
            &&& f.end_seq == s.last().seq
            &&& 1 <= f.end_seq - f.start_seq <= l.gap_window_events
            &&& f.features.event_count == f.end_seq - f.start_seq
            &&& f.severity.wf()
            &&& f.initiator is None
            &&& l.min_gap_bps >= 1 ==> f.features.price_displacement != 0
            &&& exists|i: int, x: TopSnapshot| #[trigger]
                top_before(m, l, s, i, x) && measures(f, l, x, b, s.last().event.ts)
        }),
{
    let d = s.drop_last();
    let n = crash_run(m, l, d);
    let e = s.last();
    let f = crash_step(n, l, e).1->0;
    lemma_run_stays_bounded(m, l, d);
    crash_flag_is_sudden(n, l, e);
    let w = crash_mutated(CrashModel { snaps: with_snapshot(n, l, e), ..n }, l, e);
    lemma_first_gap(l, w.snaps, e.seq, w.book.mid()->0);
    let x = first_gap(l, w.snaps, e.seq, w.book.mid()->0)->0;
    assert(s.take(s.len() - 1) =~= d);
    let i = if n.snaps.contains(x) {
        let i = lemma_snaps_were_tops(m, l, d, x);
        assert(s.take(i) =~= d.take(i));
        i
    } else {
        lemma_new_snap(n, l, e, x);
        s.len() - 1
    };
    if l.min_gap_bps >= 1 {
        momentum_ignition::moves_are_as_far_as_they_say(x.mid, w.book.mid()->0, l.min_gap_bps);
    }
    assert(top_before(m, l, s, i, x) && measures(f, l, x, crash_run(m, l, s).book, e.event.ts));
}

proof fn lemma_run_stays_bounded(m: CrashModel, l: CrashLimits, s: Seq<SequencedEvent>)
    requires
        m.snaps.len() <= l.gap_window_events + 1,
        m.trades.len() <= l.gap_window_events + 1,
    ensures
        crash_run(m, l, s).snaps.len() <= l.gap_window_events + 1,
        crash_run(m, l, s).trades.len() <= l.gap_window_events + 1,
    decreases s.len(),
{
    if s.len() > 0 {
        lemma_run_stays_bounded(m, l, s.drop_last());
        snapshots_stay_bounded(crash_run(m, l, s.drop_last()), l, s.last());
    }
}

/// A gap is found exactly where there is one: a remembered top at least one and at most
/// so many sequence numbers back as the window has, from which the midprice moved at
/// least the minimum. It is the earliest of these.
pub proof fn the_earliest_gap_is_found(l: CrashLimits, snaps: Seq<TopSnapshot>, seq: u64, mid: u64, i: int)
    requires
        0 <= i < snaps.len(),
        1 <= seq - snaps[i].seq <= l.gap_window_events,
        momentum_ignition::bps_of(snaps[i].mid, mid) >= l.min_gap_bps,
    ensures
        first_gap(l, snaps, seq, mid) is Some,
        exists|k: int| 0 <= k <= i && first_gap(l, snaps, seq, mid) == Some(#[trigger] snaps[k]),
    decreases snaps.len(),
{
    if is_gap(l, snaps[0], seq, mid) {
        assert(first_gap(l, snaps, seq, mid) == Some(snaps[0]));
    } else {
        let d = snaps.drop_first();
        assert(d[i - 1] == snaps[i]);
        the_earliest_gap_is_found(l, d, seq, mid, i - 1);
        let k = choose|k: int| 0 <= k <= i - 1 && first_gap(l, d, seq, mid) == Some(#[trigger] d[k]);
        assert(snaps[k + 1] == d[k]);
    }
}

/// Trades of one way within the window are counted one by one.
pub proof fn pushes_are_counted(l: CrashLimits, trades: Seq<Aggression>, t: Aggression, seq: u64, side: AggressorSide)
    ensures
        pushing(l, Seq::empty(), seq, side) == 0,
        t.side == side && seq - t.seq <= l.gap_window_events ==> pushing(l, trades.push(t), seq, side) == pushing(
            l,
            trades,
            seq,
            side,
        ) + 1,
        t.side != side || seq - t.seq > l.gap_window_events ==> pushing(l, trades.push(t), seq, side) == pushing(
            l,
            trades,
            seq,
            side,
        ),
{
    assert(trades.push(t).drop_last() =~= trades);
}

/// The quantity around two prices is what stands within so many ticks below the bid and
/// above the ask, the two prices counted, as far as a counter holds it.
pub proof fn depth_counts_both_sides(b: MiniModel, bid: u64, ask: u64, ticks: u64)
    requires
        ticks <= bid,
        ask + ticks <= u64::MAX,
    ensures
        ({
            let n = mini_book::band(b.bids, (bid - ticks) as u64, bid) + mini_book::band(
                b.asks,
                ask,
                (ask + ticks) as u64,
            );
            &&& n <= u64::MAX ==> depth_around(b, bid, ask, ticks) == n
            &&& n > u64::MAX ==> depth_around(b, bid, ask, ticks) == u64::MAX
            &&& b.best_bid() == Some(bid) && b.best_ask() == Some(ask) ==> depth_now(b, ticks) == depth_around(
                b,
                bid,
                ask,
                ticks,
            )
            &&& b.best_bid() is None || b.best_ask() is None ==> depth_now(b, ticks) == 0
        }),
{
}

/// A crash is flagged exactly where, after the event, there is a gap, enough of the
/// quantity around the old top is gone, and enough trades within the window push the way
/// the midprice went, outside a cooldown. Where no share is asked for none has to be gone.
pub proof fn crashes_flag_by_the_limits(n: CrashModel, l: CrashLimits, e: SequencedEvent)
    requires
        n.book.mid() is Some,
        n.trades.len() <= u32::MAX,
    ensures
        ({
            let mid = n.book.mid()->0;
            let g = first_gap(l, n.snaps, e.seq, mid);
            let x = g->0;
            let now = depth_around(n.book, x.best_bid, x.best_ask, l.depth_band_ticks);
            let gone = if x.depth_in_band >= now { x.depth_in_band - now } else { 0 };
            let fell = l.depth_drop.num == 0 || (x.depth_in_band > 0 && gone * l.depth_drop.den
                >= l.depth_drop.num * x.depth_in_band);
            let with = if mid < x.mid {
                pushing(l, n.trades, e.seq, AggressorSide::Sell)
            } else {
                pushing(l, n.trades, e.seq, AggressorSide::Buy)
            };
            let (r, f) = crash_judged(n, l, e);
            &&& f is Some <==> e.seq >= n.quiet_until && g is Some && fell && with >= l.min_aggr_trades
            &&& f matches Some(y) ==> {
                &&& y.start_seq == x.seq
                &&& y.features.depth_removed == gone
                &&& y.severity.first.tenths == 5 && y.severity.second.tenths == 3 && y.severity.third.tenths == 2
                &&& x.depth_in_band > 0 ==> y.severity.second.num * x.depth_in_band == gone * y.severity.second.den
                &&& r.snaps.len() == 0
                &&& r.trades.len() == 0
                &&& r.quiet_until == momentum_ignition::later(e.seq, l.cooldown_seq)
            }
            &&& f is None && e.seq >= n.quiet_until ==> r == n
            &&& e.seq < n.quiet_until ==> r.snaps == n.snaps && r.quiet_until == n.quiet_until
        }),
{
    let mid = n.book.mid()->0;
    let g = first_gap(l, n.snaps, e.seq, mid);
    let x = g->0;
    let now = depth_around(n.book, x.best_bid, x.best_ask, l.depth_band_ticks);
    if x.depth_in_band > 0 {
        flag::capped_is_the_smaller(3, vanished(x.depth_in_band, now) as nat, x.depth_in_band as nat);
    }
}

/// What an event does before it is judged: the top of before it is remembered with its
/// number, time, midprice and best prices, and an aggressive trade with its number and
/// side, each as the newest.
pub proof fn tops_and_trades_are_remembered(m: CrashModel, l: CrashLimits, e: SequencedEvent)
    ensures
        ({
            let w = with_snapshot(m, l, e);
            let x = w.last();
            &&& m.book.mid() is Some ==> {
                &&& w.len() > 0
                &&& x.seq == e.seq && x.ts == e.event.ts && m.book.mid() == Some(x.mid)
                &&& m.book.best_bid() == Some(x.best_bid) && m.book.best_ask() == Some(x.best_ask)
                &&& m.snaps.len() <= l.gap_window_events ==> w.drop_last() == m.snaps
            }
            &&& m.book.mid() is None ==> w == m.snaps
        }),
        ({
            let n = crash_mutated(m, l, e);
            let c = momentum_ignition::change_of(m.orders, e.event).1;
            &&& c is Traded ==> {
                &&& n.trades.len() > 0
                &&& n.trades.last().seq == e.seq
                &&& n.trades.last().side == c->aggressor
                &&& m.trades.len() <= l.gap_window_events ==> n.trades.drop_last() == m.trades
            }
            &&& !(c is Traded) ==> n.trades == m.trades
            &&& n.snaps == m.snaps
            &&& n.quiet_until == m.quiet_until
        }),
{
    if m.book.mid() is Some {
        assert(m.snaps.len() <= l.gap_window_events ==> with_snapshot(m, l, e).drop_last() =~= m.snaps);
    }
    let n = crash_mutated(m, l, e);
    if momentum_ignition::change_of(m.orders, e.event).1 is Traded {
        assert(m.trades.len() <= l.gap_window_events ==> n.trades.drop_last() =~= m.trades);
    }
}

/// What a flag of a crash tells: from the snapshot with the gap to now, how far the
/// midprice came, with its sign, and that in tenths: five for the gap, full at four times
/// the minimum, and two for the share of the trades that push that way.
pub proof fn crash_flags_tell_their_gap(n: CrashModel, l: CrashLimits, e: SequencedEvent)
    requires
        n.book.mid() is Some,
        n.trades.len() <= u32::MAX,
    ensures
        ({
            let mid = n.book.mid()->0;
            let x = first_gap(l, n.snaps, e.seq, mid)->0;
            let bought = pushing(l, n.trades, e.seq, AggressorSide::Buy);
            let sold = pushing(l, n.trades, e.seq, AggressorSide::Sell);
            let with = if mid < x.mid { sold } else { bought };
            crash_judged(n, l, e).1 matches Some(f) ==> {
                &&& f.kind == ChaosKind::FlashCrash
                &&& f.start_seq == x.seq
                &&& f.end_seq == e.seq
                &&& f.initiator is None
                &&& e.seq >= x.seq ==> x.seq + f.features.event_count == e.seq
                &&& e.event.ts >= x.ts ==> x.ts + f.features.duration_ns == e.event.ts
                &&& e.event.ts < x.ts ==> f.features.duration_ns == 0
                &&& mid <= i64::MAX && x.mid <= i64::MAX ==> x.mid + f.features.price_displacement == mid
                &&& f.features.cancel_trade_ratio.num == 0
                &&& flag::is_part(
                    f.severity.first,
                    5,
                    momentum_ignition::bps_of(x.mid, mid) as int,
                    4 * l.min_gap_bps,
                )
                &&& x.depth_in_band == 0 ==> f.severity.second.num == 0 && f.severity.second.den == 1
                &&& bought + sold > 0 ==> flag::is_part(f.severity.third, 2, with as int, (bought + sold) as int)
            }
        }),
{
    let mid = n.book.mid()->0;
    let x = first_gap(l, n.snaps, e.seq, mid)->0;
    let bought = pushing(l, n.trades, e.seq, AggressorSide::Buy);
    let sold = pushing(l, n.trades, e.seq, AggressorSide::Sell);
    lemma_pushing(l, n.trades, e.seq, AggressorSide::Buy);
    lemma_pushing(l, n.trades, e.seq, AggressorSide::Sell);
    flag::parts_are_capped(5, momentum_ignition::bps_of(x.mid, mid) as nat, (l.min_gap_bps * 4) as nat);
    flag::parts_are_capped(2, aligned(n, l, x, mid, e.seq), (bought + sold) as nat);
}

} // verus!
