//! The engine: what happens to an event, one stage after the other, and what is
//! published of it. Time comes from outside.

use crate::book::event::{Event, EventType, SequencedEvent};
#[allow(unused_imports)]
use crate::book::event;
use crate::book::hot_book::HotOrderBook;
#[allow(unused_imports)]
use crate::book::hot_book;
use crate::book::model;
use crate::chaos::cancellation_storm::{RateSample, StormVerdict};
#[allow(unused_imports)]
use crate::chaos::cancellation_storm;
use crate::chaos::chain::ChaosChain;
#[allow(unused_imports)]
use crate::chaos::chain;
use crate::chaos::flag::ChaosEvent;
use crate::engine::config::{period_ns, EngineConfig, SECOND};
#[allow(unused_imports)]
use crate::engine::config;
use crate::engine::histo::ApplyHisto;
#[allow(unused_imports)]
use crate::engine::histo;
use crate::engine::print::{tag_trade, Print};
#[allow(unused_imports)]
use crate::engine::print;
use crate::engine::stage_stats::StageStats;
#[allow(unused_imports)]
use crate::engine::stage_stats;
use crate::engine::symbol_lock::{Gate, LockModel, SymbolLock};
#[allow(unused_imports)]
use crate::engine::symbol_lock;
use crate::engine::wire::{BookFrame, ChaosFrame, LatFrame, Level, RiskFrame, StageLat, TickFrame, TradeFrame};
#[allow(unused_imports)]
use crate::engine::wire;
use crate::flow::circuit_breaker::{BreakerConfig, BreakerSnapshot, CircuitBreaker};
#[allow(unused_imports)]
use crate::flow::circuit_breaker;
use crate::flow::imbalance::book_imbalance;
#[allow(unused_imports)]
use crate::flow::imbalance;
#[allow(unused_imports)]
use crate::flow::rolling;
use crate::flow::spread::SpreadTracker;
#[allow(unused_imports)]
use crate::flow::spread;
use crate::flow::vpin::VpinCalculator;
#[allow(unused_imports)]
use crate::flow::vpin;
use crate::ratio::{Fraction, Ratio, SignedFraction};
use vstd::prelude::*;

verus! {

/// Levels that the engine's book holds on each side.
pub const BOOK_DEPTH: usize = 256;

/// Samples that the latency figures of a stage are made of.
pub const STAGE_WINDOW: usize = 256;

/// The shortest time that rates are taken over.
pub const SHORTEST_NS: u64 = 1_000_000;

/// Everything the engine knows.
pub struct EngineState {
    pub cfg: EngineConfig,
    pub lock: LockModel,
    pub book: HotOrderBook<BOOK_DEPTH>,
    pub spread: SpreadTracker,
    pub vpin: VpinCalculator,
    pub breaker: CircuitBreaker,
    pub chain: ChaosChain,
    pub seq: u64,
    /// Events and trades of the running second, and when it began.
    pub events: u64,
    pub trades: u64,
    pub window_started_ns: u64,
    /// The latest figures.
    pub last_vpin: Fraction,
    pub last_imbalance: SignedFraction,
    pub last_blowout: Fraction,
    pub prev_mid: u64,
    pub last_drift: Fraction,
    pub last_eps: u64,
    pub last_velocity: Fraction,
    /// Latency samples of the stages.
    pub apply_ns: Seq<u64>,
    pub analytics_ns: Seq<u64>,
    pub risk_ns: Seq<u64>,
    pub wire_ns: Seq<u64>,
    pub histo: Seq<u64>,
    /// When something is published next.
    pub next_tick: u64,
    pub next_book: u64,
    pub next_eps: u64,
}

/// The engine.
#[derive(Debug)]
pub struct Engine {
    cfg: EngineConfig,
    lock: SymbolLock,
    book: HotOrderBook<BOOK_DEPTH>,
    spread: SpreadTracker,
    vpin: VpinCalculator,
    breaker: CircuitBreaker,
    chaos_chain: ChaosChain,
    seq: u64,
    events_in_window: u64,
    trades_in_window: u64,
    window_started_ns: u64,
    last_vpin: Fraction,
    last_imbalance: SignedFraction,
    last_blowout_ratio: Fraction,
    prev_mid_ticks: u64,
    last_mid_drift: Fraction,
    last_eps: u64,
    last_trade_vel: Fraction,
    apply_stats: StageStats,
    analytics_stats: StageStats,
    risk_stats: StageStats,
    wire_stats: StageStats,
    histo: ApplyHisto,
    next_tick: u64,
    next_book: u64,
    next_eps: u64,
}

impl View for Engine {
    type V = EngineState;

    closed spec fn view(&self) -> EngineState {
        EngineState {
            cfg: self.cfg,
            lock: self.lock@,
            book: self.book,
            spread: self.spread,
            vpin: self.vpin,
            breaker: self.breaker,
            chain: self.chaos_chain,
            seq: self.seq,
            events: self.events_in_window,
            trades: self.trades_in_window,
            window_started_ns: self.window_started_ns,
            last_vpin: self.last_vpin,
            last_imbalance: self.last_imbalance,
            last_blowout: self.last_blowout_ratio,
            prev_mid: self.prev_mid_ticks,
            last_drift: self.last_mid_drift,
            last_eps: self.last_eps,
            last_velocity: self.last_trade_vel,
            apply_ns: self.apply_stats@,
            analytics_ns: self.analytics_stats@,
            risk_ns: self.risk_stats@,
            wire_ns: self.wire_stats@,
            histo: self.histo@,
            next_tick: self.next_tick,
            next_book: self.next_book,
            next_eps: self.next_eps,
        }
    }
}

/// The best price of sorted levels, zero without any.
pub open spec fn best_or_zero(s: Seq<model::Level>) -> u64 {
    if s.len() > 0 {
        s[0].price
    } else {
        0
    }
}

/// The quantity at the best price of sorted levels, zero without any.
pub open spec fn size_or_zero(s: Seq<model::Level>) -> u64 {
    if s.len() > 0 {
        s[0].total_qty
    } else {
        0
    }
}

/// The frame of a flag.
pub open spec fn chaos_frame(seq: u64, f: ChaosEvent) -> ChaosFrame {
    ChaosFrame {
        seq,
        kind: f.kind,
        severity: f.severity,
        start_seq: f.start_seq,
        end_seq: f.end_seq,
        initiator: f.initiator,
    }
}

/// What the detectors said.
#[derive(Debug)]
pub struct Detection {
    /// The flags to publish.
    pub frames: Vec<ChaosFrame>,
    /// The rate of cancels that belongs to the usual level.
    pub learn: Option<RateSample>,
}

/// The event as the detectors see it.
pub open spec fn sequenced(seq: u64, e: Event) -> SequencedEvent {
    SequencedEvent { seq, channel_id: 0, event: e }
}

/// The volume measure after an event, and its value if a bucket became full.
pub open spec fn vpin_after(v: VpinCalculator, e: Event, p: Option<Print>) -> (vpin::VpinModel, Option<Fraction>) {
    if e.event_type != event::event_code(EventType::Trade) {
        (v@, None)
    } else {
        match p {
            Some(x) => {
                let n = vpin::vpin_step(v@, v.size(), v.kept(), x.qty, x.aggressor);
                (n, vpin::completed(v@, n, v.size(), x.qty))
            },
            None => if e.side <= 1 {
                let n = vpin::vpin_step(
                    v@,
                    v.size(),
                    v.kept(),
                    e.qty,
                    if e.side == 0 {
                        1i8
                    } else {
                        -1i8
                    },
                );
                (n, vpin::completed(v@, n, v.size(), e.qty))
            } else {
                (v@, None)
            },
        }
    }
}

/// The figures of a second.
#[derive(Debug, Clone, Copy, PartialEq, Eq, Structural)]
pub struct WindowReport {
    pub best_bid: u64,
    pub best_ask: u64,
    pub events_per_sec: u64,
    /// Trades per second.
    pub trade_velocity: Fraction,
    /// How far the mid moved, as a part of itself.
    pub mid_drift: Fraction,
    pub crossed: bool,
}

/// How long a second really was.
pub open spec fn elapsed_of(started_ns: u64, now_ns: u64) -> u64 {
    let e = now_ns.saturating_sub(started_ns);
    if e < SHORTEST_NS {
        SHORTEST_NS
    } else {
        e
    }
}

/// A count per second, rounded down.
pub open spec fn per_second(n: u64, elapsed_ns: u64) -> u64 {
    let r = n * SECOND / (elapsed_ns as int);
    if r > u64::MAX {
        u64::MAX
    } else {
        r as u64
    }
}

/// The middle of two prices, zero unless both are there.
pub open spec fn mid_of(bid: u64, ask: u64) -> u64 {
    if bid > 0 && ask > 0 {
        ((bid + ask) / 2) as u64
    } else {
        0
    }
}

/// How far the mid moved, as a part of itself; nothing unless both are known.
pub open spec fn drift_of(prev: u64, mid: u64) -> Fraction {
    if mid > 0 && prev > 0 {
        Fraction {
            num: (if mid >= prev {
                mid - prev
            } else {
                prev - mid
            }) as u128,
            den: mid as u128,
        }
    } else {
        Fraction { num: 0, den: 1 }
    }
}

/// The figures of the second that ends now.
pub open spec fn report_of(s: EngineState, now_ns: u64) -> WindowReport {
    let elapsed = elapsed_of(s.window_started_ns, now_ns);
    let bid = best_or_zero(s.book.bid_seq());
    let ask = best_or_zero(s.book.ask_seq());
    WindowReport {
        best_bid: bid,
        best_ask: ask,
        events_per_sec: per_second(s.events, elapsed),
        trade_velocity: Fraction { num: (s.trades * SECOND) as u128, den: elapsed as u128 },
        mid_drift: drift_of(s.prev_mid, mid_of(bid, ask)),
        crossed: bid > 0 && ask > 0 && bid >= ask,
    }
}

/// The engine after a second was summed up.
pub open spec fn rolled(s: EngineState, now_ns: u64) -> EngineState {
    let r = report_of(s, now_ns);
    let mid = mid_of(r.best_bid, r.best_ask);
    EngineState {
        last_eps: r.events_per_sec,
        last_velocity: r.trade_velocity,
        last_drift: r.mid_drift,
        prev_mid: if mid > 0 {
            mid
        } else {
            s.prev_mid
        },
        events: 0,
        trades: 0,
        window_started_ns: now_ns,
        next_eps: now_ns.saturating_add(SECOND),
        ..s
    }
}

/// Both sides are there and in order.
pub open spec fn two_sided(bid: u64, ask: u64) -> bool {
    0 < bid < ask
}

/// The mid weighted by the size on the other side: a heavy bid pulls it to the
/// ask.
pub open spec fn microprice_of(bid: u64, ask: u64, bid_size: u64, ask_size: u64) -> int {
    if two_sided(bid, ask) {
        if bid_size + ask_size > 0 {
            (bid * ask_size + ask * bid_size) / (bid_size + ask_size)
        } else {
            (bid + ask) / 2
        }
    } else {
        0
    }
}

/// The market at a glance.
pub open spec fn tick_of(s: EngineState, event_ns: u64, process_ns: u64, dropped: u64) -> TickFrame {
    let bid = best_or_zero(s.book.bid_seq());
    let ask = best_or_zero(s.book.ask_seq());
    let ok = two_sided(bid, ask);
    let mid = if ok {
        (bid + ask) / 2
    } else {
        0
    };
    let spread = if ok {
        ask - bid
    } else {
        0
    };
    TickFrame {
        seq: s.seq,
        event_time_ns: event_ns,
        process_time_ns: process_ns,
        mid_ticks: mid as i64,
        spread_ticks: spread as i64,
        microprice_ticks: microprice_of(
            bid,
            ask,
            size_or_zero(s.book.bid_seq()),
            size_or_zero(s.book.ask_seq()),
        ) as i64,
        spread_bps: if ok {
            Fraction { num: (spread * 10_000) as u128, den: mid as u128 }
        } else {
            Fraction { num: 0, den: 1 }
        },
        bid_depth: hot_book::depth_of(s.book.bid_seq(), s.cfg.depth_levels as nat) as u64,
        ask_depth: hot_book::depth_of(s.book.ask_seq(), s.cfg.depth_levels as nat) as u64,
        imbalance: s.last_imbalance,
        vpin: s.last_vpin,
        trade_velocity: s.last_velocity,
        events_per_sec: s.last_eps,
        dropped_total: dropped,
        book_crossed: bid > 0 && ask > 0 && bid >= ask,
    }
}

/// All quantities of the book add up within a number.
pub open spec fn depth_ok(b: HotOrderBook<BOOK_DEPTH>) -> bool {
    hot_book::depth_of(b.bid_seq(), b.bid_seq().len()) + hot_book::depth_of(
        b.ask_seq(),
        b.ask_seq().len(),
    ) <= u64::MAX
}

/// The analytics have room for an event, the book being as it is after it.
pub open spec fn analytics_fit(s: EngineState, e: Event) -> bool {
    &&& s.trades < u64::MAX
    &&& s.vpin@.buy + s.vpin@.sell + e.qty <= u64::MAX
    &&& depth_ok(s.book)
    &&& hot_book::spread_of(s.book.bid_seq(), s.book.ask_seq()) matches Some(x) ==> rolling::total(
        s.spread.spreads(),
    ) + x <= u64::MAX
}

/// The best prices add up within a signed number.
pub open spec fn prices_fit(b: HotOrderBook<BOOK_DEPTH>) -> bool {
    best_or_zero(b.bid_seq()) + best_or_zero(b.ask_seq()) <= i64::MAX
}

/// The first `n` levels of a ladder, as they are published.
pub open spec fn ladder_frame(s: Seq<model::Level>, n: nat) -> Seq<Level> {
    Seq::new(
        if s.len() < n {
            s.len()
        } else {
            n
        },
        |i: int| Level { price_ticks: s[i].price, qty: s[i].total_qty, order_count: s[i].order_count },
    )
}

impl Engine {
    /// Every part is sound.
    pub closed spec fn wf(&self) -> bool {
        &&& self.lock.wf()
        &&& self.book.wf()
        &&& self.spread.wf()
        &&& self.vpin.wf()
        &&& self.breaker.wf()
        &&& self.chaos_chain.wf()
        &&& self.apply_stats.wf()
        &&& self.analytics_stats.wf()
        &&& self.risk_stats.wf()
        &&& self.wire_stats.wf()
        &&& self.apply_stats.size() == STAGE_WINDOW
        &&& self.analytics_stats.size() == STAGE_WINDOW
        &&& self.risk_stats.size() == STAGE_WINDOW
        &&& self.wire_stats.size() == STAGE_WINDOW
        &&& self.histo.wf()
        &&& self.cfg.tick_publish_hz > 0
        &&& self.cfg.book_publish_hz > 0
    }

    /// What a sound engine is made of: a sound book, sound analytics, a sound
    /// breaker and sound detectors, and rates that are not zero.
    pub proof fn lemma_wf(&self)
        requires
            self.wf(),
        ensures
            self@.book.wf(),
            self@.spread.wf(),
            self@.vpin.wf(),
            self@.breaker.wf(),
            self@.chain.wf(),
            self@.histo.len() == crate::log_bins::N_BINS,
            self@.cfg.tick_publish_hz > 0,
            self@.cfg.book_publish_hz > 0,
    {
    }

    /// An engine that begins.
    pub fn new(cfg: EngineConfig, now_ns: u64) -> (e: Self)
        requires
            cfg.tick_publish_hz > 0,
            cfg.book_publish_hz > 0,
        ensures
            e.wf(),
            e@.cfg == cfg,
            e@.lock == (LockModel {
                pinned: cfg.track_instrument,
                threshold: cfg.auto_lock_threshold,
                followed: cfg.track_instrument,
                counts: Map::empty(),
                last_trade_ns: None,
            }),
            e@.book@ == model::BookModel::empty(),
            e@.book.instrument() == cfg.instrument_id,
            e@.spread.size() == cfg.spread_window,
            e@.spread.spreads() == Seq::<u64>::empty(),
            e@.vpin.size() == cfg.vpin_bucket,
            e@.vpin.kept() == cfg.vpin_buckets,
            e@.vpin@ == (vpin::VpinModel { buy: 0, sell: 0, diffs: Seq::empty() }),
            e@.breaker.config() == circuit_breaker::default_limits(),
            e@.breaker@ == circuit_breaker::fresh_breaker(e@.breaker.config(), now_ns),
            e@.last_vpin == (Fraction { num: 0, den: 1 }),
            e@.last_imbalance == (SignedFraction { num: 0, den: 1 }),
            e@.last_blowout == (Fraction { num: 0, den: 1 }),
            e@.last_drift == (Fraction { num: 0, den: 1 }),
            e@.last_velocity == (Fraction { num: 0, den: 1 }),
            e@.last_eps == 0,
            e@.prev_mid == 0,
            e@.apply_ns == Seq::<u64>::empty(),
            e@.analytics_ns == Seq::<u64>::empty(),
            e@.risk_ns == Seq::<u64>::empty(),
            e@.wire_ns == Seq::<u64>::empty(),
            e@.histo == Seq::new(crate::log_bins::N_BINS as nat, |i: int| 0u64),
            e@.chain@ == chain::fresh_chain(),
            e@.chain.config() == chain::itch_limits(),
            e@.seq == 0,
            e@.events == 0,
            e@.trades == 0,
            e@.window_started_ns == now_ns,
            e@.next_tick == now_ns.saturating_add(config::period_of(cfg.tick_publish_hz)),
            e@.next_book == now_ns.saturating_add(config::period_of(cfg.book_publish_hz)),
            e@.next_eps == now_ns.saturating_add(SECOND),
    {
        let none: Fraction = Fraction { num: 0, den: 1 };
        Engine {
            cfg,
            lock: SymbolLock::new(cfg.track_instrument, cfg.auto_lock_threshold),
            book: HotOrderBook::new(cfg.instrument_id),
            spread: SpreadTracker::new(cfg.spread_window),
            vpin: VpinCalculator::new(cfg.vpin_bucket, cfg.vpin_buckets),
            breaker: CircuitBreaker::new(BreakerConfig::default(), now_ns),
            chaos_chain: ChaosChain::default_itch(),
            seq: 0,
            events_in_window: 0,
            trades_in_window: 0,
            window_started_ns: now_ns,
            last_vpin: none,
            last_imbalance: SignedFraction { num: 0, den: 1 },
            last_blowout_ratio: none,
            prev_mid_ticks: 0,
            last_mid_drift: none,
            last_eps: 0,
            last_trade_vel: none,
            apply_stats: StageStats::new(STAGE_WINDOW),
            analytics_stats: StageStats::new(STAGE_WINDOW),
            risk_stats: StageStats::new(STAGE_WINDOW),
            wire_stats: StageStats::new(STAGE_WINDOW),
            histo: ApplyHisto::new(),
            next_tick: now_ns.saturating_add(period_ns(cfg.tick_publish_hz)),
            next_book: now_ns.saturating_add(period_ns(cfg.book_publish_hz)),
            next_eps: now_ns.saturating_add(SECOND),
        }
    }

    /// The instrument that is followed.
    pub fn followed(&self) -> (t: Option<u32>)
        ensures
            t == self@.lock.followed,
    {
        self.lock.followed()
    }

    /// The latest sequence number.
    pub fn seq(&self) -> (n: u64)
        ensures
            n == self@.seq,
    {
        self.seq
    }

    /// Whether an event is of interest. A new instrument gets a new book.
    pub fn gate(&mut self, ev: &Event, now_ns: u64) -> (g: Gate)
        requires
            old(self).wf(),
        ensures
            final(self).wf(),
            ({
                let (l, x) = symbol_lock::lock_step(old(self)@.lock, *ev, now_ns);
                &&& g == x
                &&& final(self)@ == (EngineState { lock: l, book: final(self)@.book, ..old(self)@ })
            }),
            g is Locked ==> final(self)@.book@ == model::BookModel::empty() && final(self)@.book.instrument()
                == ev.instrument_id,
            !(g is Locked) ==> final(self)@.book == old(self)@.book,
    {
        let g: Gate = self.lock.step(ev, now_ns);
        if let Gate::Locked(_) = g {
            self.book = HotOrderBook::new(ev.instrument_id);
        }
        g
    }

    fn best(&self) -> (r: (u64, u64))
        requires
            self.wf(),
        ensures
            r.0 == best_or_zero(self@.book.bid_seq()),
            r.1 == best_or_zero(self@.book.ask_seq()),
    {
        let bid: u64 = match self.book.best_bid() {
            Some(p) => p,
            None => 0,
        };
        let ask: u64 = match self.book.best_ask() {
            Some(p) => p,
            None => 0,
        };
        (bid, ask)
    }

    /// Takes an event up: numbers it, counts it, and tells who started it if it
    /// is a trade, by the book before it.
    pub fn open_turn(&mut self, ev: &Event) -> (p: Option<Print>)
        requires
            old(self).wf(),
            old(self)@.events < u64::MAX,
        ensures
            final(self).wf(),
            final(self)@ == (EngineState {
                seq: old(self)@.seq.wrapping_add(1),
                events: (old(self)@.events + 1) as u64,
                ..old(self)@
            }),
            p == print::print_of(
                *ev,
                best_or_zero(old(self)@.book.bid_seq()),
                best_or_zero(old(self)@.book.ask_seq()),
            ),
    {
        self.seq = self.seq.wrapping_add(1);
        self.events_in_window = self.events_in_window + 1;
        let (bid, ask): (u64, u64) = self.best();
        tag_trade(ev, bid, ask)
    }

    /// Whether there is room for an event in the book.
    pub fn can_apply(&self, ev: &Event) -> (b: bool)
        requires
            self.wf(),
        ensures
            b == (hot_book::room_for(self@.book@, *ev) && self@.events < u64::MAX),
            b ==> hot_book::hot_fits(self@.book@, *ev),
    {
        self.events_in_window < u64::MAX && self.book.has_room(ev)
    }

    /// Applies an event to the book.
    pub fn apply(&mut self, ev: &Event) -> (changed: bool)
        requires
            old(self).wf(),
            hot_book::hot_fits(old(self)@.book@, *ev),
        ensures
            final(self).wf(),
            final(self)@ == (EngineState { book: final(self)@.book, ..old(self)@ }),
            (final(self)@.book@, changed) == hot_book::hot_apply(old(self)@.book@, *ev, BOOK_DEPTH as nat),
    {
        self.book.apply(ev)
    }

    /// Whether all detectors can take an event.
    pub fn can_detect(&self, ev: &Event) -> (b: bool)
        requires
            self.wf(),
        ensures
            b == chain::chain_ready(self@.chain@, sequenced(self@.seq, *ev)),
    {
        self.chaos_chain.is_ready(&SequencedEvent { seq: self.seq, channel_id: 0, event: *ev })
    }

    /// The rate of cancels that an event leads to, to be judged from outside.
    pub fn storm_preview(&self, ev: &Event) -> (r: Option<RateSample>)
        requires
            self.wf(),
            chain::chain_ready(self@.chain@, sequenced(self@.seq, *ev)),
        ensures
            r == cancellation_storm::rate_after(
                self@.chain@.storm.window,
                self@.chain.config().storm,
                sequenced(self@.seq, *ev),
            ),
    {
        self.chaos_chain.storm_preview(&SequencedEvent { seq: self.seq, channel_id: 0, event: *ev })
    }

    /// Feeds an event to the detectors.
    pub fn detect(&mut self, ev: &Event, verdict: StormVerdict) -> (d: Detection)
        requires
            old(self).wf(),
            chain::chain_ready(old(self)@.chain@, sequenced(old(self)@.seq, *ev)),
        ensures
            final(self).wf(),
            final(self)@ == (EngineState { chain: final(self)@.chain, ..old(self)@ }),
            final(self)@.chain.config() == old(self)@.chain.config(),
            ({
                let o = chain::chain_step(
                    old(self)@.chain@,
                    old(self)@.chain.config(),
                    sequenced(old(self)@.seq, *ev),
                    verdict,
                );
                &&& final(self)@.chain@ == o.next
                &&& d.learn == o.learn
                &&& d.frames@ == o.flags.map_values(|f: ChaosEvent| chaos_frame(old(self)@.seq, f))
            }),
    {
        let e: SequencedEvent = SequencedEvent { seq: self.seq, channel_id: 0, event: *ev };
        let (flags, learn) = self.chaos_chain.process(&e, verdict);
        let mut frames: Vec<ChaosFrame> = Vec::new();
        let ghost seq = self.seq;
        let mut i: usize = 0;
        while i < flags.len()
            invariant
                seq == self.seq,
                i <= flags@.len(),
                frames@ == flags@.take(i as int).map_values(|f: ChaosEvent| chaos_frame(seq, f)),
            decreases flags@.len() - i,
        {
            let f: ChaosEvent = flags[i];
            frames.push(
                ChaosFrame {
                    seq: self.seq,
                    kind: f.kind,
                    severity: f.severity,
                    start_seq: f.start_seq,
                    end_seq: f.end_seq,
                    initiator: f.initiator,
                },
            );
            i += 1;
            assert(frames@ =~= flags@.take(i as int).map_values(|f: ChaosEvent| chaos_frame(seq, f)));
        }
        assert(flags@.take(i as int) =~= flags@);
        Detection { frames, learn }
    }

    /// Whether the analytics have room for an event that was applied.
    pub fn can_analyse(&self, ev: &Event) -> (b: bool)
        requires
            self.wf(),
        ensures
            b == analytics_fit(self@, *ev),
    {
        self.trades_in_window < u64::MAX && self.vpin.has_room(ev.qty) && self.book.depth_fits()
            && self.spread.has_room(&self.book)
    }

    /// Takes an event that was applied into the figures. Its trade, if it is
    /// one, was told by the book before it.
    pub fn analyse(&mut self, ev: &Event, p: Option<Print>)
        requires
            old(self).wf(),
            analytics_fit(old(self)@, *ev),
            p matches Some(x) ==> x.qty == ev.qty,
        ensures
            final(self).wf(),
            ({
                let s = old(self)@;
                let t = final(self)@;
                let v = vpin_after(s.vpin, *ev, p);
                let is_trade = ev.event_type == event::event_code(EventType::Trade);
                &&& t == (EngineState {
                    vpin: t.vpin,
                    spread: t.spread,
                    trades: if is_trade {
                        (s.trades + 1) as u64
                    } else {
                        s.trades
                    },
                    last_vpin: match v.1 {
                        Some(x) => x,
                        None => s.last_vpin,
                    },
                    last_imbalance: imbalance::imbalance_of(
                        hot_book::depth_of(s.book.bid_seq(), s.cfg.depth_levels as nat),
                        hot_book::depth_of(s.book.ask_seq(), s.cfg.depth_levels as nat),
                    ),
                    last_blowout: t.last_blowout,
                    ..s
                })
                &&& t.vpin@ == v.0
                &&& t.vpin.size() == s.vpin.size()
                &&& t.vpin.kept() == s.vpin.kept()
                &&& t.spread.size() == s.spread.size()
                &&& match hot_book::spread_of(s.book.bid_seq(), s.book.ask_seq()) {
                    None => t.spread.spreads() == s.spread.spreads() && t.last_blowout == s.last_blowout,
                    Some(x) => {
                        &&& t.spread.spreads() == rolling::slide(s.spread.spreads(), s.spread.size(), x)
                        &&& t.last_blowout == spread::metrics_of(t.spread.spreads(), x).blowout_ratio
                    },
                }
            }),
    {
        if ev.event_type == EventType::Trade.code() {
            self.trades_in_window = self.trades_in_window + 1;
            let v: Option<Fraction> = match p {
                Some(x) => self.vpin.process_trade_signed(x.qty, x.aggressor),
                None => self.vpin.process_trade(ev),
            };
            if let Some(x) = v {
                self.last_vpin = x;
            }
        }
        self.last_imbalance = book_imbalance(&self.book, self.cfg.depth_levels);
        if let Some(m) = self.spread.record(&self.book) {
            self.last_blowout_ratio = m.blowout_ratio;
        }
    }

    /// The rolling ratio of the spread to its mean.
    pub fn blowout_ratio(&self) -> (f: Fraction)
        ensures
            f == self@.last_blowout,
    {
        self.last_blowout_ratio
    }

    /// The latest share of buyer-or-seller excess in the traded volume.
    pub fn vpin(&self) -> (f: Fraction)
        ensures
            f == self@.last_vpin,
    {
        self.last_vpin
    }

    /// The latest excess of one side of the book over the other.
    pub fn imbalance(&self) -> (f: SignedFraction)
        ensures
            f == self@.last_imbalance,
    {
        self.last_imbalance
    }

    /// How far the mid moved over the last second, as a part of itself.
    pub fn mid_drift(&self) -> (f: Fraction)
        ensures
            f == self@.last_drift,
    {
        self.last_mid_drift
    }

    /// The frame of a trade.
    pub fn trade_frame(&self, p: Print) -> (f: TradeFrame)
        ensures
            f == (TradeFrame {
                seq: self@.seq,
                ts_ns: p.ts,
                price_ticks: p.price,
                qty: p.qty,
                aggressor: p.aggressor,
            }),
    {
        TradeFrame {
            seq: self.seq,
            ts_ns: p.ts,
            price_ticks: p.price,
            qty: p.qty,
            aggressor: p.aggressor,
        }
    }

    /// Notes how long applying an event took.
    pub fn note_apply(&mut self, ns: u64)
        requires
            old(self).wf(),
        ensures
            final(self).wf(),
            final(self)@ == (EngineState {
                apply_ns: rolling::slide(old(self)@.apply_ns, STAGE_WINDOW as nat, ns),
                histo: histo::histo_with(old(self)@.histo, ns),
                ..old(self)@
            }),
    {
        self.apply_stats.push(ns);
        self.histo.record(ns);
    }

    /// Notes how long the analytics took.
    pub fn note_analytics(&mut self, ns: u64)
        requires
            old(self).wf(),
        ensures
            final(self).wf(),
            final(self)@ == (EngineState {
                analytics_ns: rolling::slide(old(self)@.analytics_ns, STAGE_WINDOW as nat, ns),
                ..old(self)@
            }),
    {
        self.analytics_stats.push(ns);
    }

    /// Notes how long the risk gate took.
    pub fn note_risk(&mut self, ns: u64)
        requires
            old(self).wf(),
        ensures
            final(self).wf(),
            final(self)@ == (EngineState {
                risk_ns: rolling::slide(old(self)@.risk_ns, STAGE_WINDOW as nat, ns),
                ..old(self)@
            }),
    {
        self.risk_stats.push(ns);
    }

    /// Notes how long publishing took.
    pub fn note_wire(&mut self, ns: u64)
        requires
            old(self).wf(),
        ensures
            final(self).wf(),
            final(self)@ == (EngineState {
                wire_ns: rolling::slide(old(self)@.wire_ns, STAGE_WINDOW as nat, ns),
                ..old(self)@
            }),
    {
        self.wire_stats.push(ns);
    }

    /// Sums a second up, if it is over.
    pub fn roll_window(&mut self, now_ns: u64) -> (r: Option<WindowReport>)
        requires
            old(self).wf(),
        ensures
            final(self).wf(),
            r is Some <==> now_ns >= old(self)@.next_eps,
            match r {
                None => final(self)@ == old(self)@,
                Some(x) => x == report_of(old(self)@, now_ns) && final(self)@ == rolled(old(self)@, now_ns),
            },
    {
        if now_ns < self.next_eps {
            return None;
        }
        let since: u64 = now_ns.saturating_sub(self.window_started_ns);
        let elapsed: u64 = if since < SHORTEST_NS {
            SHORTEST_NS
        } else {
            since
        };
        let events: u64 = self.events_in_window;
        let trades: u64 = self.trades_in_window;
        assert(events * SECOND <= 0xffff_ffff_ffff_ffff * 1_000_000_000);
        assert(trades * SECOND <= 0xffff_ffff_ffff_ffff * 1_000_000_000);
        let wide: u128 = events as u128 * SECOND as u128 / elapsed as u128;
        let eps: u64 = if wide > u64::MAX as u128 {
            u64::MAX
        } else {
            wide as u64
        };
        let velocity: Fraction = Fraction {
            num: trades as u128 * SECOND as u128,
            den: elapsed as u128,
        };
        let (bid, ask): (u64, u64) = self.best();
        let mid: u64 = if bid > 0 && ask > 0 {
            ((bid as u128 + ask as u128) / 2) as u64
        } else {
            0
        };
        let prev: u64 = self.prev_mid_ticks;
        let drift: Fraction = if mid > 0 && prev > 0 {
            Fraction {
                num: if mid >= prev {
                    (mid - prev) as u128
                } else {
                    (prev - mid) as u128
                },
                den: mid as u128,
            }
        } else {
            Fraction { num: 0, den: 1 }
        };
        self.last_eps = eps;
        self.last_trade_vel = velocity;
        self.last_mid_drift = drift;
        if mid > 0 {
            self.prev_mid_ticks = mid;
        }
        self.events_in_window = 0;
        self.trades_in_window = 0;
        self.window_started_ns = now_ns;
        self.next_eps = now_ns.saturating_add(SECOND);
        Some(
            WindowReport {
                best_bid: bid,
                best_ask: ask,
                events_per_sec: eps,
                trade_velocity: velocity,
                mid_drift: drift,
                crossed: bid > 0 && ask > 0 && bid >= ask,
            },
        )
    }

    /// Whether a tick is due, and if so, when the next one is.
    pub fn tick_due(&mut self, now_ns: u64) -> (b: bool)
        requires
            old(self).wf(),
        ensures
            final(self).wf(),
            b == (now_ns >= old(self)@.next_tick),
            final(self)@ == (EngineState {
                next_tick: if b {
                    now_ns.saturating_add(config::period_of(old(self)@.cfg.tick_publish_hz))
                } else {
                    old(self)@.next_tick
                },
                ..old(self)@
            }),
    {
        if now_ns < self.next_tick {
            return false;
        }
        self.next_tick = now_ns.saturating_add(period_ns(self.cfg.tick_publish_hz));
        true
    }

    /// Whether a ladder is due, and if so, when the next one is.
    pub fn book_due(&mut self, now_ns: u64) -> (b: bool)
        requires
            old(self).wf(),
        ensures
            final(self).wf(),
            b == (now_ns >= old(self)@.next_book),
            final(self)@ == (EngineState {
                next_book: if b {
                    now_ns.saturating_add(config::period_of(old(self)@.cfg.book_publish_hz))
                } else {
                    old(self)@.next_book
                },
                ..old(self)@
            }),
    {
        if now_ns < self.next_book {
            return false;
        }
        self.next_book = now_ns.saturating_add(period_ns(self.cfg.book_publish_hz));
        true
    }

    /// Whether the market can be told at a glance in signed numbers.
    pub fn can_tick(&self) -> (b: bool)
        requires
            self.wf(),
        ensures
            b == (prices_fit(self@.book) && depth_ok(self@.book)),
    {
        let (bid, ask): (u64, u64) = self.best();
        bid <= i64::MAX as u64 && ask <= i64::MAX as u64 - bid && self.book.depth_fits()
    }

    /// The market at a glance.
    pub fn build_tick(&self, event_ns: u64, process_ns: u64, dropped: u64) -> (f: TickFrame)
        requires
            self.wf(),
            prices_fit(self@.book),
            depth_ok(self@.book),
        ensures
            f == tick_of(self@, event_ns, process_ns, dropped),
    {
        let (bid, ask): (u64, u64) = self.best();
        let ok: bool = 0 < bid && bid < ask;
        let mid: u64 = if ok {
            (bid + ask) / 2
        } else {
            0
        };
        let spread: u64 = if ok {
            ask - bid
        } else {
            0
        };
        let bsz: u64 = self.book.best_bid_size();
        let asz: u64 = self.book.best_ask_size();
        let micro: u64 = if ok {
            weighted_mid(bid, ask, bsz, asz)
        } else {
            0
        };
        proof {
            hot_book::lemma_depth_total(self@.book.bid_seq(), self@.cfg.depth_levels as nat);
            hot_book::lemma_depth_total(self@.book.ask_seq(), self@.cfg.depth_levels as nat);
        }
        TickFrame {
            seq: self.seq,
            event_time_ns: event_ns,
            process_time_ns: process_ns,
            mid_ticks: mid as i64,
            spread_ticks: spread as i64,
            microprice_ticks: micro as i64,
            spread_bps: if ok {
                Fraction { num: spread as u128 * 10_000, den: mid as u128 }
            } else {
                Fraction { num: 0, den: 1 }
            },
            bid_depth: self.book.bid_depth(self.cfg.depth_levels),
            ask_depth: self.book.ask_depth(self.cfg.depth_levels),
            imbalance: self.last_imbalance,
            vpin: self.last_vpin,
            trade_velocity: self.last_trade_vel,
            events_per_sec: self.last_eps,
            dropped_total: dropped,
            book_crossed: bid > 0 && ask > 0 && bid >= ask,
        }
    }

    /// The market at a glance as far as it is worth telling: nothing without a
    /// mid.
    pub fn tick_to_publish(&self, event_ns: u64, process_ns: u64, dropped: u64) -> (f: Option<TickFrame>)
        requires
            self.wf(),
            prices_fit(self@.book),
            depth_ok(self@.book),
        ensures
            f == (if two_sided(best_or_zero(self@.book.bid_seq()), best_or_zero(self@.book.ask_seq())) {
                Some(tick_of(self@, event_ns, process_ns, dropped))
            } else {
                None
            }),
    {
        let f: TickFrame = self.build_tick(event_ns, process_ns, dropped);
        if f.mid_ticks > 0 {
            Some(f)
        } else {
            None
        }
    }

    /// The counters of the risk gate.
    pub fn build_risk(&self) -> (f: RiskFrame)
        requires
            self.wf(),
        ensures
            ({
                let b = self@.breaker@;
                f == (RiskFrame {
                    halted: b.halt is Some,
                    reason: b.halt,
                    orders_sent: b.orders,
                    trades_done: b.trades,
                    otr_ratio: Fraction {
                        num: b.orders as u128,
                        den: if b.trades == 0 {
                            1
                        } else {
                            b.trades as u128
                        },
                    },
                    otr_limit: Ratio { num: 100, den: 1 },
                    net_position: b.net as i64,
                    position_limit: 10_000,
                    cash_flow_ticks: b.cash as i64,
                    daily_loss_floor_ticks: 5_000_000_000,
                    gaps_in_window: b.gaps.len() as usize,
                    gap_threshold: 16,
                })
            }),
    {
        let snap: BreakerSnapshot = self.breaker.snapshot();
        let cfg: BreakerConfig = BreakerConfig::default();
        RiskFrame {
            halted: snap.halted,
            reason: snap.reason,
            orders_sent: snap.orders_sent,
            trades_done: snap.trades_done,
            otr_ratio: Fraction {
                num: snap.orders_sent as u128,
                den: if snap.trades_done == 0 {
                    1
                } else {
                    snap.trades_done as u128
                },
            },
            otr_limit: match cfg.max_order_to_trade_ratio {
                Some(r) => r,
                None => Ratio { num: 0, den: 1 },
            },
            net_position: snap.net_position,
            position_limit: match cfg.max_position {
                Some(n) => n,
                None => 0,
            },
            cash_flow_ticks: snap.cash_flow_ticks,
            daily_loss_floor_ticks: match cfg.max_daily_loss_ticks {
                Some(n) => n,
                None => 0,
            },
            gaps_in_window: snap.gaps_in_window,
            gap_threshold: match cfg.gap_threshold {
                Some(n) => n,
                None => 0,
            },
        }
    }

    /// How long the stages take. Parsing is not part of the engine.
    pub fn build_lat(&self) -> (f: LatFrame)
        requires
            self.wf(),
        ensures
            f.parse == wire::no_lat(),
            f.apply == stage_stats::lat_of(self@.apply_ns),
            f.analytics == stage_stats::lat_of(self@.analytics_ns),
            f.risk == stage_stats::lat_of(self@.risk_ns),
            f.wire_out == stage_stats::lat_of(self@.wire_ns),
            f.histo_apply@ == self@.histo,
    {
        LatFrame {
            parse: StageLat::default(),
            apply: self.apply_stats.snapshot(),
            analytics: self.analytics_stats.snapshot(),
            risk: self.risk_stats.snapshot(),
            wire_out: self.wire_stats.snapshot(),
            histo_apply: self.histo.counts(),
        }
    }

    /// The best levels of both sides.
    pub fn build_book(&self) -> (f: BookFrame)
        requires
            self.wf(),
        ensures
            f.seq == self@.seq,
            f.bids@ == ladder_frame(self@.book.bid_seq(), self@.cfg.depth_levels as nat),
            f.asks@ == ladder_frame(self@.book.ask_seq(), self@.cfg.depth_levels as nat),
    {
        BookFrame {
            seq: self.seq,
            bids: top_levels(self.book.bid_levels(), self.cfg.depth_levels),
            asks: top_levels(self.book.ask_levels(), self.cfg.depth_levels),
        }
    }
}

/// The mid weighted by the size on the other side.
fn weighted_mid(bid: u64, ask: u64, bid_size: u64, ask_size: u64) -> (m: u64)
    requires
        0 < bid < ask,
        bid + ask <= i64::MAX,
    ensures
        m == microprice_of(bid, ask, bid_size, ask_size),
        m <= ask,
{
    let total: u128 = bid_size as u128 + ask_size as u128;
    if total == 0 {
        return (bid + ask) / 2;
    }
    proof {
        let (b, a, x, y) = (bid as int, ask as int, bid_size as int, ask_size as int);
        assert(0 <= b * y <= a * y && 0 <= a * x && b * y + a * x <= a * (x + y)) by (nonlinear_arith)
            requires
                0 <= b <= a,
                0 <= x,
                0 <= y,
        ;
        assert(a * (x + y) <= 0x7fff_ffff_ffff_ffff * 0x1_ffff_ffff_ffff_fffe) by (nonlinear_arith)
            requires
                0 <= a <= 0x7fff_ffff_ffff_ffff,
                0 <= x + y <= 0x1_ffff_ffff_ffff_fffe,
        ;
        assert((b * y + a * x) / (x + y) <= a) by (nonlinear_arith)
            requires
                b * y + a * x <= a * (x + y),
                x + y > 0,
        ;
    }
    ((bid as u128 * ask_size as u128 + ask as u128 * bid_size as u128) / total) as u64
}

/// The first `n` levels, as they are published.
fn top_levels(levels: &[model::Level], n: usize) -> (r: Vec<Level>)
    ensures
        r@ == ladder_frame(levels@, n as nat),
{
    let top: usize = if levels.len() < n {
        levels.len()
    } else {
        n
    };
    let mut r: Vec<Level> = Vec::new();
    let mut i: usize = 0;
    while i < top
        invariant
            i <= top <= levels@.len(),
            r@.len() == i,
            forall|k: int|
                0 <= k < i ==> (#[trigger] r@[k]) == (Level {
                    price_ticks: levels@[k].price,
                    qty: levels@[k].total_qty,
                    order_count: levels@[k].order_count,
                }),
        decreases top - i,
    {
        let l: model::Level = levels[i];
        r.push(Level { price_ticks: l.price, qty: l.total_qty, order_count: l.order_count });
        i += 1;
    }
    assert(r@ =~= ladder_frame(levels@, n as nat));
    r
}

// ─── Laws ───────────────────────────────────────────────────────────

/// The weighted mid lies between bid and ask.
pub proof fn microprice_lies_between(bid: u64, ask: u64, bid_size: u64, ask_size: u64)
    requires
        two_sided(bid, ask),
    ensures
        bid <= microprice_of(bid, ask, bid_size, ask_size) <= ask,
{
    let (b, a, x, y) = (bid as int, ask as int, bid_size as int, ask_size as int);
    if x + y > 0 {
        let w = b * y + a * x;
        assert(b * (x + y) <= w <= a * (x + y)) by (nonlinear_arith)
            requires
                w == b * y + a * x,
                0 <= b <= a,
                0 <= x,
                0 <= y,
        ;
        assert(b <= w / (x + y) <= a) by (nonlinear_arith)
            requires
                b * (x + y) <= w <= a * (x + y),
                x + y > 0,
        ;
    }
}

/// How the weighted mids of two sizes compare, without the division.
proof fn lemma_cross(b: int, a: int, x: int, z: int, y: int)
    ensures
        (b * y + a * z) * (x + y) - (b * y + a * x) * (z + y) == (a - b) * (y * (z - x)),
{
    let (by, ax, az) = (b * y, a * x, a * z);
    vstd::arithmetic::mul::lemma_mul_is_distributive_add(by + az, x, y);
    vstd::arithmetic::mul::lemma_mul_is_distributive_add(by + ax, z, y);
    assert((by + az) * x == by * x + az * x && (by + az) * y == by * y + az * y) by (nonlinear_arith);
    assert((by + ax) * z == by * z + ax * z && (by + ax) * y == by * y + ax * y) by (nonlinear_arith);
    assert(az * x == ax * z) by (nonlinear_arith)
        requires
            az == a * z,
            ax == a * x,
    ;
    let d = y * (z - x);
    assert(d == y * z - y * x) by (nonlinear_arith)
        requires
            d == y * (z - x),
    ;
    assert((a - b) * d == a * d - b * d) by (nonlinear_arith);
    assert(a * d == az * y - ax * y) by (nonlinear_arith)
        requires
            d == y * z - y * x,
            az == a * z,
            ax == a * x,
    ;
    assert(b * d == by * z - by * x) by (nonlinear_arith)
        requires
            d == y * z - y * x,
            by == b * y,
    ;
}

/// The larger the bid, the closer the weighted mid is to the ask.
pub proof fn heavy_bids_pull_up(bid: u64, ask: u64, bid_size: u64, more: u64, ask_size: u64)
    requires
        two_sided(bid, ask),
        0 < bid_size <= more,
    ensures
        microprice_of(bid, ask, bid_size, ask_size) <= microprice_of(bid, ask, more, ask_size),
{
    let (b, a, x, z, y) = (bid as int, ask as int, bid_size as int, more as int, ask_size as int);
    let (v, w) = (b * y + a * x, b * y + a * z);
    let (d, e) = (x + y, z + y);
    assert(v * e <= w * d) by {
        lemma_cross(b, a, x, z, y);
        assert((a - b) * (y * (z - x)) >= 0) by (nonlinear_arith)
            requires
                a >= b,
                y >= 0,
                z >= x,
        ;
    }
    let (p, q) = (v / d, w / e);
    vstd::arithmetic::div_mod::lemma_fundamental_div_mod(v, d);
    vstd::arithmetic::div_mod::lemma_fundamental_div_mod(w, e);
    assert(p <= q) by (nonlinear_arith)
        requires
            d > 0,
            e > 0,
            v * e <= w * d,
            v == d * p + v % d,
            0 <= v % d,
            w == e * q + w % e,
            w % e < e,
    {
        if p >= q + 1 {
            assert(d * p >= d * (q + 1));
            assert(v * e >= d * (q + 1) * e);
            assert(w < e * (q + 1));
            assert(w * d < e * (q + 1) * d);
        }
    }
}

/// A book without two sides in order is told without a mid, spread or weighted
/// mid.
pub proof fn no_mid_without_two_sides(s: EngineState, event_ns: u64, process_ns: u64, dropped: u64)
    requires
        !two_sided(best_or_zero(s.book.bid_seq()), best_or_zero(s.book.ask_seq())),
    ensures
        ({
            let f = tick_of(s, event_ns, process_ns, dropped);
            f.mid_ticks == 0 && f.spread_ticks == 0 && f.microprice_ticks == 0
        }),
{
}

/// A rate is a count over the time it took, per second, rounded down.
pub proof fn rates_are_counts_over_time(n: u64, elapsed_ns: u64)
    requires
        elapsed_ns > 0,
        n * 1_000_000_000 < u64::MAX * elapsed_ns,
    ensures
        per_second(n, elapsed_ns) * elapsed_ns <= n * 1_000_000_000 < (per_second(n, elapsed_ns) + 1) * elapsed_ns,
{
    let (x, d) = (n * SECOND, elapsed_ns as int);
    let q = x / d;
    vstd::arithmetic::div_mod::lemma_fundamental_div_mod(x, d);
    vstd::arithmetic::div_mod::lemma_mod_bound(x, d);
    assert(0 <= q <= u64::MAX) by (nonlinear_arith)
        requires
            x == d * q + x % d,
            0 <= x % d < d,
            0 <= x < u64::MAX * d,
    ;
    assert(q * d <= x < (q + 1) * d) by (nonlinear_arith)
        requires
            x == d * q + x % d,
            0 <= x % d < d,
    ;
}

/// The drift is how far the mid moved either way, as a part of the mid now, and nothing
/// where either mid is not known.
pub proof fn drifts_are_moves_either_way(prev: u64, mid: u64)
    ensures
        prev > 0 && mid > 0 ==> drift_of(prev, mid).den == mid && (drift_of(prev, mid).num == mid - prev || drift_of(
            prev,
            mid,
        ).num == prev - mid),
        prev == 0 || mid == 0 ==> drift_of(prev, mid).num == 0 && drift_of(prev, mid).den > 0,
{
}

/// The middle of two prices lies half way, rounded down; there is none without both.
pub proof fn mids_lie_half_way(bid: u64, ask: u64)
    ensures
        bid > 0 && ask > 0 ==> 0 <= bid + ask - 2 * mid_of(bid, ask) <= 1,
        bid == 0 || ask == 0 ==> mid_of(bid, ask) == 0,
{
}

/// The weighted mid times all the size is the bid times what is offered and the ask times
/// what is bid for, up to less than that size.
pub proof fn microprices_weigh_by_the_other_side(bid: u64, ask: u64, bid_size: u64, ask_size: u64)
    requires
        0 < bid < ask,
        bid_size + ask_size > 0,
    ensures
        ({
            let m = microprice_of(bid, ask, bid_size, ask_size);
            let all = bid_size + ask_size;
            m * all <= bid * ask_size + ask * bid_size < (m + 1) * all
        }),
{
    let (x, d) = (bid * ask_size + ask * bid_size, bid_size + ask_size);
    let q = x / d;
    vstd::arithmetic::div_mod::lemma_fundamental_div_mod(x, d);
    vstd::arithmetic::div_mod::lemma_mod_bound(x, d);
    assert(q * d <= x < (q + 1) * d) by (nonlinear_arith)
        requires
            x == d * q + x % d,
            0 <= x % d < d,
    ;
}

/// What a second is summed up as: its events and trades over its length, the best prices,
/// whether they cross, and the drift since the last known mid. Then counting starts anew.
pub proof fn seconds_are_summed_up(s: EngineState, now_ns: u64)
    requires
        now_ns >= s.window_started_ns + SHORTEST_NS,
    ensures
        ({
            let r = report_of(s, now_ns);
            let n = rolled(s, now_ns);
            let length = (now_ns - s.window_started_ns) as u64;
            &&& r.events_per_sec == per_second(s.events, length)
            &&& r.trade_velocity.den == length
            &&& r.trade_velocity.num == s.trades * 1_000_000_000
            &&& r.crossed <==> r.best_bid > 0 && r.best_ask > 0 && r.best_bid >= r.best_ask
            &&& s.book.bid_seq().len() > 0 ==> r.best_bid == s.book.bid_seq()[0].price
            &&& s.book.ask_seq().len() > 0 ==> r.best_ask == s.book.ask_seq()[0].price
            &&& r.mid_drift == drift_of(s.prev_mid, mid_of(r.best_bid, r.best_ask))
            &&& n.events == 0 && n.trades == 0 && n.window_started_ns == now_ns
            &&& n.last_eps == r.events_per_sec && n.last_velocity == r.trade_velocity && n.last_drift == r.mid_drift
            &&& r.best_bid > 0 && r.best_ask > 0 && mid_of(r.best_bid, r.best_ask) > 0 ==> n.prev_mid == mid_of(
                r.best_bid,
                r.best_ask,
            )
            &&& r.best_bid == 0 || r.best_ask == 0 ==> n.prev_mid == s.prev_mid
            &&& now_ns + 1_000_000_000 <= u64::MAX ==> n.next_eps == now_ns + 1_000_000_000
            &&& n.book == s.book
            &&& n.seq == s.seq
        }),
{
    let x = s.trades as int;
    assert(0 <= x * 1_000_000_000 <= 0xffff_ffff_ffff_ffff * 1_000_000_000);
}

/// What is told at a glance of a book with two sides in order: the middle and the distance
/// of the best prices, that distance in basis points of the middle, and the depth.
pub proof fn ticks_tell_the_top(s: EngineState, event_ns: u64, process_ns: u64, dropped: u64, bid: u64, ask: u64)
    requires
        s.book.bid_seq().len() > 0,
        s.book.ask_seq().len() > 0,
        s.book.bid_seq()[0].price == bid,
        s.book.ask_seq()[0].price == ask,
        0 < bid < ask,
        bid + ask <= i64::MAX,
    ensures
        ({
            let f = tick_of(s, event_ns, process_ns, dropped);
            let bought = s.book.bid_seq()[0].total_qty;
            let offered = s.book.ask_seq()[0].total_qty;
            &&& 0 <= bid + ask - 2 * f.mid_ticks <= 1
            &&& bid + f.spread_ticks == ask
            &&& f.spread_bps.num == (ask - bid) * 10_000
            &&& f.spread_bps.den == f.mid_ticks
            &&& bid <= f.microprice_ticks <= ask
            &&& bought + offered > 0 ==> f.microprice_ticks * (bought + offered) <= bid * offered + ask * bought < (
            f.microprice_ticks + 1) * (bought + offered)
            &&& bought + offered == 0 ==> f.microprice_ticks == f.mid_ticks
            &&& !f.book_crossed
            &&& f.seq == s.seq && f.event_time_ns == event_ns && f.process_time_ns == process_ns && f.dropped_total
                == dropped
            &&& f.imbalance == s.last_imbalance && f.vpin == s.last_vpin && f.trade_velocity == s.last_velocity
                && f.events_per_sec == s.last_eps
        }),
{
    let (x, y) = (size_or_zero(s.book.bid_seq()), size_or_zero(s.book.ask_seq()));
    microprice_lies_between(bid, ask, x, y);
    if x + y > 0 {
        microprices_weigh_by_the_other_side(bid, ask, x, y);
    }
}

/// The published ladder is the best levels, each with its price, quantity and orders.
pub proof fn ladders_publish_the_best(s: Seq<model::Level>, n: nat, i: int)
    requires
        0 <= i < n,
        i < s.len(),
    ensures
        i < ladder_frame(s, n).len() <= n,
        ladder_frame(s, n).len() <= s.len(),
        ladder_frame(s, n)[i].price_ticks == s[i].price,
        ladder_frame(s, n)[i].qty == s[i].total_qty,
        ladder_frame(s, n)[i].order_count == s[i].order_count,
{
}

/// The volume measure takes a trade by who started it where that is told, else by the side
/// it bears, bids as bought and asks as sold; anything else leaves it alone.
pub proof fn volume_goes_by_the_print(v: VpinCalculator, e: Event, p: Option<Print>)
    ensures
        e.event_type != event::event_code(EventType::Trade) ==> vpin_after(v, e, p) == (v@, None::<Fraction>),
        e.event_type == event::event_code(EventType::Trade) && p is Some ==> vpin_after(v, e, p).0 == vpin::vpin_step(
            v@,
            v.size(),
            v.kept(),
            p->0.qty,
            p->0.aggressor,
        ),
        e.event_type == event::event_code(EventType::Trade) && p is None && e.side == 0 ==> vpin_after(v, e, p).0
            == vpin::vpin_step(v@, v.size(), v.kept(), e.qty, 1i8),
        e.event_type == event::event_code(EventType::Trade) && p is None && e.side == 1 ==> vpin_after(v, e, p).0
            == vpin::vpin_step(v@, v.size(), v.kept(), e.qty, -1i8),
        e.event_type == event::event_code(EventType::Trade) && p is None && e.side > 1 ==> vpin_after(v, e, p).0 == v@,
{
}

/// What is told at a glance of a book that crosses or lacks a side: nothing but that, and
/// the depth.
pub proof fn crossed_ticks_tell_so(s: EngineState, event_ns: u64, process_ns: u64, dropped: u64)
    ensures
        ({
            let f = tick_of(s, event_ns, process_ns, dropped);
            let bids = s.book.bid_seq();
            let asks = s.book.ask_seq();
            let both = bids.len() > 0 && asks.len() > 0 && bids[0].price > 0 && asks[0].price > 0;
            &&& f.book_crossed <==> both && bids[0].price >= asks[0].price
            &&& !both || f.book_crossed ==> f.mid_ticks == 0 && f.spread_ticks == 0 && f.microprice_ticks == 0
                && f.spread_bps.num == 0
        }),
{
}

/// A second counts as at least a thousandth of one.
pub proof fn seconds_are_never_too_short(started_ns: u64, now_ns: u64)
    ensures
        now_ns - started_ns >= 1_000_000 ==> started_ns + elapsed_of(started_ns, now_ns) == now_ns,
        now_ns - started_ns < 1_000_000 ==> elapsed_of(started_ns, now_ns) == 1_000_000,
{
}

/// A published flag is the flag.
pub proof fn flags_are_published_whole(seq: u64, f: ChaosEvent)
    ensures
        chaos_frame(seq, f).seq == seq,
        chaos_frame(seq, f).kind == f.kind,
        chaos_frame(seq, f).severity == f.severity,
        chaos_frame(seq, f).start_seq == f.start_seq,
        chaos_frame(seq, f).end_seq == f.end_seq,
        chaos_frame(seq, f).initiator == f.initiator,
{
}

} // verus!
