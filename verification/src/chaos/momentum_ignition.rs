//! Momentum ignition: a monotone drift of the midprice with one-sided trades
//! behind it.

use crate::book::event::{Event, EventType, SequencedEvent};
#[allow(unused_imports)]
use crate::book::event;
use crate::book::model::OrderMeta;
use crate::chaos::flag::{ChaosEvent, ChaosFeatures, ChaosKind, Severity, Term};
#[allow(unused_imports)]
use crate::chaos::flag;
use crate::chaos::mini_book::{MiniBook, MiniModel};
#[allow(unused_imports)]
use crate::chaos::mini_book;
use crate::chaos::order_tracker::{AggressorSide, OrderTracker};
#[allow(unused_imports)]
use crate::chaos::order_tracker;
use crate::ratio::Fraction;
use std::collections::VecDeque;
use vstd::prelude::*;

verus! {

/// Direction of a drift.
#[derive(Debug, Clone, Copy, PartialEq, Eq, Structural)]
pub enum Dir {
    Up,
    Down,
}

/// A midprice and when it came about.
#[derive(Debug, Clone, Copy, PartialEq, Eq, Structural)]
pub struct MidSample {
    pub seq: u64,
    pub ts: u64,
    pub mid: u64,
}

/// The current monotone run of midprices.
#[derive(Debug, Clone, Copy, PartialEq, Eq, Structural)]
pub struct Run {
    pub dir: Option<Dir>,
    pub len: u32,
    pub start: MidSample,
}

/// The limits of a detector. A window of zero is off.
#[derive(Debug, Clone, Copy, PartialEq, Eq, Structural)]
pub struct IgnitionLimits {
    pub seq_window: u64,
    pub time_window_ns: u64,
    pub max_book_levels: usize,
    pub min_move_bps: u32,
    pub min_trades: u64,
    pub min_consecutive: u32,
    pub cooldown_seq: u64,
}

/// Everything the detector remembers.
#[verifier::ext_equal]
pub struct IgnitionModel {
    pub book: MiniModel,
    pub orders: Map<u64, OrderMeta>,
    pub mids: Seq<MidSample>,
    pub buys: u64,
    pub sells: u64,
    pub run: Run,
    /// No flag before this sequence number.
    pub quiet_until: u64,
}

/// `a - b`, or zero where that is negative.
pub open spec fn since(now: u64, then_: u64) -> u64 {
    if now >= then_ {
        (now - then_) as u64
    } else {
        0
    }
}

/// `a + b`, or the largest number where that is larger.
pub open spec fn later(a: u64, b: u64) -> u64 {
    if a + b > u64::MAX {
        u64::MAX
    } else {
        (a + b) as u64
    }
}

/// Absolute move in basis points of `from`, at most the largest 32-bit number;
/// zero from zero.
pub open spec fn bps_of(from: u64, to: u64) -> u32 {
    let diff = if to >= from {
        to - from
    } else {
        from - to
    };
    if from == 0 {
        0
    } else if diff * 10_000 / (from as int) >= u32::MAX {
        u32::MAX
    } else {
        (diff * 10_000 / (from as int)) as u32
    }
}

/// Absolute move in basis points.
pub fn bps_move(from: u64, to: u64) -> (r: u32)
    ensures
        r == bps_of(from, to),
{
    if from == 0 {
        return 0;
    }
    let diff: u64 = if to >= from { to - from } else { from - to };
    let bps: u128 = diff as u128 * 10_000 / from as u128;
    if bps >= u32::MAX as u128 {
        u32::MAX
    } else {
        bps as u32
    }
}

/// Displacement of a price in ticks.
pub open spec fn displacement(from: u64, to: u64) -> i64 {
    (to as i64).wrapping_sub(from as i64)
}

/// What one event does to the book: nothing, more, or less, with who took it
/// if it was a trade.
pub enum BookChange {
    Nothing,
    Added { is_bid: bool, price: u64, qty: u64 },
    Reduced { is_bid: bool, price: u64, qty: u64 },
    Traded { is_bid: bool, price: u64, qty: u64, aggressor: AggressorSide },
}

/// The change of an event, resolved through the orders seen so far. A modify
/// changes nothing.
pub open spec fn change_of(orders: Map<u64, OrderMeta>, e: Event) -> (Map<u64, OrderMeta>, BookChange) {
    if e.event_type == event::event_code(EventType::OrderAdd) {
        let (o, u) = order_tracker::tracked_add(orders, e);
        (
            o,
            match u {
                Some(x) => BookChange::Added { is_bid: x.side == 0, price: x.price, qty: x.qty },
                None => BookChange::Nothing,
            },
        )
    } else if e.event_type == event::event_code(EventType::OrderCancel) {
        let (o, u) = order_tracker::tracked_cancel(orders, e);
        (
            o,
            match u {
                Some(x) => BookChange::Reduced { is_bid: x.side == 0, price: x.price, qty: x.qty },
                None => BookChange::Nothing,
            },
        )
    } else if e.event_type == event::event_code(EventType::Trade) {
        let (o, u) = order_tracker::tracked_trade(orders, e);
        (
            o,
            match u {
                Some(x) => BookChange::Traded {
                    is_bid: x.update.side == 0,
                    price: x.update.price,
                    qty: x.update.qty,
                    aggressor: x.aggressor,
                },
                None => BookChange::Nothing,
            },
        )
    } else {
        (orders, BookChange::Nothing)
    }
}

/// The book after a change.
pub open spec fn changed(b: MiniModel, c: BookChange, cap: nat) -> MiniModel {
    match c {
        BookChange::Nothing => b,
        BookChange::Added { is_bid, price, qty } => b.added(is_bid, price, qty, cap),
        BookChange::Reduced { is_bid, price, qty } => b.reduced(is_bid, price, qty),
        BookChange::Traded { is_bid, price, qty, aggressor: _ } => b.reduced(is_bid, price, qty),
    }
}

/// An add stays within the quantity of its level.
pub open spec fn change_fits(b: MiniModel, e: Event) -> bool {
    e.event_type == event::event_code(EventType::OrderAdd) && e.side <= 1 ==> mini_book::qty_at(
        b.side(e.side == 0),
        e.price,
    ) + e.qty <= u64::MAX
}

/// A sample is out of a window.
pub open spec fn outdated(s: MidSample, seq: u64, ts: u64, l: IgnitionLimits) -> bool {
    ||| l.seq_window > 0 && since(seq, s.seq) > l.seq_window
    ||| l.time_window_ns > 0 && since(ts, s.ts) > l.time_window_ns
}

/// The samples without the leading ones that are out of a window.
pub open spec fn unexpired(
    mids: Seq<MidSample>,
    seq: u64,
    ts: u64,
    l: IgnitionLimits,
) -> Seq<MidSample>
    decreases mids.len(),
{
    if mids.len() > 0 && outdated(mids[0], seq, ts, l) {
        unexpired(mids.drop_first(), seq, ts, l)
    } else {
        mids
    }
}

/// The run after a new sample, the last of `mids`: a step in its direction
/// makes it longer, a step the other way starts a new one from the sample
/// before, and a sample alone starts one without direction.
pub open spec fn next_run(run: Run, mids: Seq<MidSample>) -> Run {
    let s = mids.last();
    if mids.len() < 2 {
        Run { dir: None, len: 1, start: s }
    } else {
        let p = mids[mids.len() - 2];
        if s.mid == p.mid {
            run
        } else {
            let dir = if s.mid > p.mid {
                Dir::Up
            } else {
                Dir::Down
            };
            if run.dir == Some(dir) {
                Run {
                    len: if run.len == u32::MAX {
                        u32::MAX
                    } else {
                        (run.len + 1) as u32
                    },
                    ..run
                }
            } else {
                Run { dir: Some(dir), len: 2, start: p }
            }
        }
    }
}

/// A run that began out of a window begins with the oldest sample that is left.
pub open spec fn clipped(run: Run, mids: Seq<MidSample>, seq: u64, ts: u64, l: IgnitionLimits) -> Run {
    if run.dir is Some && mids.len() > 0 && outdated(run.start, seq, ts, l) {
        Run {
            len: if mids.len() > u32::MAX {
                u32::MAX
            } else {
                mids.len() as u32
            },
            start: mids[0],
            ..run
        }
    } else {
        run
    }
}

/// Trades that push in a direction.
pub open spec fn pressure(m: IgnitionModel, dir: Dir) -> u64 {
    match dir {
        Dir::Up => m.buys,
        Dir::Down => m.sells,
    }
}

/// All conditions of a flag: long enough, traded enough, far enough, and more
/// trades with the move than against it.
pub open spec fn ignited(m: IgnitionModel, l: IgnitionLimits, mid: u64) -> bool {
    m.run.dir matches Some(dir) && {
        &&& m.run.len >= l.min_consecutive
        &&& m.buys + m.sells >= l.min_trades
        &&& bps_of(m.run.start.mid, mid) >= l.min_move_bps
        &&& match dir {
            Dir::Up => m.buys > m.sells,
            Dir::Down => m.sells > m.buys,
        }
    }
}

/// Six tenths the move against four times the minimum, four tenths how
/// one-sided the trades are.
pub open spec fn ignition_severity(m: IgnitionModel, l: IgnitionLimits, mid: u64) -> Severity {
    let dom = pressure(m, m.run.dir->0);
    let total = m.buys + m.sells;
    Severity {
        first: flag::capped(6, bps_of(m.run.start.mid, mid) as nat, (l.min_move_bps * 4) as nat),
        second: flag::capped(4, (2 * dom - total) as nat, total as nat),
        third: flag::no_term(),
    }
}

/// The flag of an ignition.
pub open spec fn ignition_flag(m: IgnitionModel, l: IgnitionLimits, mid: u64, e: SequencedEvent) -> ChaosEvent {
    ChaosEvent {
        kind: ChaosKind::MomentumIgnition,
        start_seq: m.run.start.seq,
        end_seq: e.seq,
        severity: ignition_severity(m, l, mid),
        initiator: None,
        features: ChaosFeatures {
            event_count: (m.buys + m.sells) as u64,
            duration_ns: since(e.event.ts, m.run.start.ts),
            cancel_trade_ratio: Fraction { num: 0, den: 1 },
            price_displacement: displacement(m.run.start.mid, mid),
            depth_removed: 0,
        },
    }
}

/// Who pressed with a trade: at the mid of before it or above it a buyer, below it
/// a seller. Without a mid the side that rested tells.
pub open spec fn presser_of(b: MiniModel, price: u64, resting: AggressorSide) -> AggressorSide {
    if b.mid() is None {
        resting
    } else if 2 * price >= b.best_bid()->0 + b.best_ask()->0 {
        AggressorSide::Buy
    } else {
        AggressorSide::Sell
    }
}

/// The event mutates the book and counts trades by who pressed.
pub open spec fn ignition_mutated(m: IgnitionModel, l: IgnitionLimits, e: Event) -> IgnitionModel {
    let (orders, c) = change_of(m.orders, e);
    let n = IgnitionModel {
        orders,
        book: changed(m.book, c, l.max_book_levels as nat),
        ..m
    };
    match c {
        BookChange::Traded { is_bid: _, price, qty: _, aggressor } => match presser_of(
            m.book,
            price,
            aggressor,
        ) {
            AggressorSide::Buy => IgnitionModel { buys: (m.buys + 1) as u64, ..n },
            AggressorSide::Sell => IgnitionModel { sells: (m.sells + 1) as u64, ..n },
        },
        _ => n,
    }
}

/// The midprice is sampled if it moved, old samples go, and with the last of
/// them the trade counts; then the run is brought up to date, within the windows.
pub open spec fn ignition_sampled(m: IgnitionModel, l: IgnitionLimits, mid: u64, e: SequencedEvent) -> IgnitionModel {
    let moved = m.mids.len() == 0 || m.mids.last().mid != mid;
    let mids = unexpired(
        if moved {
            m.mids.push(MidSample { seq: e.seq, ts: e.event.ts, mid })
        } else {
            m.mids
        },
        e.seq,
        e.event.ts,
        l,
    );
    IgnitionModel {
        mids,
        buys: if mids.len() == 0 {
            0
        } else {
            m.buys
        },
        sells: if mids.len() == 0 {
            0
        } else {
            m.sells
        },
        run: clipped(
            if moved {
                next_run(m.run, mids)
            } else {
                m.run
            },
            mids,
            e.seq,
            e.event.ts,
            l,
        ),
        ..m
    }
}

/// One event.
pub open spec fn ignition_step(m: IgnitionModel, l: IgnitionLimits, e: SequencedEvent) -> (
    IgnitionModel,
    Option<ChaosEvent>,
) {
    if e.event.event_type < 1 || e.event.event_type > 4 {
        (m, None)
    } else {
        let n = ignition_mutated(m, l, e.event);
        match n.book.mid() {
            None => (n, None),
            Some(mid) => {
                let s = ignition_sampled(n, l, mid, e);
                if e.seq < s.quiet_until || !ignited(s, l, mid) {
                    (s, None)
                } else {
                    (
                        IgnitionModel {
                            quiet_until: later(e.seq, l.cooldown_seq),
                            run: Run { dir: None, len: 0, start: s.run.start },
                            ..s
                        },
                        Some(ignition_flag(s, l, mid, e)),
                    )
                }
            },
        }
    }
}

proof fn lemma_unexpired_keeps_now(mids: Seq<MidSample>, seq: u64, ts: u64, l: IgnitionLimits)
    requires
        mids.len() > 0,
        mids.last().seq == seq,
        mids.last().ts == ts,
    ensures
        unexpired(mids, seq, ts, l).len() > 0,
        unexpired(mids, seq, ts, l).last() == mids.last(),
    decreases mids.len(),
{
    if mids.len() > 1 {
        assert(mids.drop_first().last() == mids.last());
        lemma_unexpired_keeps_now(mids.drop_first(), seq, ts, l);
    }
}

/// Momentum-ignition detector.
#[derive(Debug)]
pub struct MomentumIgnitionDetector {
    book: MiniBook,
    order_tracker: OrderTracker,
    mids: VecDeque<MidSample>,
    buy_pressure: u64,
    sell_pressure: u64,
    limits: IgnitionLimits,
    run: Run,
    refractory_until: u64,
}

/// Whether an add stays within the quantity of its level.
pub fn book_has_room(book: &MiniBook, e: &Event) -> (b: bool)
    ensures
        b == change_fits(book@, *e),
{
    if e.event_type == EventType::OrderAdd.code() && e.side <= 1 {
        book.qty_of(e.side == 0, e.price) <= u64::MAX - e.qty
    } else {
        true
    }
}

impl View for MomentumIgnitionDetector {
    type V = IgnitionModel;

    closed spec fn view(&self) -> IgnitionModel {
        IgnitionModel {
            book: self.book@,
            orders: self.order_tracker@,
            mids: self.mids@,
            buys: self.buy_pressure,
            sells: self.sell_pressure,
            run: self.run,
            quiet_until: self.refractory_until,
        }
    }
}

impl MomentumIgnitionDetector {
    /// The limits it was made with.
    pub closed spec fn config(&self) -> IgnitionLimits {
        self.limits
    }

    /// The book is within its depth and the tracker knows sides only.
    pub closed spec fn wf(&self) -> bool {
        &&& self.book.wf()
        &&& self.book.depth() == self.limits.max_book_levels
        &&& self.book@.positive()
        &&& self.order_tracker.wf()
    }

    /// The book never is deeper than allowed, and every level has a quantity.
    pub proof fn lemma_wf(&self)
        requires
            self.wf(),
        ensures
            self@.book.within(self.config().max_book_levels as nat),
            self@.book.positive(),
    {
    }

    /// A detector. At least one window has to be on.
    pub fn new(
        seq_window: u64,
        time_window_ns: u64,
        max_book_levels: usize,
        min_move_bps: u32,
        min_trades: u64,
        min_consecutive: u32,
        cooldown_seq: u64,
    ) -> (d: Self)
        requires
            seq_window != 0 || time_window_ns != 0,
            min_consecutive >= 1,
            max_book_levels >= 1,
        ensures
            d.wf(),
            d.config() == (IgnitionLimits {
                seq_window,
                time_window_ns,
                max_book_levels,
                min_move_bps,
                min_trades,
                min_consecutive,
                cooldown_seq,
            }),
            d@ == (IgnitionModel {
                book: MiniModel::empty(),
                orders: Map::empty(),
                mids: Seq::empty(),
                buys: 0,
                sells: 0,
                run: Run { dir: None, len: 0, start: MidSample { seq: 0, ts: 0, mid: 0 } },
                quiet_until: 0,
            }),
    {
        MomentumIgnitionDetector {
            book: MiniBook::new(max_book_levels),
            order_tracker: OrderTracker::new(),
            mids: VecDeque::with_capacity(256),
            buy_pressure: 0,
            sell_pressure: 0,
            limits: IgnitionLimits {
                seq_window,
                time_window_ns,
                max_book_levels,
                min_move_bps,
                min_trades,
                min_consecutive,
                cooldown_seq,
            },
            run: Run { dir: None, len: 0, start: MidSample { seq: 0, ts: 0, mid: 0 } },
            refractory_until: 0,
        }
    }

    /// Highest bid with a quantity.
    pub fn best_bid(&self) -> (r: Option<u64>)
        ensures
            r == self@.book.best_bid(),
            self.wf() ==> (r matches Some(p) ==> self@.book.bids[p] > 0),
    {
        self.book.best_bid()
    }

    /// Lowest ask with a quantity.
    pub fn best_ask(&self) -> (r: Option<u64>)
        ensures
            r == self@.book.best_ask(),
            self.wf() ==> (r matches Some(p) ==> self@.book.asks[p] > 0),
    {
        self.book.best_ask()
    }

    /// Midprice.
    pub fn midprice(&self) -> (r: Option<u64>)
        ensures
            r == self@.book.mid(),
    {
        self.book.midprice()
    }

    /// Best ask less best bid, where both stand and the book is not crossed.
    pub fn spread(&self) -> (r: Option<u64>)
        ensures
            r == (if self@.book.best_bid() is Some && self@.book.best_ask() is Some
                && self@.book.best_ask()->0 >= self@.book.best_bid()->0 {
                Some((self@.book.best_ask()->0 - self@.book.best_bid()->0) as u64)
            } else {
                None
            }),
    {
        match (self.best_bid(), self.best_ask()) {
            (Some(b), Some(a)) => if a >= b {
                Some(a - b)
            } else {
                None
            },
            _ => None,
        }
    }

    /// Length of the current run.
    pub fn run_len(&self) -> (n: u32)
        ensures
            n == self@.run.len,
    {
        self.run.len
    }

    /// Levels on the bid side.
    pub fn bid_levels(&self) -> (n: usize)
        ensures
            n == self@.book.bids.len(),
    {
        self.book.bid_levels()
    }

    /// Levels on the ask side.
    pub fn ask_levels(&self) -> (n: usize)
        ensures
            n == self@.book.asks.len(),
    {
        self.book.ask_levels()
    }

    /// Whether the book and the counters leave room for an event.
    pub fn is_ready(&self, seq_event: &SequencedEvent) -> (b: bool)
        ensures
            b == (change_fits(self@.book, seq_event.event) && self@.buys + self@.sells < u64::MAX),
    {
        book_has_room(&self.book, &seq_event.event) && self.buy_pressure < u64::MAX && self.sell_pressure
            < u64::MAX - self.buy_pressure
    }

    /// Feeds one event; hands out the flag it completes.
    pub fn process(&mut self, seq_event: &SequencedEvent) -> (r: Option<ChaosEvent>)
        requires
            old(self).wf(),
            change_fits(old(self)@.book, seq_event.event),
            old(self)@.buys + old(self)@.sells < u64::MAX,
        ensures
            final(self).wf(),
            final(self).config() == old(self).config(),
            (final(self)@, r) == ignition_step(old(self)@, old(self).config(), *seq_event),
    {
        let event = &seq_event.event;
        match EventType::from_u8(event.event_type) {
            None => {
                return None;
            },
            Some(EventType::BookSnapshot) => {
                return None;
            },
            Some(EventType::OrderAdd) => {
                if let Some(u) = self.order_tracker.on_add(event) {
                    self.book.add_qty(u.side == 0, u.price, u.qty);
                }
            },
            Some(EventType::OrderCancel) => {
                if let Some(u) = self.order_tracker.on_cancel(event) {
                    self.book.sub_qty(u.side == 0, u.price, u.qty);
                }
            },
            Some(EventType::OrderModify) => {},
            Some(EventType::Trade) => {
                if let Some(t) = self.order_tracker.on_trade(event) {
                    let by: AggressorSide = self.presser(t.update.price, t.aggressor);
                    self.book.sub_qty(t.update.side == 0, t.update.price, t.update.qty);
                    match by {
                        AggressorSide::Buy => {
                            self.buy_pressure = self.buy_pressure + 1;
                        },
                        AggressorSide::Sell => {
                            self.sell_pressure = self.sell_pressure + 1;
                        },
                    }
                }
            },
        }
        assert(self@ =~= ignition_mutated(old(self)@, self.limits, *event));
        let mid: u64 = match self.midprice() {
            Some(m) => m,
            None => {
                return None;
            },
        };
        let ghost n = self@;
        let moved: bool = match self.mids.len() {
            0 => true,
            k => self.mids[k - 1].mid != mid,
        };
        if moved {
            self.mids.push_back(MidSample { seq: seq_event.seq, ts: event.ts, mid });
        }
        let ghost before = self.mids@;
        self.evict_expired(seq_event.seq, event.ts);
        if moved {
            proof {
                lemma_unexpired_keeps_now(before, seq_event.seq, event.ts, self.limits);
            }
            self.update_run();
        }
        self.clip_run(seq_event.seq, event.ts);
        assert(self@ =~= ignition_sampled(n, self.limits, mid, *seq_event));
        if seq_event.seq < self.refractory_until {
            return None;
        }
        let dir: Dir = match self.run.dir {
            Some(d) => d,
            None => {
                return None;
            },
        };
        let trades: u64 = self.buy_pressure + self.sell_pressure;
        if self.run.len < self.limits.min_consecutive {
            return None;
        }
        if trades < self.limits.min_trades {
            return None;
        }
        let move_bps: u32 = bps_move(self.run.start.mid, mid);
        if move_bps < self.limits.min_move_bps {
            return None;
        }
        let (with, against): (u64, u64) = match dir {
            Dir::Up => (self.buy_pressure, self.sell_pressure),
            Dir::Down => (self.sell_pressure, self.buy_pressure),
        };
        if with <= against {
            return None;
        }
        let severity: Severity = Severity::double(
            Term::capped(6, move_bps as u128, self.limits.min_move_bps as u128 * 4),
            Term::capped(4, (with - against) as u128, trades as u128),
        );
        let start: MidSample = self.run.start;
        self.refractory_until = seq_event.seq.saturating_add(self.limits.cooldown_seq);
        self.run = Run { dir: None, len: 0, start };
        Some(
            ChaosEvent {
                kind: ChaosKind::MomentumIgnition,
                start_seq: start.seq,
                end_seq: seq_event.seq,
                severity,
                initiator: None,
                features: ChaosFeatures {
                    event_count: trades,
                    duration_ns: event.ts.saturating_sub(start.ts),
                    cancel_trade_ratio: Fraction { num: 0, den: 1 },
                    price_displacement: (mid as i64).wrapping_sub(start.mid as i64),
                    depth_removed: 0,
                },
            },
        )
    }

    /// Brings the run up to date with the newest sample.
    fn update_run(&mut self)
        requires
            old(self).wf(),
            old(self).mids@.len() > 0,
        ensures
            final(self).wf(),
            final(self).config() == old(self).config(),
            final(self)@ == (IgnitionModel {
                run: next_run(old(self).run, old(self).mids@),
                ..old(self)@
            }),
    {
        let n: usize = self.mids.len();
        let s: MidSample = self.mids[n - 1];
        if n < 2 {
            self.run = Run { dir: None, len: 1, start: s };
            return;
        }
        let p: MidSample = self.mids[n - 2];
        if s.mid == p.mid {
            return;
        }
        let dir: Dir = if s.mid > p.mid { Dir::Up } else { Dir::Down };
        let same: bool = match self.run.dir {
            Some(d) => d == dir,
            None => false,
        };
        if same {
            self.run = Run { dir: self.run.dir, len: self.run.len.saturating_add(1), start: self.run.start };
        } else {
            self.run = Run { dir: Some(dir), len: 2, start: p };
        }
    }

    fn is_outdated(&self, s: MidSample, seq: u64, ts: u64) -> (b: bool)
        ensures
            b == outdated(s, seq, ts, self.limits),
    {
        let old_seq: bool = self.limits.seq_window > 0 && seq.saturating_sub(s.seq)
            > self.limits.seq_window;
        let old_ts: bool = self.limits.time_window_ns > 0 && ts.saturating_sub(s.ts)
            > self.limits.time_window_ns;
        old_seq || old_ts
    }

    /// Lets the run begin within the windows.
    fn clip_run(&mut self, seq: u64, ts: u64)
        requires
            old(self).wf(),
        ensures
            final(self).wf(),
            final(self).config() == old(self).config(),
            final(self)@ == (IgnitionModel {
                run: clipped(old(self).run, old(self).mids@, seq, ts, old(self).limits),
                ..old(self)@
            }),
    {
        if self.run.dir.is_some() && self.mids.len() > 0 && self.is_outdated(self.run.start, seq, ts) {
            let n: usize = self.mids.len();
            let len: u32 = if n > u32::MAX as usize {
                u32::MAX
            } else {
                n as u32
            };
            self.run = Run { dir: self.run.dir, len, start: self.mids[0] };
        }
    }

    /// Who pressed with a trade at a price.
    fn presser(&self, price: u64, resting: AggressorSide) -> (by: AggressorSide)
        requires
            self.wf(),
        ensures
            by == presser_of(self@.book, price, resting),
    {
        match (self.best_bid(), self.best_ask()) {
            (Some(bid), Some(ask)) => if ask < bid {
                resting
            } else if price as u128 * 2 >= bid as u128 + ask as u128 {
                AggressorSide::Buy
            } else {
                AggressorSide::Sell
            },
            _ => resting,
        }
    }

    /// Drops samples out of a window, and the trade counts with the last of them.
    fn evict_expired(&mut self, seq: u64, ts: u64)
        requires
            old(self).wf(),
        ensures
            final(self).wf(),
            final(self).config() == old(self).config(),
            ({
                let mids = unexpired(old(self).mids@, seq, ts, old(self).config());
                final(self)@ == (IgnitionModel {
                    mids,
                    buys: if mids.len() == 0 {
                        0
                    } else {
                        old(self)@.buys
                    },
                    sells: if mids.len() == 0 {
                        0
                    } else {
                        old(self)@.sells
                    },
                    ..old(self)@
                })
            }),
    {
        let ghost target = unexpired(self.mids@, seq, ts, self.limits);
        let ghost start = self@;
        while self.mids.len() > 0
            invariant
                self.wf(),
                self.limits == old(self).limits,
                target == unexpired(self.mids@, seq, ts, self.limits),
                self@ == (IgnitionModel { mids: self.mids@, ..start }),
                start == old(self)@,
            ensures
                self.wf(),
                self.limits == old(self).limits,
                self.mids@ == target,
                self@ == (IgnitionModel { mids: self.mids@, ..start }),
            decreases self.mids@.len(),
        {
            let s: MidSample = self.mids[0];
            if self.is_outdated(s, seq, ts) {
                assert(self.mids@.drop_first() =~= self.mids@.subrange(1, self.mids@.len() as int));
                self.mids.pop_front();
            } else {
                break;
            }
        }
        if self.mids.len() == 0 {
            self.buy_pressure = 0;
            self.sell_pressure = 0;
        }
        assert(self@.mids =~= target);
    }
}

// ─── Laws ───────────────────────────────────────────────────────────

/// Without a trade there is never a flag, whatever the limits.
pub proof fn no_ignition_without_trades(m: IgnitionModel, l: IgnitionLimits, e: SequencedEvent)
    requires
        m.buys == 0,
        m.sells == 0,
        e.event.event_type != event::event_code(EventType::Trade),
    ensures
        ignition_step(m, l, e).1 is None,
        ignition_step(m, l, e).0.buys == 0,
        ignition_step(m, l, e).0.sells == 0,
{
}

/// The detector after several events.
pub open spec fn ignition_run(m: IgnitionModel, l: IgnitionLimits, s: Seq<SequencedEvent>) -> IgnitionModel
    decreases s.len(),
{
    if s.len() == 0 {
        m
    } else {
        ignition_step(ignition_run(m, l, s.drop_last()), l, s.last()).0
    }
}

/// After a flag nothing is flagged, however many events come, until the cooldown
/// is over.
pub proof fn ignition_cools_down(
    m: IgnitionModel,
    l: IgnitionLimits,
    e: SequencedEvent,
    s: Seq<SequencedEvent>,
    f: SequencedEvent,
)
    requires
        ignition_step(m, l, e).1 is Some,
        forall|i: int| 0 <= i < s.len() ==> (#[trigger] s[i]).seq < later(e.seq, l.cooldown_seq),
        f.seq < later(e.seq, l.cooldown_seq),
    ensures
        ignition_step(ignition_run(ignition_step(m, l, e).0, l, s), l, f).1 is None,
        ignition_run(ignition_step(m, l, e).0, l, s).quiet_until == later(e.seq, l.cooldown_seq),
    decreases s.len(),
{
    if s.len() > 0 {
        assert forall|i: int| 0 <= i < s.drop_last().len() implies (#[trigger] s.drop_last()[i]).seq
            < later(e.seq, l.cooldown_seq) by {
            assert(s.drop_last()[i] == s[i]);
        }
        ignition_cools_down(m, l, e, s.drop_last(), s[s.len() - 1]);
    }
}

proof fn lemma_unexpired_front(mids: Seq<MidSample>, seq: u64, ts: u64, l: IgnitionLimits)
    ensures
        unexpired(mids, seq, ts, l).len() > 0 ==> !outdated(unexpired(mids, seq, ts, l)[0], seq, ts, l),
    decreases mids.len(),
{
    if mids.len() > 0 && outdated(mids[0], seq, ts, l) {
        lemma_unexpired_front(mids.drop_first(), seq, ts, l);
    }
}

/// A flagged drift came about within the windows that are on: no further back than
/// the sequence window, and no longer ago than the time window.
pub proof fn ignition_is_within_its_windows(m: IgnitionModel, l: IgnitionLimits, e: SequencedEvent)
    requires
        ignition_step(m, l, e).1 is Some,
    ensures
        l.seq_window > 0 ==> since(e.seq, ignition_step(m, l, e).1->0.start_seq) <= l.seq_window,
        l.time_window_ns > 0 ==> ignition_step(m, l, e).1->0.features.duration_ns <= l.time_window_ns,
{
    let n = ignition_mutated(m, l, e.event);
    let mid = n.book.mid()->0;
    let moved = n.mids.len() == 0 || n.mids.last().mid != mid;
    let more = if moved {
        n.mids.push(MidSample { seq: e.seq, ts: e.event.ts, mid })
    } else {
        n.mids
    };
    lemma_unexpired_front(more, e.seq, e.event.ts, l);
}

/// A flag has a proper severity.
pub proof fn ignition_severity_is_proper(m: IgnitionModel, l: IgnitionLimits, e: SequencedEvent)
    requires
        ignition_step(m, l, e).1 is Some,
    ensures
        ignition_step(m, l, e).1->0.severity.wf(),
{
}

#[verifier::rlimit(40)]
proof fn lemma_book_bounded(n: IgnitionModel, l: IgnitionLimits, e: SequencedEvent)
    requires
        l.max_book_levels >= 1,
        n.book.within(l.max_book_levels as nat),
    ensures
        ignition_step(n, l, e).0.book.within(l.max_book_levels as nat),
{
    let cap = l.max_book_levels as nat;
    let c = change_of(n.orders, e.event).1;
    let book = changed(n.book, c, cap);
    match c {
        BookChange::Added { is_bid, price, qty } => {
            let p = mini_book::piled(n.book.side(is_bid), price, qty);
            assert(p.len() <= cap + 1);
            mini_book::pruning_keeps_the_best(p, is_bid, cap);
        },
        _ => {},
    }
    assert(book.within(cap));
    assert(ignition_step(n, l, e).0.book == book || ignition_step(n, l, e).0.book == n.book);
}

/// However many events come, the book of the detector is never deeper than allowed.
pub proof fn ignition_book_stays_bounded(m: IgnitionModel, l: IgnitionLimits, s: Seq<SequencedEvent>)
    requires
        l.max_book_levels >= 1,
        m.book.within(l.max_book_levels as nat),
    ensures
        ignition_run(m, l, s).book.within(l.max_book_levels as nat),
    decreases s.len(),
{
    if s.len() > 0 {
        ignition_book_stays_bounded(m, l, s.drop_last());
        lemma_book_bounded(ignition_run(m, l, s.drop_last()), l, s.last());
    }
}

/// A displacement is zero only between equal prices, and between prices that a
/// signed number holds it is their difference.
pub proof fn displacements_are_differences(from: u64, to: u64)
    ensures
        displacement(from, to) == 0 <==> from == to,
        from <= i64::MAX && to <= i64::MAX ==> displacement(from, to) == to - from,
{
    assert(from as i64 == to as i64 ==> from == to) by (bit_vector);
}

/// A move of so many basis points is at least that share of where it began.
pub proof fn moves_are_as_far_as_they_say(from: u64, to: u64, bps: u32)
    requires
        bps >= 1,
        bps_of(from, to) >= bps,
    ensures
        from > 0,
        to >= from ==> (to - from) * 10_000 >= bps * from,
        to < from ==> (from - to) * 10_000 >= bps * from,
        displacement(from, to) != 0,
{
    let diff = if to >= from {
        to - from
    } else {
        from - to
    };
    let q = diff * 10_000 / (from as int);
    vstd::arithmetic::div_mod::lemma_fundamental_div_mod(diff * 10_000, from as int);
    vstd::arithmetic::div_mod::lemma_mod_bound(diff * 10_000, from as int);
    assert(q >= bps);
    assert(from * q >= bps * from) by (nonlinear_arith)
        requires
            q >= bps,
            from > 0,
    ;
    assert(bps * from > 0) by (nonlinear_arith)
        requires
            bps >= 1,
            from > 0,
    ;
    displacements_are_differences(from, to);
}

/// After the event at `i` of a series the midprice was as `x` has it.
pub open spec fn mid_after(m: IgnitionModel, l: IgnitionLimits, s: Seq<SequencedEvent>, i: int, x: MidSample) -> bool {
    &&& 0 <= i < s.len()
    &&& x.seq == s[i].seq
    &&& x.ts == s[i].event.ts
    &&& ignition_run(m, l, s.take(i + 1)).book.mid() == Some(x.mid)
}

/// Some event of a series left the midprice as `x` has it.
pub open spec fn was_mid(m: IgnitionModel, l: IgnitionLimits, s: Seq<SequencedEvent>, x: MidSample) -> bool {
    exists|i: int| mid_after(m, l, s, i, x)
}

/// Everything a detector can measure a drift from.
pub open spec fn origins(n: IgnitionModel) -> Seq<MidSample> {
    if n.run.dir is Some {
        n.mids.push(n.run.start)
    } else {
        n.mids
    }
}

proof fn lemma_unexpired_subset(mids: Seq<MidSample>, seq: u64, ts: u64, l: IgnitionLimits)
    ensures
        forall|x: MidSample| #[trigger] unexpired(mids, seq, ts, l).contains(x) ==> mids.contains(x),
    decreases mids.len(),
{
    if mids.len() > 0 && outdated(mids[0], seq, ts, l) {
        lemma_unexpired_subset(mids.drop_first(), seq, ts, l);
        assert forall|x: MidSample| #[trigger] unexpired(mids, seq, ts, l).contains(x) implies mids.contains(x) by {
            assert(unexpired(mids.drop_first(), seq, ts, l).contains(x));
            assert(mids.drop_first().contains(x));
            let k = choose|k: int| 0 <= k < mids.drop_first().len() && mids.drop_first()[k] == x;
            assert(mids[k + 1] == x);
        }
    }
}

/// Sampling measures from what was remembered or from the sample itself.
proof fn lemma_sampled_origins(n: IgnitionModel, l: IgnitionLimits, mid: u64, e: SequencedEvent, x: MidSample)
    requires
        origins(ignition_sampled(n, l, mid, e)).contains(x),
    ensures
        origins(n).contains(x) || x == (MidSample { seq: e.seq, ts: e.event.ts, mid }),
{
    let fresh = MidSample { seq: e.seq, ts: e.event.ts, mid };
    let moved = n.mids.len() == 0 || n.mids.last().mid != mid;
    let more = if moved {
        n.mids.push(fresh)
    } else {
        n.mids
    };
    lemma_unexpired_subset(more, e.seq, e.event.ts, l);
    let mids = unexpired(more, e.seq, e.event.ts, l);
    let o = ignition_sampled(n, l, mid, e);
    assert(o.mids == mids);
    if mids.contains(x) {
        lemma_more(n, more, fresh, x);
    } else {
        let k = choose|k: int| 0 <= k < origins(o).len() && origins(o)[k] == x;
        if k < mids.len() {
            assert(mids[k] == x);
        }
        assert(x == o.run.start && o.run.dir is Some);
        if mids.len() > 0 {
            assert(mids.contains(mids[0]));
        }
        if mids.len() >= 2 {
            assert(mids.contains(mids[mids.len() - 2]));
        }
        assert(x == n.run.start && n.run.dir is Some);
        assert(origins(n).last() == x);
    }
}

proof fn lemma_more(n: IgnitionModel, more: Seq<MidSample>, fresh: MidSample, x: MidSample)
    requires
        more == n.mids.push(fresh) || more == n.mids,
        more.contains(x),
    ensures
        origins(n).contains(x) || x == fresh,
{
    let k = choose|k: int| 0 <= k < more.len() && more[k] == x;
    if k < n.mids.len() {
        assert(origins(n)[k] == x);
    }
}

proof fn lemma_origins_were_mids(m: IgnitionModel, l: IgnitionLimits, s: Seq<SequencedEvent>)
    requires
        origins(m).len() == 0,
    ensures
        forall|x: MidSample| #[trigger] origins(ignition_run(m, l, s)).contains(x) ==> was_mid(m, l, s, x),
    decreases s.len(),
{
    if s.len() > 0 {
        lemma_origins_were_mids(m, l, s.drop_last());
        assert forall|x: MidSample| #[trigger] origins(ignition_run(m, l, s)).contains(x) implies was_mid(m, l, s, x) by {
            lemma_origin_of_step(m, l, s, x);
        }
    }
}

proof fn lemma_origin_of_step(m: IgnitionModel, l: IgnitionLimits, s: Seq<SequencedEvent>, x: MidSample)
    requires
        s.len() > 0,
        forall|y: MidSample| #[trigger]
            origins(ignition_run(m, l, s.drop_last())).contains(y) ==> was_mid(m, l, s.drop_last(), y),
        ({
            let n = ignition_mutated(ignition_run(m, l, s.drop_last()), l, s.last().event);
            ||| origins(ignition_run(m, l, s)).contains(x)
            ||| 1 <= s.last().event.event_type <= 4 && n.book.mid() is Some && origins(
                ignition_sampled(n, l, n.book.mid()->0, s.last()),
            ).contains(x)
        }),
    ensures
        was_mid(m, l, s, x),
{
    let d = s.drop_last();
    let e = s.last();
    let before = ignition_run(m, l, d);
    let n = ignition_mutated(before, l, e.event);
    assert(s.take(s.len() as int) =~= s);
    if 1 <= e.event.event_type <= 4 && n.book.mid() is Some {
        let mid = n.book.mid()->0;
        let o = ignition_sampled(n, l, mid, e);
        let after = ignition_run(m, l, s);
        if origins(after).contains(x) {
            let k = choose|k: int| 0 <= k < origins(after).len() && origins(after)[k] == x;
            assert(after.mids == o.mids);
            assert(origins(o)[k] == x);
        }
        lemma_sampled_origins(n, l, mid, e, x);
        assert(origins(n) == origins(before));
        if x == (MidSample { seq: e.seq, ts: e.event.ts, mid }) {
            assert(mid_after(m, l, s, s.len() - 1, x));
        }
    } else {
        assert(origins(ignition_run(m, l, s)) == origins(before));
    }
    if origins(before).contains(x) {
        let i = choose|i: int| mid_after(m, l, d, i, x);
        assert(s.take(i + 1) =~= d.take(i + 1));
        assert(mid_after(m, l, s, i, x));
    }
}

/// A flag speaks of the drift from `x` to a midprice.
pub open spec fn drifted(f: ChaosEvent, l: IgnitionLimits, x: MidSample, mid: u64, ts: u64) -> bool {
    &&& f.start_seq == x.seq
    &&& f.features.duration_ns == since(ts, x.ts)
    &&& f.features.price_displacement == displacement(x.mid, mid)
    &&& bps_of(x.mid, mid) >= l.min_move_bps
}

/// What a flag of a series says: it ends at the event that completes it and starts
/// no later, at an event of the series whose midprice it measures from. Its
/// displacement is from the midprice there to the midprice now and never zero, it
/// counts at least as many trades as are asked for, and the run starts over.
pub proof fn ignition_flag_measures_the_drift(m: IgnitionModel, l: IgnitionLimits, s: Seq<SequencedEvent>)
    requires
        s.len() > 0,
        l.min_move_bps >= 1,
        origins(m).len() == 0,
        forall|i: int, j: int| 0 <= i <= j < s.len() ==> (#[trigger] s[i]).seq <= (#[trigger] s[j]).seq,
        ignition_run(m, l, s.drop_last()).buys + ignition_run(m, l, s.drop_last()).sells < u64::MAX,
        ignition_step(ignition_run(m, l, s.drop_last()), l, s.last()).1 is Some,
    ensures
        ({
            let f = ignition_step(ignition_run(m, l, s.drop_last()), l, s.last()).1->0;
            let n = ignition_run(m, l, s);
            &&& f.kind == ChaosKind::MomentumIgnition
            &&& f.start_seq <= f.end_seq
            &&& f.end_seq == s.last().seq
            &&& f.features.event_count >= l.min_trades
            &&& f.features.price_displacement != 0
            &&& f.severity.wf()
            &&& f.initiator is None
            &&& n.run.len == 0
            &&& n.run.dir is None
            &&& n.book.mid() is Some
            &&& exists|i: int, x: MidSample| #[trigger]
                mid_after(m, l, s, i, x) && drifted(f, l, x, n.book.mid()->0, s.last().event.ts)
        }),
{
    let d = s.drop_last();
    let e = s.last();
    let before = ignition_run(m, l, d);
    let f = ignition_step(before, l, e).1->0;
    let n = ignition_mutated(before, l, e.event);
    let mid = n.book.mid()->0;
    let o = ignition_sampled(n, l, mid, e);
    let x = o.run.start;
    lemma_origins_were_mids(m, l, d);
    assert(origins(o).last() == x);
    lemma_origin_of_step(m, l, s, x);
    let i = choose|i: int| mid_after(m, l, s, i, x);
    assert(s[i].seq <= s[s.len() - 1].seq);
    moves_are_as_far_as_they_say(x.mid, mid, l.min_move_bps);
    assert(mid_after(m, l, s, i, x) && drifted(f, l, x, ignition_run(m, l, s).book.mid()->0, e.event.ts));
}

/// Differences stop at zero and sums at the largest number.
pub proof fn counters_stop_at_their_ends(a: u64, b: u64)
    ensures
        a >= b ==> since(a, b) == a - b,
        a < b ==> since(a, b) == 0,
        a + b <= u64::MAX ==> later(a, b) == a + b,
        a + b > u64::MAX ==> later(a, b) == u64::MAX,
{
}

/// Basis points are ten-thousandths of where a move began, rounded down, and a move down
/// counts as one up.
pub proof fn moves_are_in_basis_points(from: u64, d: u64)
    requires
        from > 0,
        from + d <= u64::MAX,
        d * 10_000 < from * u32::MAX,
    ensures
        bps_of(from, (from + d) as u64) * from <= d * 10_000 < (bps_of(from, (from + d) as u64) + 1) * from,
        d <= from ==> bps_of(from, (from - d) as u64) == bps_of(from, (from + d) as u64),
        bps_of(0, d) == 0,
{
    let (x, f) = (d * 10_000, from as int);
    let q = x / f;
    vstd::arithmetic::div_mod::lemma_fundamental_div_mod(x, f);
    vstd::arithmetic::div_mod::lemma_mod_bound(x, f);
    assert(q >= 0) by (nonlinear_arith)
        requires
            q == x / f,
            x >= 0,
            f > 0,
    ;
    assert(q < u32::MAX) by (nonlinear_arith)
        requires
            x < f * u32::MAX,
            f * q <= x,
            f > 0,
    ;
    assert(q * f <= x < (q + 1) * f) by (nonlinear_arith)
        requires
            f * q <= x,
            x < f * q + f,
    ;
}

/// What an event does to the book, by its type: an add adds at its place, a cancel of a
/// known order takes from the order's place, a trade takes as well and tells who took,
/// and all else leaves the book alone.
pub proof fn events_change_the_book_by_type(orders: Map<u64, OrderMeta>, e: Event)
    ensures
        e.event_type == event::event_code(EventType::OrderAdd) && e.side <= 1 ==> change_of(orders, e).1
            == (BookChange::Added { is_bid: e.side == 0, price: e.price, qty: e.qty }),
        e.event_type == event::event_code(EventType::OrderCancel) && e.order_id != 0 && orders.contains_key(
            e.order_id,
        ) && (e.qty == 0 || e.qty >= orders[e.order_id].qty) ==> change_of(orders, e) == (
            orders.remove(e.order_id),
            BookChange::Reduced {
                is_bid: orders[e.order_id].side == 0,
                price: orders[e.order_id].price,
                qty: orders[e.order_id].qty,
            },
        ),
        e.event_type == event::event_code(EventType::OrderCancel) && e.order_id == 0 && e.side <= 1 ==> change_of(
            orders,
            e,
        ) == (orders, BookChange::Reduced { is_bid: e.side == 0, price: e.price, qty: e.qty }),
        e.event_type == event::event_code(EventType::Trade) && e.order_id == 0 && e.side == 0 ==> change_of(
            orders,
            e,
        ).1 == (BookChange::Traded { is_bid: true, price: e.price, qty: e.qty, aggressor: AggressorSide::Sell }),
        e.event_type == event::event_code(EventType::Trade) && e.order_id == 0 && e.side == 1 ==> change_of(
            orders,
            e,
        ).1 == (BookChange::Traded { is_bid: false, price: e.price, qty: e.qty, aggressor: AggressorSide::Buy }),
        e.event_type == event::event_code(EventType::OrderModify) ==> change_of(orders, e) == (
            orders,
            BookChange::Nothing,
        ),
        e.event_type != event::event_code(EventType::OrderAdd) && e.event_type != event::event_code(
            EventType::OrderCancel,
        ) && e.event_type != event::event_code(EventType::Trade) ==> change_of(orders, e) == (
            orders,
            BookChange::Nothing,
        ),
{
}

/// Trades are counted by who pressed: at or above the middle of the best prices the
/// buyer, below it the seller, and without a midprice who did not rest. No other event
/// counts.
pub proof fn trades_are_counted_by_presser(m: IgnitionModel, l: IgnitionLimits, e: Event, price: u64, by: AggressorSide)
    requires
        m.buys < u64::MAX,
        m.sells < u64::MAX,
    ensures
        ({
            let n = ignition_mutated(m, l, e);
            let c = change_of(m.orders, e).1;
            let above = m.book.mid() is Some && 2 * price >= m.book.best_bid()->0 + m.book.best_ask()->0;
            let below = m.book.mid() is Some && 2 * price < m.book.best_bid()->0 + m.book.best_ask()->0;
            let blind = m.book.mid() is None;
            let traded = c is Traded && c->Traded_price == price && c->aggressor == by;
            &&& traded && (above || (blind && by == AggressorSide::Buy)) ==> n.buys == m.buys + 1 && n.sells == m.sells
            &&& traded && (below || (blind && by == AggressorSide::Sell)) ==> n.sells == m.sells + 1 && n.buys == m.buys
            &&& !(c is Traded) ==> n.buys == m.buys && n.sells == m.sells
            &&& n.mids == m.mids
            &&& n.run == m.run
            &&& n.quiet_until == m.quiet_until
        }),
{
}

/// A drift is flagged exactly where, after the event, the run has a direction and is long
/// enough, enough trades were counted, most of them that way, the midprice is far enough
/// from where the run began, and no cooldown runs.
pub proof fn ignitions_flag_by_the_limits(m: IgnitionModel, l: IgnitionLimits, e: SequencedEvent)
    requires
        1 <= e.event.event_type <= 4,
        ignition_mutated(m, l, e.event).book.mid() is Some,
    ensures
        ({
            let n = ignition_mutated(m, l, e.event);
            let mid = n.book.mid()->0;
            let s = ignition_sampled(n, l, mid, e);
            let up = s.run.dir == Some(Dir::Up) && s.buys > s.sells;
            let down = s.run.dir == Some(Dir::Down) && s.sells > s.buys;
            let (r, f) = ignition_step(m, l, e);
            &&& f is Some <==> e.seq >= m.quiet_until && (up || down) && s.run.len >= l.min_consecutive && s.buys
                + s.sells >= l.min_trades && bps_of(s.run.start.mid, mid) >= l.min_move_bps
            &&& f is None ==> r == s
            &&& f is Some ==> r.mids == s.mids && r.buys == s.buys && r.sells == s.sells && r.quiet_until == later(
                e.seq,
                l.cooldown_seq,
            )
            &&& f matches Some(x) ==> {
                let dom = if up { s.buys as int } else { s.sells as int };
                let total = s.buys + s.sells;
                &&& total <= u64::MAX ==> x.features.event_count == total
                &&& x.severity.first.tenths == 6 && x.severity.second.tenths == 4
                &&& x.severity.second.num * total == (2 * dom - total) * x.severity.second.den
                &&& bps_of(s.run.start.mid, mid) >= 4 * l.min_move_bps ==> x.severity.first.num
                    == x.severity.first.den
                &&& bps_of(s.run.start.mid, mid) < 4 * l.min_move_bps ==> x.severity.first.num * (4
                    * l.min_move_bps) == bps_of(s.run.start.mid, mid) * x.severity.first.den
            }
        }),
{
    let n = ignition_mutated(m, l, e.event);
    let mid = n.book.mid()->0;
    let s = ignition_sampled(n, l, mid, e);
    if ignited(s, l, mid) {
        let dom = pressure(s, s.run.dir->0) as int;
        let total = s.buys + s.sells;
        flag::capped_is_the_smaller(4, (2 * dom - total) as nat, total as nat);
        if l.min_move_bps > 0 {
            flag::capped_is_the_smaller(
                6,
                bps_of(s.run.start.mid, mid) as nat,
                (l.min_move_bps * 4) as nat,
            );
        }
    }
}

/// A sample lies further back than one of the windows that are on.
pub open spec fn too_old(x: MidSample, seq: u64, ts: u64, l: IgnitionLimits) -> bool {
    ||| l.seq_window > 0 && seq - x.seq > l.seq_window
    ||| l.time_window_ns > 0 && ts - x.ts > l.time_window_ns
}

/// Expiry takes a leading part, all of it too old, and stops at the first sample that is
/// not.
pub proof fn expiry_takes_the_oldest(mids: Seq<MidSample>, seq: u64, ts: u64, l: IgnitionLimits) -> (k: int)
    ensures
        0 <= k <= mids.len(),
        unexpired(mids, seq, ts, l) == mids.skip(k),
        forall|i: int| 0 <= i < k ==> too_old(#[trigger] mids[i], seq, ts, l),
        k < mids.len() ==> !too_old(mids[k], seq, ts, l),
    decreases mids.len(),
{
    if mids.len() > 0 && outdated(mids[0], seq, ts, l) {
        let d = mids.drop_first();
        let k = expiry_takes_the_oldest(d, seq, ts, l);
        assert(d.skip(k) =~= mids.skip(k + 1));
        assert forall|i: int| 0 <= i < k + 1 implies too_old(#[trigger] mids[i], seq, ts, l) by {
            if i > 0 {
                assert(d[i - 1] == mids[i]);
            }
        }
        if k + 1 < mids.len() {
            assert(d[k] == mids[k + 1]);
        }
        k + 1
    } else {
        assert(mids.skip(0) =~= mids);
        0
    }
}

/// The last `n` samples go one way, each beyond the one before.
pub open spec fn goes_one_way(mids: Seq<MidSample>, n: int, up: bool) -> bool {
    &&& 1 <= n <= mids.len()
    &&& forall|i: int, j: int|
        #![trigger mids[i], mids[j]]
        mids.len() - n <= i < j < mids.len() ==> (up ==> mids[i].mid < mids[j].mid) && (!up ==> mids[i].mid
            > mids[j].mid)
}

/// The run is what the latest samples did: they go its way, and it starts with the first
/// of them.
pub open spec fn run_is_real(mids: Seq<MidSample>, run: Run) -> bool {
    run.dir is Some ==> {
        &&& goes_one_way(mids, run.len as int, run.dir->0 == Dir::Up)
        &&& mids[mids.len() - run.len] == run.start
    }
}

/// Samples come in order.
pub open spec fn samples_in_order(mids: Seq<MidSample>) -> bool {
    forall|i: int, j: int|
        0 <= i <= j < mids.len() ==> (#[trigger] mids[i]).seq <= (#[trigger] mids[j]).seq && mids[i].ts
            <= mids[j].ts
}

proof fn lemma_expiry_keeps_runs_real(mids: Seq<MidSample>, run: Run, seq: u64, ts: u64, l: IgnitionLimits)
    requires
        samples_in_order(mids),
        run_is_real(mids, run),
        mids.len() <= u32::MAX,
    ensures
        ({
            let w = unexpired(mids, seq, ts, l);
            &&& samples_in_order(w)
            &&& w.len() > 0 ==> run_is_real(w, clipped(run, w, seq, ts, l))
        }),
{
    let k = expiry_takes_the_oldest(mids, seq, ts, l);
    let w = mids.skip(k);
    assert forall|i: int, j: int| 0 <= i <= j < w.len() implies (#[trigger] w[i]).seq <= (#[trigger] w[j]).seq
        && w[i].ts <= w[j].ts by {
        assert(w[i] == mids[i + k] && w[j] == mids[j + k]);
    }
    if w.len() > 0 && run.dir is Some {
        let a = mids.len() - run.len;
        let r = clipped(run, w, seq, ts, l);
        if !outdated(run.start, seq, ts, l) {
            if a < k {
                assert(too_old(mids[a], seq, ts, l));
            }
            assert(w[w.len() - run.len] == mids[a]);
        } else if k <= a {
            assert(mids[k].seq <= mids[a].seq && mids[k].ts <= mids[a].ts);
        }
        let n = r.len as int;
        assert forall|i: int, j: int|
            #![trigger w[i], w[j]]
            w.len() - n <= i < j < w.len() implies (run.dir->0 == Dir::Up ==> w[i].mid < w[j].mid) && (run.dir->0
            != Dir::Up ==> w[i].mid > w[j].mid) by {
            assert(w[i] == mids[i + k] && w[j] == mids[j + k]);
        }
    }
}

proof fn lemma_sample_keeps_runs_real(mids: Seq<MidSample>, run: Run, x: MidSample)
    requires
        mids.len() > 0,
        run_is_real(mids, run),
        mids.last().mid != x.mid,
        mids.len() < u32::MAX,
    ensures
        run_is_real(mids.push(x), next_run(run, mids.push(x))),
{
    let w = mids.push(x);
    let r = next_run(run, w);
    let n = r.len as int;
    assert(w[w.len() - 2] == mids.last());
    assert forall|i: int, j: int|
        #![trigger w[i], w[j]]
        w.len() - n <= i < j < w.len() implies (r.dir->0 == Dir::Up ==> w[i].mid < w[j].mid) && (r.dir->0 != Dir::Up
        ==> w[i].mid > w[j].mid) by {
        if j < mids.len() {
            assert(w[i] == mids[i] && w[j] == mids[j]);
        } else if i < mids.len() - 1 {
            assert(w[i] == mids[i] && w[mids.len() - 1] == mids[mids.len() - 1]);
        }
    }
}

/// What a detector knows of the midprices, in order and with a real run.
pub open spec fn knows_its_run(m: IgnitionModel) -> bool {
    &&& samples_in_order(m.mids)
    &&& m.mids.len() > 0 ==> run_is_real(m.mids, m.run)
}

/// The run that a detector counts is one: the latest midprices really went its way, one
/// beyond the other, from where it starts. A flag says that at least as many in a row
/// did as are asked for, with the displacement to show for it.
pub proof fn runs_are_monotone(m: IgnitionModel, l: IgnitionLimits, e: SequencedEvent)
    requires
        knows_its_run(m),
        m.mids.len() < u32::MAX,
        l.min_consecutive >= 1,
        forall|i: int| 0 <= i < m.mids.len() ==> (#[trigger] m.mids[i]).seq <= e.seq && m.mids[i].ts <= e.event.ts,
    ensures
        knows_its_run(ignition_step(m, l, e).0),
        forall|i: int|
            0 <= i < ignition_step(m, l, e).0.mids.len() ==> (#[trigger] ignition_step(m, l, e).0.mids[i]).seq
                <= e.seq && ignition_step(m, l, e).0.mids[i].ts <= e.event.ts,
        ignition_step(m, l, e).1 is Some ==> {
            let w = ignition_step(m, l, e).0.mids;
            exists|n: int|
                n >= l.min_consecutive && (goes_one_way(w, n, true) || goes_one_way(w, n, false)) && ignition_step(
                    m,
                    l,
                    e,
                ).1->0.start_seq == (#[trigger] w[w.len() - n]).seq
        },
{
    let r = ignition_step(m, l, e).0;
    if 1 <= e.event.event_type <= 4 && ignition_mutated(m, l, e.event).book.mid() is Some {
        let n = ignition_mutated(m, l, e.event);
        let mid = n.book.mid()->0;
        let s = ignition_sampled(n, l, mid, e);
        let x = MidSample { seq: e.seq, ts: e.event.ts, mid };
        let moved = n.mids.len() == 0 || n.mids.last().mid != mid;
        let more = if moved {
            n.mids.push(x)
        } else {
            n.mids
        };
        let k = expiry_takes_the_oldest(more, e.seq, e.event.ts, l);
        let w = unexpired(more, e.seq, e.event.ts, l);
        assert forall|i: int, j: int| 0 <= i <= j < more.len() implies (#[trigger] more[i]).seq <= (#[trigger] more[j]).seq
            && more[i].ts <= more[j].ts by {
            if j < n.mids.len() {
                assert(more[i] == n.mids[i] && more[j] == n.mids[j]);
            } else if i < n.mids.len() {
                assert(more[i] == n.mids[i]);
            }
        }
        assert forall|i: int| 0 <= i < w.len() implies (#[trigger] w[i]).seq <= e.seq && w[i].ts <= e.event.ts by {
            assert(w[i] == more[i + k]);
            if i + k < n.mids.len() {
                assert(more[i + k] == n.mids[i + k]);
            }
        }
        if moved && n.mids.len() > 0 {
            lemma_sample_keeps_runs_real(n.mids, n.run, x);
            let run = next_run(n.run, more);
            lemma_expiry_keeps_runs_real(more, run, e.seq, e.event.ts, l);
            if w.len() >= 2 {
                assert(w.last() == more.last() && w[w.len() - 2] == more[more.len() - 2]);
                assert(next_run(n.run, w) == run);
            }
        } else if moved {
            assert(w.len() <= 1);
        } else {
            lemma_expiry_keeps_runs_real(more, n.run, e.seq, e.event.ts, l);
        }
        assert(s.mids == w);
        assert(w.len() > 0 ==> run_is_real(w, s.run));
        if ignition_step(m, l, e).1 is Some {
            assert(s.buys + s.sells > 0);
            assert(w.len() > 0);
            assert(w[w.len() - s.run.len as int] == s.run.start);
            assert(r.mids == w);
        }
    }
}

/// What a flag of an ignition tells: from where its run began to now, how far the midprice
/// came, with its sign, and that in tenths: six for the move, full at four times the
/// minimum, and four for how one-sided the trades are.
pub proof fn ignition_flags_tell_their_run(m: IgnitionModel, l: IgnitionLimits, e: SequencedEvent)
    requires
        1 <= e.event.event_type <= 4,
        ignition_mutated(m, l, e.event).book.mid() is Some,
    ensures
        ({
            let n = ignition_mutated(m, l, e.event);
            let mid = n.book.mid()->0;
            let s = ignition_sampled(n, l, mid, e);
            let from = s.run.start;
            ignition_step(m, l, e).1 matches Some(f) ==> {
                &&& f.kind == ChaosKind::MomentumIgnition
                &&& f.start_seq == from.seq
                &&& f.end_seq == e.seq
                &&& f.initiator is None
                &&& e.event.ts >= from.ts ==> from.ts + f.features.duration_ns == e.event.ts
                &&& e.event.ts < from.ts ==> f.features.duration_ns == 0
                &&& mid <= i64::MAX && from.mid <= i64::MAX ==> from.mid + f.features.price_displacement == mid
                &&& f.features.cancel_trade_ratio.num == 0
                &&& f.features.depth_removed == 0
                &&& flag::is_part(f.severity.first, 6, bps_of(from.mid, mid) as int, 4 * l.min_move_bps)
                &&& f.severity.third.num == 0 && f.severity.third.tenths == 0
            }
        }),
{
    let n = ignition_mutated(m, l, e.event);
    let mid = n.book.mid()->0;
    let s = ignition_sampled(n, l, mid, e);
    flag::parts_are_capped(6, bps_of(s.run.start.mid, mid) as nat, (l.min_move_bps * 4) as nat);
}

} // verus!
