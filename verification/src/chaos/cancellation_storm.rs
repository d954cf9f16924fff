//! Cancellation storm: the share of cancels in a rolling window stays above its
//! usual level for a while.
//!
//! The detector keeps the window, the warm-up, the persistence and the cooldown.
//! The usual level is a running mean and deviation of rates and is kept by the
//! caller: [`CancellationStormDetector::preview`] gives the rate that an event
//! leads to, the caller judges it, and [`CancellationStormDetector::process`]
//! takes the verdict and says whether the rate belongs to the usual level.

use crate::book::event::{EventType, SequencedEvent};
#[allow(unused_imports)]
use crate::book::event;
use crate::book::types::SeqNum;
#[allow(unused_imports)]
use crate::chaos::detection;
use crate::chaos::flag::{ChaosEvent, ChaosFeatures, ChaosKind, Severity};
#[allow(unused_imports)]
use crate::chaos::flag;
#[allow(unused_imports)]
use crate::chaos::momentum_ignition;
use crate::ratio::{Fraction, Ratio};
use std::collections::VecDeque;
use vstd::prelude::*;

verus! {

/// Sequence number, time and type of an event.
pub type StormEntry = (SeqNum, u64, u8);

/// Cancels among all events of the window.
#[derive(Debug, Clone, Copy, PartialEq, Eq, Structural)]
pub struct RateSample {
    pub cancels: u64,
    pub total: u64,
}

/// What the caller makes of a rate: whether it is above the usual level by more
/// than is allowed for, and how severe that is.
#[derive(Debug, Clone, Copy, PartialEq, Eq, Structural)]
pub struct StormVerdict {
    pub above: bool,
    pub severity: Ratio,
}

/// The limits of a detector. A window of zero is off.
#[derive(Debug, Clone, Copy, PartialEq, Eq, Structural)]
pub struct StormLimits {
    pub seq_window: u64,
    pub time_window_ns: u64,
    /// Events that the window has to hold for a rate to count.
    pub min_window: usize,
    /// Rates that have to be learnt before one can be judged.
    pub warmup_samples: u64,
    /// Rates in a row that have to be above.
    pub min_consecutive: u64,
    pub cooldown_seq: u64,
}

/// Everything the detector remembers.
#[verifier::ext_equal]
pub struct StormModel {
    pub window: Seq<StormEntry>,
    /// Rates learnt.
    pub samples: u64,
    /// Rates in a row that were above, and where the row started.
    pub above: u64,
    pub start_seq: u64,
    pub start_ts: u64,
    /// No flag before this sequence number.
    pub quiet_until: u64,
}

/// The entry is out of a window.
pub open spec fn is_stale(x: StormEntry, seq: u64, ts: u64, l: StormLimits) -> bool {
    ||| l.seq_window > 0 && momentum_ignition::since(seq, x.0) > l.seq_window
    ||| l.time_window_ns > 0 && momentum_ignition::since(ts, x.1) > l.time_window_ns
}

/// The entries without the leading stale ones.
pub open spec fn without_stale(w: Seq<StormEntry>, seq: u64, ts: u64, l: StormLimits) -> Seq<StormEntry>
    decreases w.len(),
{
    if w.len() > 0 && is_stale(w[0], seq, ts, l) {
        without_stale(w.drop_first(), seq, ts, l)
    } else {
        w
    }
}

/// Cancels among the entries.
pub open spec fn cancels_in(w: Seq<StormEntry>) -> nat
    decreases w.len(),
{
    if w.len() == 0 {
        0
    } else {
        cancels_in(w.drop_last()) + if w.last().2 == event::event_code(EventType::OrderCancel) {
            1nat
        } else {
            0
        }
    }
}

proof fn lemma_cancels_front(w: Seq<StormEntry>)
    requires
        w.len() > 0,
    ensures
        cancels_in(w) == cancels_in(w.drop_first()) + if w[0].2 == event::event_code(
            EventType::OrderCancel,
        ) {
            1nat
        } else {
            0
        },
    decreases w.len(),
{
    if w.len() > 1 {
        lemma_cancels_front(w.drop_last());
        assert(w.drop_last().drop_first() =~= w.drop_first().drop_last());
        assert(w.drop_first().last() == w.last());
    } else {
        assert(w.drop_last() =~= Seq::<StormEntry>::empty());
        assert(w.drop_first() =~= Seq::<StormEntry>::empty());
    }
}

proof fn lemma_cancels_bound(w: Seq<StormEntry>)
    ensures
        cancels_in(w) <= w.len(),
    decreases w.len(),
{
    if w.len() > 0 {
        lemma_cancels_bound(w.drop_last());
    }
}

/// The window with an event in it.
pub open spec fn window_with(w: Seq<StormEntry>, l: StormLimits, e: SequencedEvent) -> Seq<StormEntry> {
    without_stale(w.push((e.seq, e.event.ts, e.event.event_type)), e.seq, e.event.ts, l)
}

/// The rate of a window, where it holds enough.
pub open spec fn rate_of(w: Seq<StormEntry>, l: StormLimits) -> Option<RateSample> {
    if w.len() < l.min_window {
        None
    } else {
        Some(RateSample { cancels: cancels_in(w) as u64, total: w.len() as u64 })
    }
}

/// The rate that an event leads to. Only adds, cancels and trades count.
pub open spec fn rate_after(w: Seq<StormEntry>, l: StormLimits, e: SequencedEvent) -> Option<RateSample> {
    if detection::is_quote(e.event.event_type) {
        rate_of(window_with(w, l, e), l)
    } else {
        None
    }
}

/// `a + 1`, or the largest number where that is larger.
pub open spec fn one_more(a: u64) -> u64 {
    if a == u64::MAX {
        u64::MAX
    } else {
        (a + 1) as u64
    }
}

/// The flag of a storm.
pub open spec fn storm_flag(m: StormModel, r: RateSample, v: StormVerdict, e: SequencedEvent) -> ChaosEvent {
    ChaosEvent {
        kind: ChaosKind::CancellationStorm,
        start_seq: m.start_seq,
        end_seq: e.seq,
        severity: flag::single_of(v.severity.num as nat, v.severity.den as nat),
        initiator: None,
        features: ChaosFeatures {
            event_count: r.total,
            duration_ns: momentum_ignition::since(e.event.ts, m.start_ts),
            cancel_trade_ratio: Fraction {
                num: r.cancels as u128,
                den: (r.total - r.cancels) as u128,
            },
            price_displacement: 0,
            depth_removed: 0,
        },
    }
}

/// What one event leads to: the state, a flag, a rate to learn.
pub struct StormOutcome {
    pub next: StormModel,
    pub flag: Option<ChaosEvent>,
    pub learn: Option<RateSample>,
}

/// A judged rate. While warming up every rate is learnt. A rate above goes into
/// a row, and the row flags once it is long enough and no cooldown runs; it is
/// never learnt. A rate not above ends the row and is learnt outside a cooldown.
pub open spec fn storm_judged(
    m: StormModel,
    l: StormLimits,
    e: SequencedEvent,
    r: RateSample,
    v: StormVerdict,
) -> StormOutcome {
    let quiet = e.seq < m.quiet_until;
    let learnt = StormModel { samples: one_more(m.samples), ..m };
    if m.samples < l.warmup_samples {
        StormOutcome { next: learnt, flag: None, learn: Some(r) }
    } else if v.above {
        let n = StormModel {
            above: (m.above + 1) as u64,
            start_seq: if m.above == 0 {
                e.seq
            } else {
                m.start_seq
            },
            start_ts: if m.above == 0 {
                e.event.ts
            } else {
                m.start_ts
            },
            ..m
        };
        if n.above >= l.min_consecutive && !quiet {
            StormOutcome {
                next: StormModel {
                    above: 0,
                    quiet_until: momentum_ignition::later(e.seq, l.cooldown_seq),
                    ..n
                },
                flag: Some(storm_flag(n, r, v, e)),
                learn: None,
            }
        } else {
            StormOutcome { next: n, flag: None, learn: None }
        }
    } else if quiet {
        StormOutcome { next: StormModel { above: 0, ..m }, flag: None, learn: None }
    } else {
        StormOutcome { next: StormModel { above: 0, ..learnt }, flag: None, learn: Some(r) }
    }
}

/// One event.
pub open spec fn storm_step(m: StormModel, l: StormLimits, e: SequencedEvent, v: StormVerdict) -> StormOutcome {
    if !detection::is_quote(e.event.event_type) {
        StormOutcome { next: m, flag: None, learn: None }
    } else {
        let n = StormModel { window: window_with(m.window, l, e), ..m };
        match rate_of(n.window, l) {
            None => StormOutcome { next: n, flag: None, learn: None },
            Some(r) => storm_judged(n, l, e, r, v),
        }
    }
}

/// What [`CancellationStormDetector::process`] hands back.
#[derive(Debug, Clone, Copy)]
pub struct StormStep {
    pub flag: Option<ChaosEvent>,
    /// A rate that belongs to the usual level.
    pub learn: Option<RateSample>,
}

/// Cancellation-storm detector.
#[derive(Debug)]
pub struct CancellationStormDetector {
    window: VecDeque<StormEntry>,
    limits: StormLimits,
    samples: u64,
    consecutive_above: u64,
    refractory_until: u64,
    burst_start_seq: u64,
    burst_start_ts: u64,
    cancels_in_window: u64,
}

impl View for CancellationStormDetector {
    type V = StormModel;

    closed spec fn view(&self) -> StormModel {
        StormModel {
            window: self.window@,
            samples: self.samples,
            above: self.consecutive_above,
            start_seq: self.burst_start_seq,
            start_ts: self.burst_start_ts,
            quiet_until: self.refractory_until,
        }
    }
}

impl CancellationStormDetector {
    /// The limits it was made with.
    pub closed spec fn config(&self) -> StormLimits {
        self.limits
    }

    /// The running count is the count of cancels in the window.
    pub closed spec fn wf(&self) -> bool {
        self.cancels_in_window == cancels_in(self.window@)
    }

    /// A detector. At least one window has to be on.
    pub fn new(
        seq_window: u64,
        time_window_ns: u64,
        min_window: usize,
        warmup_samples: u64,
        min_consecutive: u64,
        cooldown_seq: u64,
    ) -> (d: Self)
        requires
            seq_window != 0 || time_window_ns != 0,
            min_consecutive >= 1,
        ensures
            d.wf(),
            d.config() == (StormLimits {
                seq_window,
                time_window_ns,
                min_window,
                warmup_samples,
                min_consecutive,
                cooldown_seq,
            }),
            d@ == (StormModel {
                window: Seq::empty(),
                samples: 0,
                above: 0,
                start_seq: 0,
                start_ts: 0,
                quiet_until: 0,
            }),
    {
        CancellationStormDetector {
            window: VecDeque::new(),
            limits: StormLimits {
                seq_window,
                time_window_ns,
                min_window,
                warmup_samples,
                min_consecutive,
                cooldown_seq,
            },
            samples: 0,
            consecutive_above: 0,
            refractory_until: 0,
            burst_start_seq: 0,
            burst_start_ts: 0,
            cancels_in_window: 0,
        }
    }

    /// Whether the counters leave room for one more event.
    pub fn is_ready(&self) -> (b: bool)
        ensures
            b == (self@.above < u64::MAX && self@.window.len() < usize::MAX),
    {
        self.consecutive_above < u64::MAX && self.window.len() < usize::MAX
    }

    /// Number of rates learnt.
    pub fn welford_samples(&self) -> (n: u64)
        ensures
            n == self@.samples,
    {
        self.samples
    }

    /// Number of events in the window.
    pub fn window_len(&self) -> (n: usize)
        ensures
            n == self@.window.len(),
    {
        self.window.len()
    }

    /// The rate that this event will lead to. Changes nothing.
    pub fn preview(&self, seq_event: &SequencedEvent) -> (r: Option<RateSample>)
        requires
            self.wf(),
            self@.window.len() < usize::MAX,
        ensures
            r == rate_after(self@.window, self.config(), *seq_event),
    {
        let e = &seq_event.event;
        if e.event_type != EventType::OrderAdd.code() && e.event_type != EventType::OrderCancel.code()
            && e.event_type != EventType::Trade.code() {
            return None;
        }
        let ghost full = self.window@.push((seq_event.seq, e.ts, e.event_type));
        let cancel: bool = e.event_type == EventType::OrderCancel.code();
        proof {
            lemma_cancels_bound(full);
            lemma_cancels_bound(self.window@);
            assert(full.drop_last() =~= self.window@);
            assert(full.skip(0) =~= full);
        }
        let mut cancels: u64 = if cancel {
            self.cancels_in_window + 1
        } else {
            self.cancels_in_window
        };
        let mut gone: usize = 0;
        while gone < self.window.len()
            invariant
                full == self.window@.push((seq_event.seq, e.ts, e.event_type)),
                gone <= self.window@.len(),
                full.len() <= usize::MAX,
                cancels == cancels_in(full.skip(gone as int)),
                without_stale(full, seq_event.seq, e.ts, self.limits) == without_stale(
                    full.skip(gone as int),
                    seq_event.seq,
                    e.ts,
                    self.limits,
                ),
            ensures
                gone <= self.window@.len(),
                cancels == cancels_in(full.skip(gone as int)),
                without_stale(full, seq_event.seq, e.ts, self.limits) == full.skip(gone as int),
            decreases self.window@.len() - gone,
        {
            let x: StormEntry = self.window[gone];
            assert(full.skip(gone as int)[0] == x);
            assert(full.skip(gone as int).drop_first() =~= full.skip(gone + 1));
            proof {
                lemma_cancels_front(full.skip(gone as int));
            }
            if !self.stale(x, seq_event.seq, e.ts) {
                break;
            }
            if x.2 == EventType::OrderCancel.code() {
                cancels = cancels - 1;
            }
            gone += 1;
            proof {
                if gone == self.window@.len() {
                    let last = full.skip(gone as int);
                    assert(last[0] == (seq_event.seq, e.ts, e.event_type));
                }
            }
        }
        proof {
            let last = full.skip(gone as int);
            if gone == self.window@.len() {
                assert(last[0] == (seq_event.seq, e.ts, e.event_type));
            }
        }
        let total: usize = self.window.len() - gone + 1;
        if total < self.limits.min_window {
            None
        } else {
            Some(RateSample { cancels, total: total as u64 })
        }
    }

    /// Feeds one event with the verdict on the rate it leads to. The verdict
    /// does not matter where there is no rate or it is still warming up.
    pub fn process(&mut self, seq_event: &SequencedEvent, verdict: StormVerdict) -> (r: StormStep)
        requires
            old(self).wf(),
            old(self)@.above < u64::MAX,
            old(self)@.window.len() < usize::MAX,
        ensures
            final(self).wf(),
            final(self).config() == old(self).config(),
            ({
                let o = storm_step(old(self)@, old(self).config(), *seq_event, verdict);
                &&& final(self)@ == o.next
                &&& r.flag == o.flag
                &&& r.learn == o.learn
            }),
    {
        let e = &seq_event.event;
        if e.event_type != EventType::OrderAdd.code() && e.event_type != EventType::OrderCancel.code()
            && e.event_type != EventType::Trade.code() {
            return StormStep { flag: None, learn: None };
        }
        proof {
            lemma_cancels_bound(self.window@);
            let full = self.window@.push((seq_event.seq, e.ts, e.event_type));
            assert(full.drop_last() =~= self.window@);
        }
        self.window.push_back((seq_event.seq, e.ts, e.event_type));
        if e.event_type == EventType::OrderCancel.code() {
            self.cancels_in_window = self.cancels_in_window + 1;
        }
        self.evict_expired(seq_event.seq, e.ts);
        if self.window.len() < self.limits.min_window {
            return StormStep { flag: None, learn: None };
        }
        proof {
            lemma_cancels_bound(self.window@);
        }
        let rate = RateSample { cancels: self.cancels_in_window, total: self.window.len() as u64 };
        let quiet: bool = seq_event.seq < self.refractory_until;
        if self.samples < self.limits.warmup_samples {
            self.samples = self.samples.saturating_add(1);
            return StormStep { flag: None, learn: Some(rate) };
        }
        if verdict.above {
            if self.consecutive_above == 0 {
                self.burst_start_seq = seq_event.seq;
                self.burst_start_ts = e.ts;
            }
            self.consecutive_above = self.consecutive_above + 1;
            if self.consecutive_above >= self.limits.min_consecutive && !quiet {
                let raised: ChaosEvent = self.emit_flag(seq_event, rate, verdict);
                self.refractory_until = seq_event.seq.saturating_add(self.limits.cooldown_seq);
                self.consecutive_above = 0;
                return StormStep { flag: Some(raised), learn: None };
            }
            return StormStep { flag: None, learn: None };
        }
        self.consecutive_above = 0;
        if quiet {
            return StormStep { flag: None, learn: None };
        }
        self.samples = self.samples.saturating_add(1);
        StormStep { flag: None, learn: Some(rate) }
    }

    fn stale(&self, x: StormEntry, seq: u64, ts: u64) -> (r: bool)
        ensures
            r == is_stale(x, seq, ts, self.limits),
    {
        let old_seq: bool = self.limits.seq_window > 0 && seq.saturating_sub(x.0)
            > self.limits.seq_window;
        let old_ts: bool = self.limits.time_window_ns > 0 && ts.saturating_sub(x.1)
            > self.limits.time_window_ns;
        old_seq || old_ts
    }

    /// Drops the leading stale entries.
    fn evict_expired(&mut self, seq: u64, ts: u64)
        requires
            old(self).wf(),
        ensures
            final(self).wf(),
            final(self).config() == old(self).config(),
            final(self)@ == (StormModel {
                window: without_stale(old(self).window@, seq, ts, old(self).config()),
                ..old(self)@
            }),
    {
        let ghost target = without_stale(self.window@, seq, ts, self.limits);
        let ghost start = self@;
        while self.window.len() > 0
            invariant
                self.wf(),
                self.limits == old(self).limits,
                target == without_stale(self.window@, seq, ts, self.limits),
                self@ == (StormModel { window: self.window@, ..start }),
            ensures
                self.wf(),
                self.limits == old(self).limits,
                self.window@ == target,
                self@ == (StormModel { window: self.window@, ..start }),
            decreases self.window@.len(),
        {
            let x: StormEntry = self.window[0];
            if !self.stale(x, seq, ts) {
                break;
            }
            proof {
                lemma_cancels_front(self.window@);
            }
            assert(self.window@.drop_first() =~= self.window@.subrange(1, self.window@.len() as int));
            self.window.pop_front();
            if x.2 == EventType::OrderCancel.code() {
                self.cancels_in_window = self.cancels_in_window.saturating_sub(1);
            }
        }
    }

    fn emit_flag(&self, seq_event: &SequencedEvent, rate: RateSample, verdict: StormVerdict) -> (f: ChaosEvent)
        requires
            rate.cancels <= rate.total,
        ensures
            f == storm_flag(self@, rate, verdict, *seq_event),
    {
        ChaosEvent {
            kind: ChaosKind::CancellationStorm,
            start_seq: self.burst_start_seq,
            end_seq: seq_event.seq,
            severity: Severity::single(verdict.severity.num as u128, verdict.severity.den as u128),
            initiator: None,
            features: ChaosFeatures {
                event_count: rate.total,
                duration_ns: seq_event.event.ts.saturating_sub(self.burst_start_ts),
                cancel_trade_ratio: Fraction {
                    num: rate.cancels as u128,
                    den: (rate.total - rate.cancels) as u128,
                },
                price_displacement: 0,
                depth_removed: 0,
            },
        }
    }
}

// ─── Laws ───────────────────────────────────────────────────────────

/// While the usual level is still being learnt nothing is flagged, whatever
/// the verdicts say.
pub proof fn no_storm_during_warmup(m: StormModel, l: StormLimits, e: SequencedEvent, v: StormVerdict)
    requires
        m.samples < l.warmup_samples,
    ensures
        storm_step(m, l, e, v).flag is None,
        storm_step(m, l, e, v).next.above == m.above,
{
}

/// The detector after several events, each with the verdict on its rate.
pub open spec fn storm_run(m: StormModel, l: StormLimits, s: Seq<(SequencedEvent, StormVerdict)>) -> StormModel
    decreases s.len(),
{
    if s.len() == 0 {
        m
    } else {
        storm_step(storm_run(m, l, s.drop_last()), l, s.last().0, s.last().1).next
    }
}

/// After a flag nothing is flagged, however many events come and whatever the
/// verdicts, until the cooldown is over.
pub proof fn storm_cools_down(
    m: StormModel,
    l: StormLimits,
    e: SequencedEvent,
    v: StormVerdict,
    s: Seq<(SequencedEvent, StormVerdict)>,
    f: SequencedEvent,
    w: StormVerdict,
)
    requires
        storm_step(m, l, e, v).flag is Some,
        forall|i: int|
            0 <= i < s.len() ==> (#[trigger] s[i]).0.seq < momentum_ignition::later(e.seq, l.cooldown_seq),
        f.seq < momentum_ignition::later(e.seq, l.cooldown_seq),
    ensures
        storm_step(storm_run(storm_step(m, l, e, v).next, l, s), l, f, w).flag is None,
        storm_run(storm_step(m, l, e, v).next, l, s).quiet_until == momentum_ignition::later(
            e.seq,
            l.cooldown_seq,
        ),
    decreases s.len(),
{
    if s.len() > 0 {
        assert forall|i: int| 0 <= i < s.drop_last().len() implies (#[trigger] s.drop_last()[i]).0.seq
            < momentum_ignition::later(e.seq, l.cooldown_seq) by {
            assert(s.drop_last()[i] == s[i]);
        }
        let last = s[s.len() - 1];
        storm_cools_down(m, l, e, v, s.drop_last(), last.0, last.1);
    }
}

/// The usual level is never fed a rate that was judged above it, once warm.
pub proof fn storm_never_poisons_the_baseline(m: StormModel, l: StormLimits, e: SequencedEvent, v: StormVerdict)
    requires
        m.samples >= l.warmup_samples,
        v.above,
    ensures
        storm_step(m, l, e, v).learn is None,
        storm_step(m, l, e, v).next.samples == m.samples,
{
}

/// A flag needs as many rates above in a row as asked for: before it the row
/// was already one short of that, or longer.
pub proof fn storm_needs_persistence(m: StormModel, l: StormLimits, e: SequencedEvent, v: StormVerdict)
    requires
        storm_step(m, l, e, v).flag is Some,
    ensures
        v.above,
        m.above + 1 >= l.min_consecutive,
{
}

/// The rate handed to the caller beforehand is the rate that is judged.
pub proof fn preview_is_what_is_judged(m: StormModel, l: StormLimits, e: SequencedEvent, v: StormVerdict)
    ensures
        storm_step(m, l, e, v).learn matches Some(r) ==> rate_after(m.window, l, e) == Some(r),
        storm_step(m, l, e, v).flag is Some ==> rate_after(m.window, l, e) is Some,
{
}

/// The row of rates above started at the event at `i` of a series.
pub open spec fn row_from(s: Seq<(SequencedEvent, StormVerdict)>, i: int, seq: u64, ts: u64) -> bool {
    &&& 0 <= i < s.len()
    &&& s[i].0.seq == seq
    &&& s[i].0.event.ts == ts
    &&& s[i].1.above
}

proof fn lemma_row_start(m: StormModel, l: StormLimits, s: Seq<(SequencedEvent, StormVerdict)>)
    requires
        m.above == 0,
    ensures
        ({
            let n = storm_run(m, l, s);
            n.above > 0 ==> exists|i: int| row_from(s, i, n.start_seq, n.start_ts)
        }),
    decreases s.len(),
{
    if s.len() > 0 {
        let d = s.drop_last();
        let b = storm_run(m, l, d);
        let n = storm_run(m, l, s);
        lemma_row_start(m, l, d);
        if n.above > 0 {
            if b.above > 0 {
                let i = choose|i: int| row_from(d, i, b.start_seq, b.start_ts);
                assert(row_from(s, i, n.start_seq, n.start_ts));
            } else {
                assert(row_from(s, s.len() - 1, n.start_seq, n.start_ts));
            }
        }
    }
}

proof fn lemma_front_is_fresh(w: Seq<StormEntry>, seq: u64, ts: u64, l: StormLimits)
    requires
        w.len() > 0,
        !is_stale(w.last(), seq, ts, l),
    ensures
        without_stale(w, seq, ts, l).len() > 0,
        !is_stale(without_stale(w, seq, ts, l)[0], seq, ts, l),
        without_stale(w, seq, ts, l).last() == w.last(),
    decreases w.len(),
{
    if is_stale(w[0], seq, ts, l) {
        assert(w.drop_first().last() == w.last());
        lemma_front_is_fresh(w.drop_first(), seq, ts, l);
    }
}

/// What a flag of a series says: it comes on an add, a cancel or a trade, after the
/// warm-up, and out of a window that holds enough and begins within the limits. It
/// ends at the event that completes it and starts no later, where the row of rates
/// above started. Nothing is learnt from it, and the cooldown begins. Events of
/// other types flag nothing and change nothing.
pub proof fn storm_flag_is_earned(m: StormModel, l: StormLimits, s: Seq<(SequencedEvent, StormVerdict)>)
    requires
        s.len() > 0,
        m.above == 0,
        forall|i: int, j: int| 0 <= i <= j < s.len() ==> (#[trigger] s[i]).0.seq <= (#[trigger] s[j]).0.seq,
    ensures
        ({
            let b = storm_run(m, l, s.drop_last());
            let e = s.last().0;
            let o = storm_step(b, l, e, s.last().1);
            &&& o.next == storm_run(m, l, s)
            &&& !detection::is_quote(e.event.event_type) ==> o.next == b && o.flag is None && o.learn is None
            &&& o.flag matches Some(f) ==> {
                &&& f.kind == ChaosKind::CancellationStorm
                &&& detection::is_quote(e.event.event_type)
                &&& b.samples >= l.warmup_samples
                &&& o.next.window.len() >= l.min_window
                &&& o.next.window.len() > 0
                &&& !is_stale(o.next.window[0], e.seq, e.event.ts, l)
                &&& f.features.event_count == o.next.window.len() as u64
                &&& f.start_seq <= f.end_seq
                &&& f.end_seq == e.seq
                &&& exists|i: int|
                    row_from(s, i, f.start_seq, (#[trigger] s[i]).0.event.ts) && f.features.duration_ns
                        == momentum_ignition::since(e.event.ts, s[i].0.event.ts)
                &&& f.initiator is None
                &&& o.learn is None
                &&& o.next.samples == b.samples
                &&& o.next.above == 0
                &&& o.next.quiet_until == momentum_ignition::later(e.seq, l.cooldown_seq)
            }
        }),
{
    let d = s.drop_last();
    let b = storm_run(m, l, d);
    let e = s.last().0;
    let o = storm_step(b, l, e, s.last().1);
    lemma_row_start(m, l, d);
    lemma_front_is_fresh(b.window.push((e.seq, e.event.ts, e.event.event_type)), e.seq, e.event.ts, l);
    if o.flag is Some {
        let f = o.flag->0;
        let i = if b.above > 0 {
            let i = choose|i: int| row_from(d, i, b.start_seq, b.start_ts);
            assert(s[i] == d[i]);
            i
        } else {
            s.len() - 1
        };
        assert(s[i].0.seq <= s[s.len() - 1].0.seq);
        assert(row_from(s, i, f.start_seq, s[i].0.event.ts));
    }
}

/// A storm is flagged exactly where the event is an add, a cancel or a trade, its window
/// holds enough, the warm-up is over, the rate is above, enough rates in a row were, and
/// no cooldown runs. Otherwise the rate is learnt, unless it is above once warm or a
/// cooldown runs.
pub proof fn storms_flag_by_the_limits(m: StormModel, l: StormLimits, e: SequencedEvent, v: StormVerdict)
    requires
        m.above < u64::MAX,
        m.window.len() < u64::MAX,
    ensures
        ({
            let o = storm_step(m, l, e, v);
            let t = e.event.event_type;
            let quote = t == event::event_code(EventType::OrderAdd) || t == event::event_code(EventType::OrderCancel)
                || t == event::event_code(EventType::Trade);
            let enough = quote && o.next.window.len() >= l.min_window;
            let warm = m.samples >= l.warmup_samples;
            let quiet = e.seq < m.quiet_until;
            &&& o.flag is Some <==> enough && warm && v.above && m.above + 1 >= l.min_consecutive && !quiet
            &&& o.learn is Some <==> enough && (!warm || (!v.above && !quiet))
            &&& o.learn matches Some(r) ==> r.total == o.next.window.len() && r.cancels == cancels_in(
                o.next.window,
            )
            &&& o.flag matches Some(f) ==> {
                &&& f.features.event_count == o.next.window.len()
                &&& f.features.cancel_trade_ratio.num == cancels_in(o.next.window)
                &&& f.features.cancel_trade_ratio.den == o.next.window.len() - cancels_in(o.next.window)
                &&& v.severity.den > 0 && v.severity.num <= v.severity.den ==> f.severity.first.num
                    * v.severity.den == v.severity.num * f.severity.first.den
            }
            &&& o.next.samples > m.samples ==> o.learn is Some
            &&& o.learn is Some && m.samples < u64::MAX ==> o.next.samples == m.samples + 1
            &&& enough && warm && v.above && o.flag is None ==> o.next.above == m.above + 1
            &&& enough && warm && !v.above ==> o.next.above == 0
            &&& o.flag is Some ==> o.next.above == 0
            &&& !enough || !warm ==> o.next.above == m.above
            &&& o.next.quiet_until != m.quiet_until ==> o.flag is Some
        }),
{
    let n = window_with(m.window, l, e);
    lemma_cancels_bound(n);
    lemma_stale_is_a_prefix(m.window.push((e.seq, e.event.ts, e.event.event_type)), e.seq, e.event.ts, l);
    if v.severity.den > 0 {
        flag::capped_is_the_smaller(10, v.severity.num as nat, v.severity.den as nat);
    }
}

/// Cancels are counted one by one.
pub proof fn cancels_are_counted(w: Seq<StormEntry>, x: StormEntry)
    ensures
        cancels_in(Seq::empty()) == 0,
        x.2 == event::event_code(EventType::OrderCancel) ==> cancels_in(w.push(x)) == cancels_in(w) + 1,
        x.2 != event::event_code(EventType::OrderCancel) ==> cancels_in(w.push(x)) == cancels_in(w),
{
    assert(w.push(x).drop_last() =~= w);
}

/// An entry lies further back than one of the windows that are on.
pub open spec fn too_far_back(x: StormEntry, seq: u64, ts: u64, l: StormLimits) -> bool {
    ||| l.seq_window > 0 && seq - x.0 > l.seq_window
    ||| l.time_window_ns > 0 && ts - x.1 > l.time_window_ns
}

/// What goes from a window is a leading part of it, and all of that is too far back; what
/// stays begins with an entry that is not.
proof fn lemma_stale_is_a_prefix(w: Seq<StormEntry>, seq: u64, ts: u64, l: StormLimits) -> (k: int)
    ensures
        0 <= k <= w.len(),
        without_stale(w, seq, ts, l) == w.skip(k),
        forall|i: int| 0 <= i < k ==> too_far_back(#[trigger] w[i], seq, ts, l),
        k < w.len() ==> !too_far_back(w[k], seq, ts, l),
    decreases w.len(),
{
    if w.len() > 0 && is_stale(w[0], seq, ts, l) {
        let d = w.drop_first();
        let k = lemma_stale_is_a_prefix(d, seq, ts, l);
        assert(d.skip(k) =~= w.skip(k + 1));
        assert forall|i: int| 0 <= i < k + 1 implies too_far_back(#[trigger] w[i], seq, ts, l) by {
            if i > 0 {
                assert(d[i - 1] == w[i]);
            }
        }
        if k + 1 < w.len() {
            assert(d[k] == w[k + 1]);
        }
        k + 1
    } else {
        assert(w.skip(0) =~= w);
        0
    }
}

/// The window of a stream in order holds exactly the adds, cancels and trades that are
/// not too far back of the last of them, in their order: none of these is forgotten, and
/// nothing else is counted.
pub proof fn storm_window_holds_the_recent(m: StormModel, l: StormLimits, s: Seq<(SequencedEvent, StormVerdict)>, q: Seq<StormEntry>)
    requires
        m.window.len() == 0,
        s.len() > 0,
        detection::is_quote(s.last().0.event.event_type),
        q == quotes_in(s),
        forall|i: int, j: int|
            0 <= i <= j < s.len() ==> (#[trigger] s[i]).0.seq <= (#[trigger] s[j]).0.seq && s[i].0.event.ts
                <= s[j].0.event.ts,
    ensures
        ({
            let w = storm_run(m, l, s).window;
            let (seq, ts) = (s.last().0.seq, s.last().0.event.ts);
            let k = q.len() - w.len();
            &&& w.len() <= q.len()
            &&& w == q.skip(k)
            &&& forall|i: int| 0 <= i < k ==> too_far_back(#[trigger] q[i], seq, ts, l)
            &&& forall|i: int| k <= i < q.len() ==> !too_far_back(#[trigger] q[i], seq, ts, l)
        }),
{
    lemma_storm_window(m, l, s);
    let w = storm_run(m, l, s).window;
    let k = q.len() - w.len();
    assert forall|i: int| k <= i < q.len() implies !too_far_back(#[trigger] q[i], s.last().0.seq, s.last().0.event.ts, l) by {
        lemma_quotes_in_order(s, k, i);
        assert(!too_far_back(q[k], s.last().0.seq, s.last().0.event.ts, l));
    }
}

/// The adds, cancels and trades of a stream.
pub open spec fn quotes_in(s: Seq<(SequencedEvent, StormVerdict)>) -> Seq<StormEntry>
    decreases s.len(),
{
    if s.len() == 0 {
        Seq::empty()
    } else {
        let e = s.last().0;
        let t = e.event.event_type;
        if t == event::event_code(EventType::OrderAdd) || t == event::event_code(EventType::OrderCancel) || t
            == event::event_code(EventType::Trade) {
            quotes_in(s.drop_last()).push((e.seq, e.event.ts, t))
        } else {
            quotes_in(s.drop_last())
        }
    }
}

proof fn lemma_quotes_in_order(s: Seq<(SequencedEvent, StormVerdict)>, a: int, b: int)
    requires
        0 <= a <= b < quotes_in(s).len(),
        forall|i: int, j: int|
            0 <= i <= j < s.len() ==> (#[trigger] s[i]).0.seq <= (#[trigger] s[j]).0.seq && s[i].0.event.ts
                <= s[j].0.event.ts,
    ensures
        quotes_in(s)[a].0 <= quotes_in(s)[b].0,
        quotes_in(s)[a].1 <= quotes_in(s)[b].1,
        quotes_in(s)[b].0 <= s.last().0.seq,
        quotes_in(s)[b].1 <= s.last().0.event.ts,
    decreases s.len(),
{
    let d = s.drop_last();
    assert forall|i: int, j: int| 0 <= i <= j < d.len() implies (#[trigger] d[i]).0.seq <= (#[trigger] d[j]).0.seq
        && d[i].0.event.ts <= d[j].0.event.ts by {
        assert(d[i] == s[i] && d[j] == s[j]);
    }
    let p = quotes_in(d);
    if d.len() > 0 {
        assert(s[s.len() - 2].0.seq <= s[s.len() - 1].0.seq);
    }
    if b < p.len() {
        lemma_quotes_in_order(d, a, b);
        assert(d.len() > 0);
    } else if a < p.len() {
        lemma_quotes_in_order(d, a, a);
        assert(d.len() > 0);
    }
}

proof fn lemma_storm_window(m: StormModel, l: StormLimits, s: Seq<(SequencedEvent, StormVerdict)>)
    requires
        m.window.len() == 0,
        forall|i: int, j: int|
            0 <= i <= j < s.len() ==> (#[trigger] s[i]).0.seq <= (#[trigger] s[j]).0.seq && s[i].0.event.ts
                <= s[j].0.event.ts,
    ensures
        ({
            let w = storm_run(m, l, s).window;
            let q = quotes_in(s);
            let k = q.len() - w.len();
            &&& w.len() <= q.len()
            &&& w == q.skip(k)
            &&& s.len() > 0 ==> forall|i: int|
                0 <= i < k ==> too_far_back(#[trigger] q[i], s.last().0.seq, s.last().0.event.ts, l)
            &&& s.len() > 0 && detection::is_quote(s.last().0.event.event_type) && k < q.len() ==> !too_far_back(
                q[k],
                s.last().0.seq,
                s.last().0.event.ts,
                l,
            )
        }),
    decreases s.len(),
{
    if s.len() > 0 {
        let d = s.drop_last();
        assert forall|i: int, j: int| 0 <= i <= j < d.len() implies (#[trigger] d[i]).0.seq <= (#[trigger] d[j]).0.seq
            && d[i].0.event.ts <= d[j].0.event.ts by {
            assert(d[i] == s[i] && d[j] == s[j]);
        }
        lemma_storm_window(m, l, d);
        let e = s[s.len() - 1].0;
        assert(e == s.last().0);
        let v = storm_run(m, l, d).window;
        let p = quotes_in(d);
        let q = quotes_in(s);
        let w = storm_run(m, l, s).window;
        let c = p.len() - v.len();
        if d.len() > 0 {
            assert(d.last() == s[s.len() - 2]);
            assert(s[s.len() - 2].0.seq <= s[s.len() - 1].0.seq);
        }
        if detection::is_quote(e.event.event_type) {
            let x = (e.seq, e.event.ts, e.event.event_type);
            let full = v.push(x);
            let k = lemma_stale_is_a_prefix(full, e.seq, e.event.ts, l);
            assert(w == full.skip(k));
            assert(full =~= q.skip(c));
            assert(w =~= q.skip(c + k));
            assert(!too_far_back(full[full.len() - 1], e.seq, e.event.ts, l));
            assert(k < full.len());
            assert forall|i: int| 0 <= i < c + k implies too_far_back(#[trigger] q[i], e.seq, e.event.ts, l) by {
                if i < c {
                    assert(p[i] == q[i]);
                } else {
                    assert(full[i - c] == q[i]);
                }
            }
            assert(q[c + k] == full[k]);
        } else {
            assert(q == p && w == v);
            assert forall|i: int| 0 <= i < c implies too_far_back(#[trigger] q[i], e.seq, e.event.ts, l) by {
                assert(too_far_back(p[i], d.last().0.seq, d.last().0.event.ts, l));
            }
        }
    } else {
        assert(storm_run(m, l, s).window =~= quotes_in(s).skip(0));
    }
}

/// What a flag of a storm tells: from where its row of rates began to now, with all of the
/// severity that the rate was judged to have, and nothing of orders, price or depth.
pub proof fn storm_flags_tell_their_row(m: StormModel, l: StormLimits, e: SequencedEvent, v: StormVerdict)
    ensures
        storm_step(m, l, e, v).flag matches Some(f) ==> {
            &&& f.kind == ChaosKind::CancellationStorm
            &&& f.end_seq == e.seq
            &&& m.above == 0 ==> f.start_seq == e.seq && f.features.duration_ns == 0
            &&& m.above > 0 ==> f.start_seq == m.start_seq
            &&& m.above > 0 && e.event.ts >= m.start_ts ==> m.start_ts + f.features.duration_ns == e.event.ts
            &&& m.above > 0 && e.event.ts < m.start_ts ==> f.features.duration_ns == 0
            &&& f.initiator is None
            &&& f.features.price_displacement == 0
            &&& f.features.depth_removed == 0
            &&& flag::is_part(f.severity.first, 10, v.severity.num as int, v.severity.den as int)
            &&& f.severity.second.num == 0
            &&& f.severity.third.num == 0
        },
{
    flag::parts_are_capped(10, v.severity.num as nat, v.severity.den as nat);
}

} // verus!
