//! Runs one adversarial pattern at a time, for a limited time.

use crate::book::event::SequencedEvent;
use crate::chaos::flag::ChaosKind;
use crate::chaos::generators::cancellation::CancelModel;
use crate::chaos::generators::crash::CrashModel;
use crate::chaos::generators::dial::clamp_severity;
use crate::chaos::generators::latency::LatencyModel;
use crate::chaos::generators::momentum::MomentumModel;
use crate::chaos::generators::phantom::PhantomModel;
use crate::chaos::generators::{
    CancellationStormGenerator, FlashCrashGenerator, LatencyArbProxyGenerator, MomentumIgnitionGenerator,
    PhantomLiquidityGenerator, StormGenerator,
};
#[allow(unused_imports)]
use crate::chaos::generators::{cancellation, crash, dial, latency, momentum, phantom, tape};
use crate::ratio::Ratio;
use vstd::prelude::*;

verus! {

/// What is asked for: a pattern, how strong, how long, and from which seed.
#[derive(Debug, Clone, Copy, PartialEq, Eq, Structural)]
pub struct StormSpec {
    pub kind: ChaosKind,
    pub severity: Ratio,
    pub duration_ns: u64,
    pub seed: u64,
}

/// Whether a storm is on.
#[derive(Debug, Clone, Copy, PartialEq, Eq, Structural)]
pub enum StormMode {
    Idle,
    Active,
}

/// What can be seen of the storm that is on.
#[derive(Debug, Clone, Copy, PartialEq, Eq, Structural)]
pub struct StormSnapshot {
    pub mode: StormMode,
    pub kind: Option<ChaosKind>,
    pub severity: Ratio,
    pub seed: u64,
    pub started_at_ns: u64,
    pub expires_at_ns: u64,
    pub restarts: u32,
}

/// What is seen when nothing is on.
pub open spec fn idle_snapshot() -> StormSnapshot {
    StormSnapshot {
        mode: StormMode::Idle,
        kind: None,
        severity: Ratio { num: 0, den: 1 },
        seed: 0,
        started_at_ns: 0,
        expires_at_ns: 0,
        restarts: 0,
    }
}

impl StormSnapshot {
    /// Nothing is on.
    pub fn idle() -> (s: Self)
        ensures
            s == idle_snapshot(),
    {
        StormSnapshot {
            mode: StormMode::Idle,
            kind: None,
            severity: Ratio { num: 0, den: 1 },
            seed: 0,
            started_at_ns: 0,
            expires_at_ns: 0,
            restarts: 0,
        }
    }

    /// Whether something is on.
    pub fn is_active(&self) -> (b: bool)
        ensures
            b == (self.mode == StormMode::Active),
    {
        self.mode == StormMode::Active
    }
}

/// The generator of a storm.
#[derive(Debug)]
enum StormSource {
    Phantom(PhantomLiquidityGenerator),
    Cancellation(CancellationStormGenerator),
    Momentum(MomentumIgnitionGenerator),
    Crash(FlashCrashGenerator),
    Latency(LatencyArbProxyGenerator),
}

/// What the generator of a storm is.
pub enum SourceModel {
    Phantom(PhantomModel),
    Cancellation(CancelModel),
    Momentum(MomentumModel),
    Crash(CrashModel),
    Latency(LatencyModel),
}

impl View for StormSource {
    type V = SourceModel;

    closed spec fn view(&self) -> SourceModel {
        match self {
            StormSource::Phantom(g) => SourceModel::Phantom(g@),
            StormSource::Cancellation(g) => SourceModel::Cancellation(g@),
            StormSource::Momentum(g) => SourceModel::Momentum(g@),
            StormSource::Crash(g) => SourceModel::Crash(g@),
            StormSource::Latency(g) => SourceModel::Latency(g@),
        }
    }
}

impl SourceModel {
    /// Settings and state are in their ranges.
    pub open spec fn wf(self) -> bool {
        match self {
            SourceModel::Phantom(m) => PhantomLiquidityGenerator::wf(m),
            SourceModel::Cancellation(m) => CancellationStormGenerator::wf(m),
            SourceModel::Momentum(m) => MomentumIgnitionGenerator::wf(m),
            SourceModel::Crash(m) => FlashCrashGenerator::wf(m),
            SourceModel::Latency(m) => LatencyArbProxyGenerator::wf(m),
        }
    }

    /// How many sequence numbers the next step can use up.
    pub open spec fn span(self) -> nat {
        match self {
            SourceModel::Phantom(m) => PhantomLiquidityGenerator::span(m),
            SourceModel::Cancellation(m) => CancellationStormGenerator::span(m),
            SourceModel::Momentum(m) => MomentumIgnitionGenerator::span(m),
            SourceModel::Crash(m) => FlashCrashGenerator::span(m),
            SourceModel::Latency(m) => LatencyArbProxyGenerator::span(m),
        }
    }

    /// The next state and the events of one step.
    pub open spec fn stepped(self, now_ns: u64, base_seq: u64) -> (SourceModel, Seq<SequencedEvent>) {
        match self {
            SourceModel::Phantom(m) => {
                let r = PhantomLiquidityGenerator::stepped(m, now_ns, base_seq);
                (SourceModel::Phantom(r.0), r.1)
            },
            SourceModel::Cancellation(m) => {
                let r = CancellationStormGenerator::stepped(m, now_ns, base_seq);
                (SourceModel::Cancellation(r.0), r.1)
            },
            SourceModel::Momentum(m) => {
                let r = MomentumIgnitionGenerator::stepped(m, now_ns, base_seq);
                (SourceModel::Momentum(r.0), r.1)
            },
            SourceModel::Crash(m) => {
                let r = FlashCrashGenerator::stepped(m, now_ns, base_seq);
                (SourceModel::Crash(r.0), r.1)
            },
            SourceModel::Latency(m) => {
                let r = LatencyArbProxyGenerator::stepped(m, now_ns, base_seq);
                (SourceModel::Latency(r.0), r.1)
            },
        }
    }

    /// When the next step is due.
    pub open spec fn due(self) -> u64 {
        match self {
            SourceModel::Phantom(m) => PhantomLiquidityGenerator::due(m),
            SourceModel::Cancellation(m) => CancellationStormGenerator::due(m),
            SourceModel::Momentum(m) => MomentumIgnitionGenerator::due(m),
            SourceModel::Crash(m) => FlashCrashGenerator::due(m),
            SourceModel::Latency(m) => LatencyArbProxyGenerator::due(m),
        }
    }

    /// The programme is over.
    pub open spec fn done(self) -> bool {
        match self {
            SourceModel::Phantom(m) => PhantomLiquidityGenerator::done(m),
            SourceModel::Cancellation(m) => CancellationStormGenerator::done(m),
            SourceModel::Momentum(m) => MomentumIgnitionGenerator::done(m),
            SourceModel::Crash(m) => FlashCrashGenerator::done(m),
            SourceModel::Latency(m) => LatencyArbProxyGenerator::done(m),
        }
    }
}

impl StormSource {
    fn step(&mut self, now_ns: u64, base_seq: u64) -> (out: Vec<SequencedEvent>)
        requires
            old(self)@.wf(),
            base_seq + old(self)@.span() <= u64::MAX,
        ensures
            final(self)@.wf(),
            (final(self)@, out@) == old(self)@.stepped(now_ns, base_seq),
            tape::numbered(out@, base_seq as int, base_seq + old(self)@.span()),
    {
        match self {
            StormSource::Phantom(g) => g.step(now_ns, base_seq),
            StormSource::Cancellation(g) => g.step(now_ns, base_seq),
            StormSource::Momentum(g) => g.step(now_ns, base_seq),
            StormSource::Crash(g) => g.step(now_ns, base_seq),
            StormSource::Latency(g) => g.step(now_ns, base_seq),
        }
    }

    fn next_due_ns(&self) -> (t: u64)
        ensures
            t == self@.due(),
    {
        match self {
            StormSource::Phantom(g) => g.next_due_ns(),
            StormSource::Cancellation(g) => g.next_due_ns(),
            StormSource::Momentum(g) => g.next_due_ns(),
            StormSource::Crash(g) => g.next_due_ns(),
            StormSource::Latency(g) => g.next_due_ns(),
        }
    }

    fn finished(&self) -> (b: bool)
        ensures
            b == self@.done(),
    {
        match self {
            StormSource::Phantom(g) => g.finished(),
            StormSource::Cancellation(g) => g.finished(),
            StormSource::Momentum(g) => g.finished(),
            StormSource::Crash(g) => g.finished(),
            StormSource::Latency(g) => g.finished(),
        }
    }
}

/// How many sequence numbers one step of any storm can use up.
pub const STEP_SPAN: u64 = 4_224;

/// How many steps one poll takes at most.
pub const POLL_STEPS: u64 = 32;

/// How many sequence numbers one poll can use up.
pub const POLL_SPAN: u64 = 135_168;

/// How many periods cover a duration, but at least some.
pub open spec fn cycles_of(duration_ns: u64, period_ns: u64, minimum: u32) -> u32 {
    let cycles = duration_ns.saturating_add(period_ns.saturating_sub(1)) / (if period_ns < 1 {
        1
    } else {
        period_ns
    });
    if cycles <= minimum {
        minimum
    } else if cycles > u32::MAX {
        u32::MAX
    } else {
        cycles as u32
    }
}

/// How many periods cover a duration, but at least some.
fn cycles_from_duration(duration_ns: u64, period_ns: u64, minimum: u32) -> (n: u32)
    ensures
        n == cycles_of(duration_ns, period_ns, minimum),
        n >= minimum,
{
    let period: u64 = if period_ns < 1 {
        1
    } else {
        period_ns
    };
    let cycles: u64 = duration_ns.saturating_add(period_ns.saturating_sub(1)) / period;
    if cycles <= minimum as u64 {
        minimum
    } else if cycles > u32::MAX as u64 {
        u32::MAX
    } else {
        cycles as u32
    }
}

/// The generator of a storm's `restart`-th run. Stuffing and spoofing are
/// played by vanishing orders too.
pub open spec fn spawned(spec: StormSpec, base_price: u64, restart: u32) -> SourceModel {
    let seed = spec.seed.wrapping_add(restart as u64);
    match spec.kind {
        ChaosKind::CancellationStorm => SourceModel::Cancellation(
            cancellation::new_cancel(seed, spec.severity, base_price),
        ),
        ChaosKind::MomentumIgnition => SourceModel::Momentum(
            momentum::new_momentum(seed, spec.severity, base_price, true),
        ),
        ChaosKind::FlashCrash => SourceModel::Crash(
            crash::new_crash(seed, spec.severity, base_price, true, cycles_of(spec.duration_ns, 80_000_000, 1)),
        ),
        ChaosKind::LatencyArbitrage => SourceModel::Latency(
            latency::new_latency(seed, spec.severity, base_price, cycles_of(spec.duration_ns, 40_000_000, 1)),
        ),
        ChaosKind::PhantomLiquidity | ChaosKind::QuoteStuff | ChaosKind::Spoof => SourceModel::Phantom(
            phantom::new_phantom(seed, spec.severity, base_price, cycles_of(spec.duration_ns, 5_000_000, 4)),
        ),
    }
}

/// A storm that climbs has room for its prices.
pub open spec fn storm_fits(spec: StormSpec, base_price: u64) -> bool {
    spec.kind == ChaosKind::MomentumIgnition ==> momentum::quotes_fit(
        momentum::new_momentum(spec.seed, spec.severity, base_price, true),
    )
}

/// The generator of a storm's `restart`-th run.
fn spawn_generator(spec: StormSpec, base_price: u64, restart: u32) -> (g: StormSource)
    requires
        storm_fits(spec, base_price),
    ensures
        g@ == spawned(spec, base_price, restart),
        g@.wf(),
        !g@.done(),
{
    let seed: u64 = spec.seed.wrapping_add(restart as u64);
    match spec.kind {
        ChaosKind::CancellationStorm => StormSource::Cancellation(
            CancellationStormGenerator::new(seed, spec.severity, base_price),
        ),
        ChaosKind::MomentumIgnition => StormSource::Momentum(
            MomentumIgnitionGenerator::new(seed, spec.severity, base_price, true),
        ),
        ChaosKind::FlashCrash => StormSource::Crash(
            FlashCrashGenerator::new(
                seed,
                spec.severity,
                base_price,
                true,
                cycles_from_duration(spec.duration_ns, 80_000_000, 1),
            ),
        ),
        ChaosKind::LatencyArbitrage => StormSource::Latency(
            LatencyArbProxyGenerator::new(
                seed,
                spec.severity,
                base_price,
                cycles_from_duration(spec.duration_ns, 40_000_000, 1),
            ),
        ),
        ChaosKind::PhantomLiquidity | ChaosKind::QuoteStuff | ChaosKind::Spoof => StormSource::Phantom(
            PhantomLiquidityGenerator::new(
                seed,
                spec.severity,
                base_price,
                cycles_from_duration(spec.duration_ns, 5_000_000, 4),
            ),
        ),
    }
}

/// A storm that is on.
#[derive(Debug)]
struct ActiveStorm {
    spec: StormSpec,
    started_at_ns: u64,
    expires_at_ns: u64,
    restarts: u32,
    source: StormSource,
}

/// What a storm that is on is.
pub struct ActiveModel {
    pub spec: StormSpec,
    pub started_at_ns: u64,
    pub expires_at_ns: u64,
    pub restarts: u32,
    pub source: SourceModel,
}

impl View for ActiveStorm {
    type V = ActiveModel;

    closed spec fn view(&self) -> ActiveModel {
        ActiveModel {
            spec: self.spec,
            started_at_ns: self.started_at_ns,
            expires_at_ns: self.expires_at_ns,
            restarts: self.restarts,
            source: self.source@,
        }
    }
}

/// What the orchestrator is.
pub struct StormModel {
    pub base_price: u64,
    pub active: Option<ActiveModel>,
}

/// The request as it is run: severity at most one, duration at least one.
pub open spec fn tamed(spec: StormSpec) -> StormSpec {
    StormSpec {
        severity: dial::capped_at_one(spec.severity),
        duration_ns: if spec.duration_ns < 1 {
            1
        } else {
            spec.duration_ns
        },
        ..spec
    }
}

/// The orchestrator once a storm was asked for.
pub open spec fn started(o: StormModel, spec: StormSpec, now_ns: u64) -> StormModel {
    let s = tamed(spec);
    StormModel {
        active: Some(
            ActiveModel {
                spec: s,
                started_at_ns: now_ns,
                expires_at_ns: now_ns.saturating_add(s.duration_ns),
                restarts: 0,
                source: spawned(s, o.base_price, 0),
            },
        ),
        ..o
    }
}

/// What can be seen of the orchestrator.
pub open spec fn snapshot_of(o: StormModel) -> StormSnapshot {
    match o.active {
        Some(a) => StormSnapshot {
            mode: StormMode::Active,
            kind: Some(a.spec.kind),
            severity: a.spec.severity,
            seed: a.spec.seed,
            started_at_ns: a.started_at_ns,
            expires_at_ns: a.expires_at_ns,
            restarts: a.restarts,
        },
        None => idle_snapshot(),
    }
}

/// A storm whose programme is over starts it again, from the next seed.
pub open spec fn revived(a: ActiveModel, base_price: u64) -> ActiveModel {
    if a.source.done() {
        let n = a.restarts.saturating_add(1);
        ActiveModel { restarts: n, source: spawned(a.spec, base_price, n), ..a }
    } else {
        a
    }
}

/// The sequence number after a batch that began at `seq`.
pub open spec fn after_batch(batch: Seq<SequencedEvent>, seq: u64) -> u64 {
    if batch.len() == 0 {
        seq
    } else {
        batch.last().seq.saturating_add(1)
    }
}

/// Up to `left` steps, as long as they are due.
pub open spec fn rounds(a: ActiveModel, base_price: u64, now_ns: u64, seq: u64, left: nat) -> (
    ActiveModel,
    Seq<SequencedEvent>,
)
    decreases left,
{
    if left == 0 {
        (a, Seq::empty())
    } else {
        let b = revived(a, base_price);
        if b.source.due() > now_ns {
            (b, Seq::empty())
        } else {
            let (g, batch) = b.source.stepped(now_ns, seq);
            let (c, rest) = rounds(
                ActiveModel { source: g, ..b },
                base_price,
                now_ns,
                after_batch(batch, seq),
                (left - 1) as nat,
            );
            (c, batch + rest)
        }
    }
}

/// The orchestrator after a poll, and the events of it. A storm that has
/// expired is over.
pub open spec fn polled(o: StormModel, now_ns: u64, seq: u64) -> (StormModel, Seq<SequencedEvent>) {
    match o.active {
        None => (o, Seq::empty()),
        Some(a) => if now_ns >= a.expires_at_ns {
            (StormModel { active: None, ..o }, Seq::empty())
        } else {
            let (b, out) = rounds(a, o.base_price, now_ns, seq, POLL_STEPS as nat);
            (StormModel { active: Some(b), ..o }, out)
        },
    }
}

/// Runs at most one storm.
#[derive(Debug)]
pub struct StormOrchestrator {
    base_price: u64,
    active: Option<ActiveStorm>,
}

impl View for StormOrchestrator {
    type V = StormModel;

    closed spec fn view(&self) -> StormModel {
        StormModel {
            base_price: self.base_price,
            active: match self.active {
                Some(a) => Some(a@),
                None => None,
            },
        }
    }
}

/// A storm that is on can go on.
pub open spec fn storm_ok(a: ActiveModel, base_price: u64) -> bool {
    a.source.wf() && storm_fits(a.spec, base_price)
}

impl StormOrchestrator {
    /// What is on can go on.
    pub open spec fn wf(&self) -> bool {
        self@.active matches Some(a) ==> storm_ok(a, self@.base_price)
    }

    /// Nothing is on. Storms play around `base_price`.
    pub fn new(base_price: u64) -> (o: Self)
        ensures
            o@ == (StormModel { base_price, active: None }),
            o.wf(),
    {
        StormOrchestrator { base_price, active: None }
    }

    /// Starts a storm, in place of any that is on.
    pub fn start(&mut self, spec: StormSpec, now_ns: u64) -> (s: StormSnapshot)
        requires
            storm_fits(spec, old(self)@.base_price),
        ensures
            final(self)@ == started(old(self)@, spec, now_ns),
            final(self).wf(),
            s == snapshot_of(final(self)@),
    {
        let tame: StormSpec = StormSpec {
            kind: spec.kind,
            severity: clamp_severity(spec.severity),
            duration_ns: if spec.duration_ns < 1 {
                1
            } else {
                spec.duration_ns
            },
            seed: spec.seed,
        };
        let expires_at_ns: u64 = now_ns.saturating_add(tame.duration_ns);
        let source: StormSource = spawn_generator(tame, self.base_price, 0);
        self.active = Some(
            ActiveStorm { spec: tame, started_at_ns: now_ns, expires_at_ns, restarts: 0, source },
        );
        self.snapshot()
    }

    /// Ends the storm that is on.
    pub fn stop(&mut self)
        ensures
            final(self)@ == (StormModel { active: None, ..old(self)@ }),
            final(self).wf(),
    {
        self.active = None;
    }

    /// Whether a storm is on.
    pub fn is_active(&self) -> (b: bool)
        ensures
            b == self@.active is Some,
    {
        self.active.is_some()
    }

    /// When the storm that is on goes on.
    pub fn next_due_ns(&self) -> (t: Option<u64>)
        ensures
            t == (match self@.active {
                Some(a) => Some(a.source.due()),
                None => None,
            }),
    {
        match &self.active {
            Some(a) => Some(a.source.next_due_ns()),
            None => None,
        }
    }

    /// What can be seen from outside.
    pub fn snapshot(&self) -> (s: StormSnapshot)
        ensures
            s == snapshot_of(self@),
    {
        match &self.active {
            Some(a) => StormSnapshot {
                mode: StormMode::Active,
                kind: Some(a.spec.kind),
                severity: a.spec.severity,
                seed: a.spec.seed,
                started_at_ns: a.started_at_ns,
                expires_at_ns: a.expires_at_ns,
                restarts: a.restarts,
            },
            None => StormSnapshot::idle(),
        }
    }

    /// The events that are due, numbered from `base_seq` on.
    pub fn poll(&mut self, now_ns: u64, base_seq: u64) -> (out: Vec<SequencedEvent>)
        requires
            old(self).wf(),
            base_seq + POLL_SPAN <= u64::MAX,
        ensures
            final(self).wf(),
            (final(self)@, out@) == polled(old(self)@, now_ns, base_seq),
            tape::numbered(out@, base_seq as int, base_seq + POLL_SPAN),
    {
        let taken: Option<ActiveStorm> = self.active.take();
        match taken {
            None => Vec::new(),
            Some(mut a) => {
                if now_ns >= a.expires_at_ns {
                    return Vec::new();
                }
                let out: Vec<SequencedEvent> = a.run(self.base_price, now_ns, base_seq);
                self.active = Some(a);
                out
            },
        }
    }
}

impl ActiveStorm {
    /// The steps of one poll.
    fn run(&mut self, base_price: u64, now_ns: u64, base_seq: u64) -> (out: Vec<SequencedEvent>)
        requires
            storm_ok(old(self)@, base_price),
            base_seq + POLL_SPAN <= u64::MAX,
        ensures
            storm_ok(final(self)@, base_price),
            (final(self)@, out@) == rounds(old(self)@, base_price, now_ns, base_seq, POLL_STEPS as nat),
            tape::numbered(out@, base_seq as int, base_seq + POLL_SPAN),
    {
        let ghost whole = rounds(self@, base_price, now_ns, base_seq, POLL_STEPS as nat);
        let mut out: Vec<SequencedEvent> = Vec::new();
        let mut next_seq: u64 = base_seq;
        let mut left: u64 = POLL_STEPS;
        let mut going: bool = true;
        assert(out@ + whole.1 =~= whole.1);
        while going && left > 0
            invariant
                left <= POLL_STEPS,
                storm_ok(self@, base_price),
                base_seq <= next_seq,
                next_seq + STEP_SPAN * left <= base_seq + POLL_SPAN,
                base_seq + POLL_SPAN <= u64::MAX,
                tape::numbered(out@, base_seq as int, next_seq as int),
                going ==> ({
                    let r = rounds(self@, base_price, now_ns, next_seq, left as nat);
                    whole == (r.0, out@ + r.1)
                }),
                !going ==> whole == (self@, out@),
            decreases left, (if going {
                1int
            } else {
                0int
            }),
        {
            let ghost before = self@;
            if self.source.finished() {
                self.restarts = self.restarts.saturating_add(1);
                self.source = spawn_generator(self.spec, base_price, self.restarts);
            }
            let ghost b = self@;
            assert(b == revived(before, base_price));
            if self.source.next_due_ns() > now_ns {
                going = false;
                assert(out@ + Seq::<SequencedEvent>::empty() =~= out@);
            } else {
                let ghost wrote = out@;
                let mut batch: Vec<SequencedEvent> = self.source.step(now_ns, next_seq);
                let ghost fresh = batch@;
                let ghost first = next_seq;
                if batch.len() > 0 {
                    next_seq = batch[batch.len() - 1].seq.saturating_add(1);
                }
                out.append(&mut batch);
                left = left - 1;
                proof {
                    let r = rounds(self@, base_price, now_ns, next_seq, left as nat);
                    assert((wrote + fresh) + r.1 =~= wrote + (fresh + r.1));
                    assert(out@ =~= wrote + fresh);
                    lemma_joined(wrote, fresh, base_seq as int, first as int, next_seq as int);
                }
            }
        }
        proof {
            if going {
                assert(out@ + Seq::<SequencedEvent>::empty() =~= out@);
            }
        }
        out
    }
}

/// Numbered batches one after the other are numbered.
proof fn lemma_joined(a: Seq<SequencedEvent>, b: Seq<SequencedEvent>, from: int, mid: int, to: int)
    requires
        tape::numbered(a, from, mid),
        mid <= to,
        forall|i: int| 0 <= i < b.len() ==> mid <= (#[trigger] b[i]).seq,
        forall|i: int, j: int| 0 <= i < j < b.len() ==> (#[trigger] b[i]).seq < (#[trigger] b[j]).seq,
        b.len() > 0 ==> b.last().seq < to,
    ensures
        tape::numbered(a + b, from, to),
{
    let s = a + b;
    assert forall|i: int| 0 <= i < s.len() implies from <= (#[trigger] s[i]).seq < to by {
        if i >= a.len() {
            let k = i - a.len();
            assert(s[i] == b[k]);
            if k < b.len() - 1 {
                assert(b[k].seq < b[b.len() - 1].seq);
            }
        } else {
            assert(s[i] == a[i]);
        }
    }
    assert forall|i: int, j: int| 0 <= i < j < s.len() implies (#[trigger] s[i]).seq < (#[trigger] s[j]).seq by {
        if j < a.len() {
            assert(s[i] == a[i] && s[j] == a[j]);
        } else if i < a.len() {
            assert(s[i] == a[i] && s[j] == b[j - a.len()]);
        } else {
            assert(s[i] == b[i - a.len()] && s[j] == b[j - a.len()]);
        }
    }
}

// ─── Laws ───────────────────────────────────────────────────────────

/// A storm is over once its time is up, whatever it was doing.
pub proof fn storms_expire(o: StormModel, spec: StormSpec, start_ns: u64, now_ns: u64, seq: u64)
    requires
        start_ns + tamed(spec).duration_ns <= now_ns,
    ensures
        ({
            let r = polled(started(o, spec, start_ns), now_ns, seq);
            r.0.active is None && r.1.len() == 0
        }),
{
}

/// A poll never shortens or prolongs a storm, nor changes what was asked for.
pub proof fn polls_keep_the_deadline(a: ActiveModel, base_price: u64, now_ns: u64, seq: u64, left: nat)
    ensures
        ({
            let b = rounds(a, base_price, now_ns, seq, left).0;
            &&& b.spec == a.spec
            &&& b.started_at_ns == a.started_at_ns
            &&& b.expires_at_ns == a.expires_at_ns
            &&& b.restarts >= a.restarts
        }),
    decreases left,
{
    if left > 0 {
        let b = revived(a, base_price);
        if b.source.due() <= now_ns {
            let (g, batch) = b.source.stepped(now_ns, seq);
            polls_keep_the_deadline(
                ActiveModel { source: g, ..b },
                base_price,
                now_ns,
                after_batch(batch, seq),
                (left - 1) as nat,
            );
        }
    }
}

/// The events of some polls, one after the other: each poll is numbered on
/// from the last.
pub open spec fn storm_stream(o: StormModel, times: Seq<u64>, seq: u64) -> Seq<SequencedEvent>
    decreases times.len(),
{
    if times.len() == 0 {
        Seq::empty()
    } else {
        let r = polled(o, times[0], seq);
        r.1 + storm_stream(r.0, times.drop_first(), after_batch(r.1, seq))
    }
}

/// The orchestrator after these polls.
pub open spec fn storm_after(o: StormModel, times: Seq<u64>, seq: u64) -> StormModel
    decreases times.len(),
{
    if times.len() == 0 {
        o
    } else {
        let r = polled(o, times[0], seq);
        storm_after(r.0, times.drop_first(), after_batch(r.1, seq))
    }
}

/// Without a storm, polls give nothing and start nothing.
proof fn lemma_calm_stays(o: StormModel, times: Seq<u64>, seq: u64)
    requires
        o.active is None,
    ensures
        storm_after(o, times, seq) == o,
        storm_stream(o, times, seq).len() == 0,
    decreases times.len(),
{
    if times.len() > 0 {
        lemma_calm_stays(o, times.drop_first(), seq);
    }
}

proof fn lemma_storm_ends(o: StormModel, a: ActiveModel, times: Seq<u64>, seq: u64)
    requires
        o.active == Some(a),
    ensures
        ({
            let n = storm_after(o, times, seq);
            &&& n.base_price == o.base_price
            &&& n.active is Some <==> forall|i: int| 0 <= i < times.len() ==> #[trigger] times[i] < a.expires_at_ns
            &&& n.active matches Some(b) ==> {
                &&& b.spec == a.spec
                &&& b.started_at_ns == a.started_at_ns
                &&& b.expires_at_ns == a.expires_at_ns
                &&& b.restarts >= a.restarts
            }
        }),
        forall|i: int|
            #![trigger times.take(i)]
            0 <= i < times.len() && times[i] >= a.expires_at_ns ==> storm_stream(o, times, seq)
                == storm_stream(o, times.take(i), seq),
    decreases times.len(),
{
    if times.len() > 0 {
        let rest = times.drop_first();
        let r = polled(o, times[0], seq);
        let next = after_batch(r.1, seq);
        if times[0] >= a.expires_at_ns {
            lemma_calm_stays(r.0, rest, next);
            assert(storm_stream(o, times, seq) =~= Seq::<SequencedEvent>::empty());
            assert forall|i: int|
                #![trigger times.take(i)]
                0 <= i < times.len() implies storm_stream(o, times, seq) == storm_stream(o, times.take(i), seq) by {
                if i > 0 {
                    assert(times.take(i)[0] == times[0]);
                    lemma_calm_stays(r.0, times.take(i).drop_first(), next);
                }
                assert(storm_stream(o, times.take(i), seq) =~= Seq::<SequencedEvent>::empty());
            }
        } else {
            polls_keep_the_deadline(a, o.base_price, times[0], seq, POLL_STEPS as nat);
            let b = rounds(a, o.base_price, times[0], seq, POLL_STEPS as nat).0;
            lemma_storm_ends(r.0, b, rest, next);
            assert((forall|i: int| 0 <= i < times.len() ==> #[trigger] times[i] < a.expires_at_ns) <==> (
            forall|i: int| 0 <= i < rest.len() ==> #[trigger] rest[i] < a.expires_at_ns)) by {
                if forall|i: int| 0 <= i < times.len() ==> #[trigger] times[i] < a.expires_at_ns {
                    assert forall|i: int| 0 <= i < rest.len() implies #[trigger] rest[i] < a.expires_at_ns by {
                        assert(rest[i] == times[i + 1]);
                    }
                }
                if forall|i: int| 0 <= i < rest.len() ==> #[trigger] rest[i] < a.expires_at_ns {
                    assert forall|i: int| 0 <= i < times.len() implies #[trigger] times[i] < a.expires_at_ns by {
                        if i > 0 {
                            assert(rest[i - 1] == times[i]);
                        }
                    }
                }
            }
            assert forall|i: int|
                #![trigger times.take(i)]
                0 <= i < times.len() && times[i] >= a.expires_at_ns implies storm_stream(o, times, seq)
                == storm_stream(o, times.take(i), seq) by {
                assert(i > 0);
                assert(rest[i - 1] == times[i]);
                assert(times.take(i).drop_first() =~= rest.take(i - 1));
                assert(times.take(i)[0] == times[0]);
            }
        }
    }
}

/// However often a storm is polled, it is on exactly as long as no poll came at its
/// deadline or after it. While it is on, the deadline and the request stay as they
/// were; from the first poll at the deadline on nothing comes any more.
pub proof fn storms_keep_their_deadline(o: StormModel, spec: StormSpec, start_ns: u64, times: Seq<u64>, seq: u64)
    ensures
        ({
            let first = started(o, spec, start_ns);
            let end = start_ns.saturating_add(tamed(spec).duration_ns);
            let n = storm_after(first, times, seq);
            &&& n.active is Some <==> forall|i: int| 0 <= i < times.len() ==> #[trigger] times[i] < end
            &&& n.active matches Some(b) ==> b.spec == tamed(spec) && b.started_at_ns == start_ns
                && b.expires_at_ns == end
            &&& forall|i: int|
                #![trigger times.take(i)]
                0 <= i < times.len() && times[i] >= end ==> storm_stream(first, times, seq) == storm_stream(
                    first,
                    times.take(i),
                    seq,
                )
        }),
{
    let first = started(o, spec, start_ns);
    lemma_storm_ends(first, first.active->0, times, seq);
}

/// A generator that a storm starts is in its ranges.
proof fn lemma_spawned(spec: StormSpec, base_price: u64, restart: u32)
    requires
        storm_fits(spec, base_price),
    ensures
        spawned(spec, base_price, restart).wf(),
{
    dial::lemma_weighted(spec.severity, 1, 8);
    dial::lemma_weighted(spec.severity, 1, 6);
    dial::lemma_weighted(spec.severity, 4, 16);
}

proof fn lemma_source_step(g: SourceModel, now_ns: u64, seq: u64)
    requires
        g.wf(),
        seq + g.span() <= u64::MAX,
    ensures
        g.stepped(now_ns, seq).0.wf(),
        tape::numbered(g.stepped(now_ns, seq).1, seq as int, seq + g.span()),
{
    match g {
        SourceModel::Phantom(m) => {
            PhantomLiquidityGenerator::steps_are_numbered(m, now_ns, seq);
        },
        SourceModel::Cancellation(m) => {
            CancellationStormGenerator::steps_are_numbered(m, now_ns, seq);
        },
        SourceModel::Momentum(m) => {
            MomentumIgnitionGenerator::steps_are_numbered(m, now_ns, seq);
        },
        SourceModel::Crash(m) => {
            FlashCrashGenerator::steps_are_numbered(m, now_ns, seq);
        },
        SourceModel::Latency(m) => {
            LatencyArbProxyGenerator::steps_are_numbered(m, now_ns, seq);
        },
    }
}

proof fn lemma_rounds_numbered(a: ActiveModel, base_price: u64, now_ns: u64, seq: u64, left: nat)
    requires
        storm_ok(a, base_price),
        seq + STEP_SPAN * left <= u64::MAX,
    ensures
        storm_ok(rounds(a, base_price, now_ns, seq, left).0, base_price),
        tape::numbered(
            rounds(a, base_price, now_ns, seq, left).1,
            seq as int,
            seq + STEP_SPAN * left,
        ),
    decreases left,
{
    if left > 0 {
        let b = revived(a, base_price);
        if a.source.done() {
            lemma_spawned(a.spec, base_price, b.restarts);
        }
        if b.source.due() <= now_ns {
            assert(b.source.span() <= STEP_SPAN);
            lemma_source_step(b.source, now_ns, seq);
            let (g, batch) = b.source.stepped(now_ns, seq);
            let next = after_batch(batch, seq);
            if batch.len() > 0 {
                assert(batch[batch.len() - 1].seq < seq + STEP_SPAN);
            }
            let c = ActiveModel { source: g, ..b };
            lemma_rounds_numbered(c, base_price, now_ns, next, (left - 1) as nat);
            let rest = rounds(c, base_price, now_ns, next, (left - 1) as nat).1;
            lemma_numbered_on(batch, rest, seq, seq + STEP_SPAN * left);
        }
    }
}

/// A batch and what is numbered on from it are numbered.
proof fn lemma_numbered_on(a: Seq<SequencedEvent>, b: Seq<SequencedEvent>, from: u64, to: int)
    requires
        tape::numbered(a, from as int, to),
        tape::numbered(b, after_batch(a, from) as int, to),
        to <= u64::MAX,
    ensures
        tape::numbered(a + b, from as int, to),
{
    let mid = after_batch(a, from) as int;
    assert forall|i: int| 0 <= i < a.len() implies from <= (#[trigger] a[i]).seq < mid by {
        if i < a.len() - 1 {
            assert(a[i].seq < a[a.len() - 1].seq);
        }
    }
    if a.len() > 0 {
        assert(a[a.len() - 1].seq < to);
    }
    assert(tape::numbered(a, from as int, mid));
    if b.len() > 0 {
        assert(b[b.len() - 1].seq < to);
    }
    lemma_joined(a, b, from as int, mid, to);
}

/// However often a storm is polled, each poll numbered on from the last, the
/// numbers of all its events rise, within what so many polls can use up.
pub proof fn storms_stay_numbered(o: StormModel, times: Seq<u64>, seq: u64)
    requires
        o.active matches Some(a) ==> storm_ok(a, o.base_price),
        seq + POLL_SPAN * times.len() <= u64::MAX,
    ensures
        tape::numbered(storm_stream(o, times, seq), seq as int, seq + POLL_SPAN * times.len()),
        storm_after(o, times, seq).active matches Some(a) ==> storm_ok(a, o.base_price),
    decreases times.len(),
{
    if times.len() > 0 {
        let (n, out) = polled(o, times[0], seq);
        if let Some(a) = o.active {
            if times[0] < a.expires_at_ns {
                lemma_rounds_numbered(a, o.base_price, times[0], seq, POLL_STEPS as nat);
            }
        }
        assert(tape::numbered(out, seq as int, seq + POLL_SPAN));
        let next = after_batch(out, seq);
        if out.len() > 0 {
            assert(out[out.len() - 1].seq < seq + POLL_SPAN);
        }
        let rest = times.drop_first();
        storms_stay_numbered(n, rest, next);
        lemma_numbered_on(out, storm_stream(n, rest, next), seq, seq + POLL_SPAN * times.len());
    }
}

/// The same request polled at the same times gives the same events, whatever
/// was on before.
pub proof fn storms_are_reproducible(
    a: StormModel,
    b: StormModel,
    spec: StormSpec,
    start_ns: u64,
    times: Seq<u64>,
    seq: u64,
)
    requires
        a.base_price == b.base_price,
    ensures
        storm_stream(started(a, spec, start_ns), times, seq) == storm_stream(
            started(b, spec, start_ns),
            times,
            seq,
        ),
{
    assert(started(a, spec, start_ns) == started(b, spec, start_ns));
}

/// A storm that is asked for is on at once, of the kind, seed and severity asked for, a
/// severity above one counting as one, until its duration is over; any other is gone.
pub proof fn storms_start_as_asked(o: StormModel, spec: StormSpec, now_ns: u64)
    ensures
        ({
            let n = started(o, spec, now_ns);
            let s = snapshot_of(n);
            let a = n.active->0;
            &&& n.active is Some
            &&& n.base_price == o.base_price
            &&& s.mode == StormMode::Active
            &&& s.kind == Some(spec.kind)
            &&& s.seed == spec.seed
            &&& s.started_at_ns == now_ns
            &&& s.restarts == 0
            &&& spec.severity.num < spec.severity.den ==> s.severity == spec.severity
            &&& spec.severity.num >= spec.severity.den ==> s.severity.num == s.severity.den && s.severity.den > 0
            &&& spec.duration_ns > 0 && now_ns + spec.duration_ns <= u64::MAX ==> s.expires_at_ns == now_ns
                + spec.duration_ns
            &&& spec.duration_ns == 0 && now_ns < u64::MAX ==> s.expires_at_ns == now_ns + 1
            &&& spec.kind == ChaosKind::CancellationStorm ==> a.source is Cancellation
            &&& spec.kind == ChaosKind::MomentumIgnition ==> a.source is Momentum
            &&& spec.kind == ChaosKind::FlashCrash ==> a.source is Crash
            &&& spec.kind == ChaosKind::LatencyArbitrage ==> a.source is Latency
            &&& spec.kind == ChaosKind::PhantomLiquidity ==> a.source is Phantom
        }),
        o.active is None ==> snapshot_of(o).mode == StormMode::Idle && snapshot_of(o).kind is None,
{
}

/// The periods of a storm cover its duration, with no period to spare beyond the minimum.
pub proof fn periods_cover_the_duration(duration_ns: u64, period_ns: u64, minimum: u32)
    requires
        period_ns > 0,
        duration_ns + period_ns <= u64::MAX,
        duration_ns < u32::MAX * period_ns,
    ensures
        ({
            let n = cycles_of(duration_ns, period_ns, minimum);
            &&& n >= minimum
            &&& n * period_ns >= duration_ns
            &&& n > minimum ==> (n - 1) * period_ns < duration_ns
        }),
{
    let (x, d) = (duration_ns + period_ns - 1, period_ns as int);
    let q = x / d;
    vstd::arithmetic::div_mod::lemma_fundamental_div_mod(x, d);
    vstd::arithmetic::div_mod::lemma_mod_bound(x, d);
    let t = duration_ns as int;
    let m = minimum as int;
    assert(q * d >= t && (q - 1) * d < t) by (nonlinear_arith)
        requires
            x == d * q + x % d,
            0 <= x % d < d,
            x == t + d - 1,
    ;
    assert(q <= u32::MAX) by (nonlinear_arith)
        requires
            (q - 1) * d < t,
            t < u32::MAX * d,
            d > 0,
    ;
    if q <= m {
        assert(m * d >= q * d) by (nonlinear_arith)
            requires
                m >= q,
                d > 0,
        ;
    }
}

/// A storm that has run its programme before its time begins it again with the next seed,
/// and counts that; one that has not goes on.
pub proof fn storms_begin_again(a: ActiveModel, base_price: u64)
    requires
        a.restarts < u32::MAX,
    ensures
        a.source.done() ==> revived(a, base_price).restarts == a.restarts + 1 && revived(a, base_price).source
            == spawned(
            StormSpec { seed: a.spec.seed.wrapping_add((a.restarts + 1) as u64), ..a.spec },
            base_price,
            0,
        ),
        !a.source.done() ==> revived(a, base_price) == a,
        revived(a, base_price).expires_at_ns == a.expires_at_ns,
        revived(a, base_price).spec == a.spec,
{
    let s = a.spec.seed.wrapping_add((a.restarts + 1) as u64);
    assert(s.wrapping_add(0) == s);
}

/// A poll goes as far as it can: after it nothing more is due, or it took all the steps
/// that one poll takes. A poll when nothing is due gives nothing.
pub proof fn polls_leave_nothing_due(a: ActiveModel, base_price: u64, now_ns: u64, seq: u64, left: nat)
    requires
        left > 0,
    ensures
        revived(a, base_price).source.due() > now_ns ==> rounds(a, base_price, now_ns, seq, left) == (
            revived(a, base_price),
            Seq::<SequencedEvent>::empty(),
        ),
        revived(a, base_price).source.due() <= now_ns ==> {
            let b = revived(a, base_price);
            let (g, batch) = b.source.stepped(now_ns, seq);
            let next = if batch.len() == 0 {
                seq
            } else {
                batch.last().seq.saturating_add(1)
            };
            let (c, rest) = rounds(ActiveModel { source: g, ..b }, base_price, now_ns, next, (left - 1) as nat);
            rounds(a, base_price, now_ns, seq, left) == (c, batch + rest)
        },
        POLL_STEPS == 32,
{
}

} // verus!
