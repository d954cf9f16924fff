//! All detectors in a row, with a stable order of their flags:
//! quote stuffing, spoofing, phantom liquidity, cancellation storm, momentum
//! ignition, flash crash, latency-arbitrage proxy.

use crate::book::event::SequencedEvent;
use crate::book::types::SeqNum;
use crate::chaos::cancellation_storm::{
    CancellationStormDetector, RateSample, StormLimits, StormModel, StormVerdict,
};
#[allow(unused_imports)]
use crate::chaos::cancellation_storm;
use crate::chaos::detection::{LargeOrder, QuoteStuffDetector, SpoofDetector};
#[allow(unused_imports)]
use crate::chaos::detection;
use crate::chaos::flag::{ChaosEvent, ChaosKind};
use crate::chaos::flash_crash::{CrashLimits, CrashModel, FlashCrashDetector};
#[allow(unused_imports)]
use crate::chaos::flash_crash;
use crate::chaos::latency_arb_proxy::{LatencyArbProxyDetector, ReactionLimits, ReactionModel};
#[allow(unused_imports)]
use crate::chaos::latency_arb_proxy;
use crate::chaos::mini_book::MiniModel;
use crate::chaos::momentum_ignition::{
    IgnitionLimits, IgnitionModel, MidSample, MomentumIgnitionDetector, Run,
};
#[allow(unused_imports)]
use crate::chaos::momentum_ignition;
use crate::chaos::phantom_liquidity::{PhantomLimits, PhantomLiquidityDetector, PhantomModel};
#[allow(unused_imports)]
use crate::chaos::phantom_liquidity;
use crate::ratio::Ratio;
use vstd::prelude::*;

verus! {

/// The limits of all detectors.
pub struct ChainLimits {
    pub quote_size: nat,
    pub quote_threshold: Ratio,
    pub spoof_large: u64,
    pub spoof_window: u64,
    pub phantom: PhantomLimits,
    pub storm: StormLimits,
    pub ignition: IgnitionLimits,
    pub crash: CrashLimits,
    pub proxy: ReactionLimits,
}

/// The state of all detectors and how often each kind was flagged.
#[verifier::ext_equal]
pub struct ChainModel {
    pub quotes: Seq<(SeqNum, u8)>,
    pub large: Seq<LargeOrder>,
    pub phantom: PhantomModel,
    pub storm: StormModel,
    pub ignition: IgnitionModel,
    pub crash: CrashModel,
    pub proxy: ReactionModel,
    pub counts: Seq<u64>,
}

/// The place of a kind in the order of flags.
pub open spec fn rank(kind: ChaosKind) -> int {
    match kind {
        ChaosKind::QuoteStuff => 0,
        ChaosKind::Spoof => 1,
        ChaosKind::PhantomLiquidity => 2,
        ChaosKind::CancellationStorm => 3,
        ChaosKind::MomentumIgnition => 4,
        ChaosKind::FlashCrash => 5,
        ChaosKind::LatencyArbitrage => 6,
    }
}

/// A flag, if there is one, as a sequence.
pub open spec fn listed(f: Option<ChaosEvent>) -> Seq<ChaosEvent> {
    match f {
        Some(e) => seq![e],
        None => Seq::empty(),
    }
}

/// The counts with one flag more, unless its counter is at the end.
pub open spec fn counted(counts: Seq<u64>, f: Option<ChaosEvent>) -> Seq<u64> {
    match f {
        Some(e) => counts.update(rank(e.kind), cancellation_storm::one_more(counts[rank(e.kind)])),
        None => counts,
    }
}

/// What the detectors say of one event, in their order.
pub struct ChainOutcome {
    pub next: ChainModel,
    pub flags: Seq<ChaosEvent>,
    pub learn: Option<RateSample>,
}

/// Quote stuffing: its detector sees the event, and a flag of it is counted.
#[verifier::opaque]
pub open spec fn quote_stage(m: ChainModel, l: ChainLimits, e: SequencedEvent) -> (
    ChainModel,
    Option<ChaosEvent>,
) {
    let (quotes, f) = detection::quote_step(m.quotes, l.quote_size, l.quote_threshold, e);
    (ChainModel { quotes, counts: counted(m.counts, f), ..m }, f)
}

/// Spoofing: its detector sees the event, and a flag of it is counted.
#[verifier::opaque]
pub open spec fn spoof_stage(m: ChainModel, l: ChainLimits, e: SequencedEvent) -> (
    ChainModel,
    Option<ChaosEvent>,
) {
    let (large, f) = detection::spoof_step(m.large, e, l.spoof_large, l.spoof_window);
    (ChainModel { large, counts: counted(m.counts, f), ..m }, f)
}

/// Phantom liquidity: its detector sees the event, and a flag of it is counted.
#[verifier::opaque]
pub open spec fn phantom_stage(m: ChainModel, l: ChainLimits, e: SequencedEvent) -> (
    ChainModel,
    Option<ChaosEvent>,
) {
    let (phantom, f) = phantom_liquidity::phantom_step(m.phantom, l.phantom, e);
    (ChainModel { phantom, counts: counted(m.counts, f), ..m }, f)
}

/// Cancellation storm: as the others, with the verdict on its rate, and with the
/// rate to learn.
#[verifier::opaque]
pub open spec fn storm_stage(m: ChainModel, l: ChainLimits, e: SequencedEvent, v: StormVerdict) -> (
    ChainModel,
    Option<ChaosEvent>,
    Option<RateSample>,
) {
    let o = cancellation_storm::storm_step(m.storm, l.storm, e, v);
    (ChainModel { storm: o.next, counts: counted(m.counts, o.flag), ..m }, o.flag, o.learn)
}

/// Momentum ignition: its detector sees the event, and a flag of it is counted.
#[verifier::opaque]
pub open spec fn ignition_stage(m: ChainModel, l: ChainLimits, e: SequencedEvent) -> (
    ChainModel,
    Option<ChaosEvent>,
) {
    let (ignition, f) = momentum_ignition::ignition_step(m.ignition, l.ignition, e);
    (ChainModel { ignition, counts: counted(m.counts, f), ..m }, f)
}

/// Flash crash: its detector sees the event, and a flag of it is counted.
#[verifier::opaque]
pub open spec fn crash_stage(m: ChainModel, l: ChainLimits, e: SequencedEvent) -> (
    ChainModel,
    Option<ChaosEvent>,
) {
    let (crash, f) = flash_crash::crash_step(m.crash, l.crash, e);
    (ChainModel { crash, counts: counted(m.counts, f), ..m }, f)
}

/// Latency-arbitrage proxy: its detector sees the event, and a flag of it is counted.
#[verifier::opaque]
pub open spec fn proxy_stage(m: ChainModel, l: ChainLimits, e: SequencedEvent) -> (
    ChainModel,
    Option<ChaosEvent>,
) {
    let (proxy, f) = latency_arb_proxy::reaction_step(m.proxy, l.proxy, e);
    (ChainModel { proxy, counts: counted(m.counts, f), ..m }, f)
}

/// One event through all detectors. None sees what another made of it.
pub open spec fn chain_step(m: ChainModel, l: ChainLimits, e: SequencedEvent, v: StormVerdict) -> ChainOutcome {
    let (m0, f0) = quote_stage(m, l, e);
    let (m1, f1) = spoof_stage(m0, l, e);
    let (m2, f2) = phantom_stage(m1, l, e);
    let (m3, f3, learn) = storm_stage(m2, l, e, v);
    let (m4, f4) = ignition_stage(m3, l, e);
    let (m5, f5) = crash_stage(m4, l, e);
    let (m6, f6) = proxy_stage(m5, l, e);
    ChainOutcome {
        next: m6,
        flags: listed(f0) + listed(f1) + listed(f2) + listed(f3) + listed(f4) + listed(f5) + listed(f6),
        learn,
    }
}

/// The event is one that all detectors can take.
pub open spec fn chain_ready(m: ChainModel, e: SequencedEvent) -> bool {
    &&& detection::all_before(m.large, e.seq)
    &&& phantom_liquidity::counts_fit(m.phantom.levels)
    &&& m.storm.above < u64::MAX
    &&& m.storm.window.len() < usize::MAX
    &&& momentum_ignition::change_fits(m.ignition.book, e.event)
    &&& m.ignition.buys + m.ignition.sells < u64::MAX
    &&& momentum_ignition::change_fits(m.crash.book, e.event)
    &&& momentum_ignition::change_fits(m.proxy.book, e.event)
}

/// The sum of some counts.
pub open spec fn sum_of(counts: Seq<u64>) -> nat
    decreases counts.len(),
{
    if counts.len() == 0 {
        0
    } else {
        sum_of(counts.drop_last()) + counts.last() as nat
    }
}

proof fn lemma_sum_grows(counts: Seq<u64>, n: int)
    requires
        0 <= n <= counts.len(),
    ensures
        sum_of(counts.take(n)) <= sum_of(counts),
    decreases counts.len(),
{
    if n < counts.len() {
        assert(counts.drop_last().take(n) =~= counts.take(n));
        lemma_sum_grows(counts.drop_last(), n);
    } else {
        assert(counts.take(n) =~= counts);
    }
}

/// The detector chain.
#[derive(Debug)]
pub struct ChaosChain {
    quote: QuoteStuffDetector,
    spoof: SpoofDetector,
    phantom: PhantomLiquidityDetector,
    storm: CancellationStormDetector,
    ignition: MomentumIgnitionDetector,
    crash: FlashCrashDetector,
    proxy: LatencyArbProxyDetector,
    counts: Vec<u64>,
}

impl View for ChaosChain {
    type V = ChainModel;

    closed spec fn view(&self) -> ChainModel {
        ChainModel {
            quotes: self.quote.entries(),
            large: self.spoof.remembered(),
            phantom: self.phantom@,
            storm: self.storm@,
            ignition: self.ignition@,
            crash: self.crash@,
            proxy: self.proxy@,
            counts: self.counts@,
        }
    }
}

impl ChaosChain {
    /// The limits of its detectors.
    pub closed spec fn config(&self) -> ChainLimits {
        ChainLimits {
            quote_size: self.quote.size(),
            quote_threshold: self.quote.threshold(),
            spoof_large: self.spoof.large(),
            spoof_window: self.spoof.window(),
            phantom: self.phantom.config(),
            storm: self.storm.config(),
            ignition: self.ignition.config(),
            crash: self.crash.config(),
            proxy: self.proxy.config(),
        }
    }

    /// Every detector is well formed and each kind has its counter.
    pub closed spec fn wf(&self) -> bool {
        &&& self.quote.wf()
        &&& self.spoof.wf()
        &&& self.storm.wf()
        &&& self.ignition.wf()
        &&& self.crash.wf()
        &&& self.proxy.wf()
        &&& self.counts@.len() == 7
    }

    /// A chain of given detectors, with nothing flagged.
    pub fn new(
        quote: QuoteStuffDetector,
        spoof: SpoofDetector,
        phantom: PhantomLiquidityDetector,
        storm: CancellationStormDetector,
        ignition: MomentumIgnitionDetector,
        crash: FlashCrashDetector,
        proxy: LatencyArbProxyDetector,
    ) -> (c: Self)
        requires
            quote.wf(),
            spoof.wf(),
            storm.wf(),
            ignition.wf(),
            crash.wf(),
            proxy.wf(),
        ensures
            c.wf(),
            c@ == (ChainModel {
                quotes: quote.entries(),
                large: spoof.remembered(),
                phantom: phantom@,
                storm: storm@,
                ignition: ignition@,
                crash: crash@,
                proxy: proxy@,
                counts: seq![0, 0, 0, 0, 0, 0, 0],
            }),
            c.config() == (ChainLimits {
                quote_size: quote.size(),
                quote_threshold: quote.threshold(),
                spoof_large: spoof.large(),
                spoof_window: spoof.window(),
                phantom: phantom.config(),
                storm: storm.config(),
                ignition: ignition.config(),
                crash: crash.config(),
                proxy: proxy.config(),
            }),
    {
        let counts: Vec<u64> = vec![0, 0, 0, 0, 0, 0, 0];
        assert(counts@ =~= seq![0, 0, 0, 0, 0, 0, 0]);
        ChaosChain { quote, spoof, phantom, storm, ignition, crash, proxy, counts }
    }

    /// Conservative limits for streams that refer to orders by ID.
    pub fn default_itch() -> (c: Self)
        ensures
            c.wf(),
            c.config() == itch_limits(),
            c@ == fresh_chain(),
    {
        ChaosChain::new(
            QuoteStuffDetector::new(48, Ratio::new(8, 1)),
            SpoofDetector::new(1_000, 64),
            PhantomLiquidityDetector::new(256, 5_000_000, 4096, 100),
            CancellationStormDetector::new(2_048, 0, 128, 1_024, 8, 4_096),
            MomentumIgnitionDetector::new(1_024, 0, 64, 5, 8, 4, 2_048),
            FlashCrashDetector::new(10, 8, 64, 5, Ratio::new(6, 10), 3, 2_048),
            LatencyArbProxyDetector::new(64, 0, 64, 4, 200, 4, false, 0, 1_024),
        )
    }

    /// Whether all detectors can take an event.
    pub fn is_ready(&self, seq_event: &SequencedEvent) -> (b: bool)
        requires
            self.wf(),
        ensures
            b == chain_ready(self@, *seq_event),
    {
        self.spoof.is_ready(seq_event) && self.phantom.is_ready() && self.storm.is_ready()
            && self.ignition.is_ready(seq_event) && self.crash.is_ready(seq_event) && self.proxy.is_ready(
            seq_event,
        )
    }

    /// The rate of cancels that this event will lead to, for the caller to judge.
    pub fn storm_preview(&self, seq_event: &SequencedEvent) -> (r: Option<RateSample>)
        requires
            self.wf(),
            self@.storm.window.len() < usize::MAX,
        ensures
            r == cancellation_storm::rate_after(self@.storm.window, self.config().storm, *seq_event),
    {
        self.storm.preview(seq_event)
    }

    /// Feeds one event to all detectors and appends their flags, in order. Hands
    /// back the rate that belongs to the usual level of cancels.
    pub fn process_into(
        &mut self,
        seq_event: &SequencedEvent,
        verdict: StormVerdict,
        out: &mut Vec<ChaosEvent>,
    ) -> (learn: Option<RateSample>)
        requires
            old(self).wf(),
            chain_ready(old(self)@, *seq_event),
        ensures
            final(self).wf(),
            final(self).config() == old(self).config(),
            ({
                let o = chain_step(old(self)@, old(self).config(), *seq_event, verdict);
                &&& final(self)@ == o.next
                &&& final(out)@ == old(out)@ + o.flags
                &&& learn == o.learn
            }),
    {
        let ghost l = self.config();
        let ghost m = self@;
        let mut found: Vec<ChaosEvent> = Vec::new();
        let f0 = self.run_quote(seq_event);
        push_flag(&mut found, f0);
        assert(found@ =~= listed(f0));
        let f1 = self.run_spoof(seq_event);
        push_flag(&mut found, f1);
        let f2 = self.run_phantom(seq_event);
        push_flag(&mut found, f2);
        let (f3, learn) = self.run_storm(seq_event, verdict);
        push_flag(&mut found, f3);
        let f4 = self.run_ignition(seq_event);
        push_flag(&mut found, f4);
        let f5 = self.run_crash(seq_event);
        push_flag(&mut found, f5);
        let f6 = self.run_proxy(seq_event);
        push_flag(&mut found, f6);
        assert(found@ == chain_step(m, l, *seq_event, verdict).flags);
        out.append(&mut found);
        learn
    }

    /// Feeds one event to all detectors; hands out their flags, in order, and
    /// the rate that belongs to the usual level of cancels.
    pub fn process(&mut self, seq_event: &SequencedEvent, verdict: StormVerdict) -> (r: (
        Vec<ChaosEvent>,
        Option<RateSample>,
    ))
        requires
            old(self).wf(),
            chain_ready(old(self)@, *seq_event),
        ensures
            final(self).wf(),
            final(self).config() == old(self).config(),
            ({
                let o = chain_step(old(self)@, old(self).config(), *seq_event, verdict);
                &&& final(self)@ == o.next
                &&& r.0@ == o.flags
                &&& r.1 == o.learn
            }),
    {
        let mut out: Vec<ChaosEvent> = Vec::new();
        let learn = self.process_into(seq_event, verdict, &mut out);
        proof {
            let o = chain_step(old(self)@, old(self).config(), *seq_event, verdict);
            assert(Seq::<ChaosEvent>::empty() + o.flags =~= o.flags);
        }
        (out, learn)
    }

    /// How often a kind was flagged.
    pub fn count(&self, kind: ChaosKind) -> (n: u64)
        requires
            self.wf(),
        ensures
            n == self@.counts[rank(kind)],
    {
        self.counts[kind_index(kind)]
    }

    /// How often anything was flagged.
    pub fn total_flags(&self) -> (n: u64)
        requires
            self.wf(),
            sum_of(self@.counts) <= u64::MAX,
        ensures
            n == sum_of(self@.counts),
    {
        let mut n: u64 = 0;
        let mut i: usize = 0;
        assert(self.counts@.take(0) =~= Seq::<u64>::empty());
        while i < self.counts.len()
            invariant
                i <= self.counts@.len(),
                n == sum_of(self.counts@.take(i as int)),
                sum_of(self.counts@) <= u64::MAX,
            decreases self.counts@.len() - i,
        {
            assert(self.counts@.take(i + 1).drop_last() =~= self.counts@.take(i as int));
            proof {
                lemma_sum_grows(self.counts@, i + 1);
            }
            n = n + self.counts[i];
            i += 1;
        }
        assert(self.counts@.take(i as int) =~= self.counts@);
        n
    }

    fn run_quote(&mut self, e: &SequencedEvent) -> (f: Option<ChaosEvent>)
        requires
            old(self).wf(),
        ensures
            final(self).wf(),
            final(self).config() == old(self).config(),
            (final(self)@, f) == quote_stage(old(self)@, old(self).config(), *e),
            final(self)@.large == old(self)@.large,
            final(self)@.phantom == old(self)@.phantom,
            final(self)@.storm == old(self)@.storm,
            final(self)@.ignition == old(self)@.ignition,
            final(self)@.crash == old(self)@.crash,
            final(self)@.proxy == old(self)@.proxy,
    {
        proof {
            reveal(quote_stage);
        }
        let f = self.quote.process(e);
        self.bump(f);
        f
    }

    fn run_spoof(&mut self, e: &SequencedEvent) -> (f: Option<ChaosEvent>)
        requires
            old(self).wf(),
            detection::all_before(old(self)@.large, e.seq),
        ensures
            final(self).wf(),
            final(self).config() == old(self).config(),
            (final(self)@, f) == spoof_stage(old(self)@, old(self).config(), *e),
            final(self)@.quotes == old(self)@.quotes,
            final(self)@.phantom == old(self)@.phantom,
            final(self)@.storm == old(self)@.storm,
            final(self)@.ignition == old(self)@.ignition,
            final(self)@.crash == old(self)@.crash,
            final(self)@.proxy == old(self)@.proxy,
    {
        proof {
            reveal(spoof_stage);
        }
        let f = self.spoof.process(e);
        self.bump(f);
        f
    }

    fn run_phantom(&mut self, e: &SequencedEvent) -> (f: Option<ChaosEvent>)
        requires
            old(self).wf(),
            phantom_liquidity::counts_fit(old(self)@.phantom.levels),
        ensures
            final(self).wf(),
            final(self).config() == old(self).config(),
            (final(self)@, f) == phantom_stage(old(self)@, old(self).config(), *e),
            final(self)@.quotes == old(self)@.quotes,
            final(self)@.large == old(self)@.large,
            final(self)@.storm == old(self)@.storm,
            final(self)@.ignition == old(self)@.ignition,
            final(self)@.crash == old(self)@.crash,
            final(self)@.proxy == old(self)@.proxy,
    {
        proof {
            reveal(phantom_stage);
        }
        let f = self.phantom.process(e);
        self.bump(f);
        f
    }

    fn run_storm(&mut self, e: &SequencedEvent, v: StormVerdict) -> (r: (
        Option<ChaosEvent>,
        Option<RateSample>,
    ))
        requires
            old(self).wf(),
            old(self)@.storm.above < u64::MAX,
            old(self)@.storm.window.len() < usize::MAX,
        ensures
            final(self).wf(),
            final(self).config() == old(self).config(),
            (final(self)@, r.0, r.1) == storm_stage(old(self)@, old(self).config(), *e, v),
            final(self)@.quotes == old(self)@.quotes,
            final(self)@.large == old(self)@.large,
            final(self)@.phantom == old(self)@.phantom,
            final(self)@.ignition == old(self)@.ignition,
            final(self)@.crash == old(self)@.crash,
            final(self)@.proxy == old(self)@.proxy,
    {
        proof {
            reveal(storm_stage);
        }
        let step = self.storm.process(e, v);
        self.bump(step.flag);
        (step.flag, step.learn)
    }

    fn run_ignition(&mut self, e: &SequencedEvent) -> (f: Option<ChaosEvent>)
        requires
            old(self).wf(),
            momentum_ignition::change_fits(old(self)@.ignition.book, e.event),
            old(self)@.ignition.buys + old(self)@.ignition.sells < u64::MAX,
        ensures
            final(self).wf(),
            final(self).config() == old(self).config(),
            (final(self)@, f) == ignition_stage(old(self)@, old(self).config(), *e),
            final(self)@.quotes == old(self)@.quotes,
            final(self)@.large == old(self)@.large,
            final(self)@.phantom == old(self)@.phantom,
            final(self)@.storm == old(self)@.storm,
            final(self)@.crash == old(self)@.crash,
            final(self)@.proxy == old(self)@.proxy,
    {
        proof {
            reveal(ignition_stage);
        }
        let f = self.ignition.process(e);
        self.bump(f);
        f
    }

    fn run_crash(&mut self, e: &SequencedEvent) -> (f: Option<ChaosEvent>)
        requires
            old(self).wf(),
            momentum_ignition::change_fits(old(self)@.crash.book, e.event),
        ensures
            final(self).wf(),
            final(self).config() == old(self).config(),
            (final(self)@, f) == crash_stage(old(self)@, old(self).config(), *e),
            final(self)@.quotes == old(self)@.quotes,
            final(self)@.large == old(self)@.large,
            final(self)@.phantom == old(self)@.phantom,
            final(self)@.storm == old(self)@.storm,
            final(self)@.ignition == old(self)@.ignition,
            final(self)@.proxy == old(self)@.proxy,
    {
        proof {
            reveal(crash_stage);
        }
        let f = self.crash.process(e);
        self.bump(f);
        f
    }

    fn run_proxy(&mut self, e: &SequencedEvent) -> (f: Option<ChaosEvent>)
        requires
            old(self).wf(),
            momentum_ignition::change_fits(old(self)@.proxy.book, e.event),
        ensures
            final(self).wf(),
            final(self).config() == old(self).config(),
            (final(self)@, f) == proxy_stage(old(self)@, old(self).config(), *e),
            final(self)@.quotes == old(self)@.quotes,
            final(self)@.large == old(self)@.large,
            final(self)@.phantom == old(self)@.phantom,
            final(self)@.storm == old(self)@.storm,
            final(self)@.ignition == old(self)@.ignition,
            final(self)@.crash == old(self)@.crash,
    {
        proof {
            reveal(proxy_stage);
        }
        let f = self.proxy.process(e);
        self.bump(f);
        f
    }

    /// Counts a flag.
    fn bump(&mut self, f: Option<ChaosEvent>)
        requires
            old(self).counts@.len() == 7,
        ensures
            final(self).quote == old(self).quote,
            final(self).spoof == old(self).spoof,
            final(self).phantom == old(self).phantom,
            final(self).storm == old(self).storm,
            final(self).ignition == old(self).ignition,
            final(self).crash == old(self).crash,
            final(self).proxy == old(self).proxy,
            final(self).counts@ == counted(old(self).counts@, f),
            final(self).counts@.len() == 7,
    {
        if let Some(e) = f {
            let i: usize = kind_index(e.kind);
            let n: u64 = self.counts[i].saturating_add(1);
            self.counts.set(i, n);
        }
    }
}

/// Appends a flag, if there is one.
fn push_flag(out: &mut Vec<ChaosEvent>, f: Option<ChaosEvent>)
    ensures
        final(out)@ == old(out)@ + listed(f),
{
    if let Some(e) = f {
        out.push(e);
    }
    assert(out@ =~= old(out)@ + listed(f));
}

fn kind_index(kind: ChaosKind) -> (i: usize)
    ensures
        i == rank(kind),
        i < 7,
{
    match kind {
        ChaosKind::QuoteStuff => 0,
        ChaosKind::Spoof => 1,
        ChaosKind::PhantomLiquidity => 2,
        ChaosKind::CancellationStorm => 3,
        ChaosKind::MomentumIgnition => 4,
        ChaosKind::FlashCrash => 5,
        ChaosKind::LatencyArbitrage => 6,
    }
}

/// The limits of [`ChaosChain::default_itch`].
pub open spec fn itch_limits() -> ChainLimits {
    ChainLimits {
        quote_size: 48,
        quote_threshold: Ratio { num: 8, den: 1 },
        spoof_large: 1_000,
        spoof_window: 64,
        phantom: PhantomLimits {
            max_seq_gap: 256,
            max_time_gap_ns: 5_000_000,
            max_tracked: 4096,
            min_qty: 100,
        },
        storm: StormLimits {
            seq_window: 2_048,
            time_window_ns: 0,
            min_window: 128,
            warmup_samples: 1_024,
            min_consecutive: 8,
            cooldown_seq: 4_096,
        },
        ignition: IgnitionLimits {
            seq_window: 1_024,
            time_window_ns: 0,
            max_book_levels: 64,
            min_move_bps: 5,
            min_trades: 8,
            min_consecutive: 4,
            cooldown_seq: 2_048,
        },
        crash: CrashLimits {
            min_gap_bps: 10,
            gap_window_events: 8,
            max_book_levels: 64,
            depth_band_ticks: 5,
            depth_drop: Ratio { num: 6, den: 10 },
            min_aggr_trades: 3,
            cooldown_seq: 2_048,
        },
        proxy: ReactionLimits {
            reaction_seq: 64,
            reaction_time_ns: 0,
            max_book_levels: 64,
            band_ticks: 4,
            min_trade_qty: 200,
            min_burst: 4,
            require_reversion: false,
            reversion_bps: 0,
            cooldown_seq: 1_024,
        },
    }
}

/// A chain that has seen nothing.
pub open spec fn fresh_chain() -> ChainModel {
    ChainModel {
        quotes: Seq::empty(),
        large: Seq::empty(),
        phantom: PhantomModel { levels: Map::empty(), orders: Map::empty() },
        storm: StormModel {
            window: Seq::empty(),
            samples: 0,
            above: 0,
            start_seq: 0,
            start_ts: 0,
            quiet_until: 0,
        },
        ignition: IgnitionModel {
            book: MiniModel::empty(),
            orders: Map::empty(),
            mids: Seq::empty(),
            buys: 0,
            sells: 0,
            run: Run { dir: None, len: 0, start: MidSample { seq: 0, ts: 0, mid: 0 } },
            quiet_until: 0,
        },
        crash: CrashModel {
            book: MiniModel::empty(),
            orders: Map::empty(),
            snaps: Seq::empty(),
            trades: Seq::empty(),
            quiet_until: 0,
        },
        proxy: ReactionModel {
            book: MiniModel::empty(),
            orders: Map::empty(),
            pending: Seq::empty(),
            quiet_until: 0,
        },
        counts: seq![0, 0, 0, 0, 0, 0, 0],
    }
}

// ─── Laws ───────────────────────────────────────────────────────────

proof fn lemma_proxy_flag_kind(
    l: ReactionLimits,
    pending: Seq<latency_arb_proxy::PendingTrigger>,
    e: SequencedEvent,
    mid: Option<u64>,
    quiet: bool,
)
    ensures
        latency_arb_proxy::settle_all(l, pending, e, mid, quiet).1 matches Some(f) ==> f.kind
            == ChaosKind::LatencyArbitrage,
    decreases pending.len(),
{
    if pending.len() > 0 {
        lemma_proxy_flag_kind(l, pending.drop_last(), e, mid, quiet);
    }
}

proof fn lemma_quote_rank(m: ChainModel, l: ChainLimits, e: SequencedEvent)
    ensures
        quote_stage(m, l, e).1 matches Some(f) ==> rank(f.kind) == 0,
{
    reveal(quote_stage);
}

proof fn lemma_spoof_rank(m: ChainModel, l: ChainLimits, e: SequencedEvent)
    ensures
        spoof_stage(m, l, e).1 matches Some(f) ==> rank(f.kind) == 1,
{
    reveal(spoof_stage);
}

proof fn lemma_phantom_rank(m: ChainModel, l: ChainLimits, e: SequencedEvent)
    ensures
        phantom_stage(m, l, e).1 matches Some(f) ==> rank(f.kind) == 2,
{
    reveal(phantom_stage);
}

proof fn lemma_ignition_rank(m: ChainModel, l: ChainLimits, e: SequencedEvent)
    ensures
        ignition_stage(m, l, e).1 matches Some(f) ==> rank(f.kind) == 4,
{
    reveal(ignition_stage);
}

proof fn lemma_crash_rank(m: ChainModel, l: ChainLimits, e: SequencedEvent)
    ensures
        crash_stage(m, l, e).1 matches Some(f) ==> rank(f.kind) == 5,
{
    reveal(crash_stage);
}

proof fn lemma_proxy_rank(m: ChainModel, l: ChainLimits, e: SequencedEvent)
    ensures
        proxy_stage(m, l, e).1 matches Some(f) ==> rank(f.kind) == 6,
{
    reveal(proxy_stage);
    let (orders, c) = momentum_ignition::change_of(m.proxy.orders, e.event);
    let book = latency_arb_proxy::reaction_book(m.proxy.book, c, l.proxy.max_book_levels as nat);
    let quiet = e.seq < m.proxy.quiet_until;
    let mid = m.proxy.book.mid()->0;
    lemma_proxy_flag_kind(l.proxy, m.proxy.pending, e, book.mid(), quiet);
    if let momentum_ignition::BookChange::Traded { is_bid, price, qty, aggressor } = c {
        lemma_proxy_flag_kind(
            l.proxy,
            latency_arb_proxy::armed(
                m.proxy.pending,
                latency_arb_proxy::trigger_of(
                    e,
                    price,
                    qty,
                    latency_arb_proxy::taker_of(price, mid, aggressor),
                    mid,
                ),
            ),
            e,
            book.mid(),
            quiet,
        );
    }
}

proof fn lemma_storm_rank(m: ChainModel, l: ChainLimits, e: SequencedEvent, v: StormVerdict)
    ensures
        storm_stage(m, l, e, v).1 matches Some(f) ==> rank(f.kind) == 3,
{
    reveal(storm_stage);
}

/// The flags of one event come in the order of their kinds, each kind at most
/// once.
pub proof fn chain_order_is_stable(m: ChainModel, l: ChainLimits, e: SequencedEvent, v: StormVerdict)
    ensures
        forall|i: int, j: int|
            0 <= i < j < chain_step(m, l, e, v).flags.len() ==> rank(
                (#[trigger] chain_step(m, l, e, v).flags[i]).kind,
            ) < rank((#[trigger] chain_step(m, l, e, v).flags[j]).kind),
{
    let (m0, f0) = quote_stage(m, l, e);
    let (m1, f1) = spoof_stage(m0, l, e);
    let (m2, f2) = phantom_stage(m1, l, e);
    let (m3, f3, learn) = storm_stage(m2, l, e, v);
    let (m4, f4) = ignition_stage(m3, l, e);
    let (m5, f5) = crash_stage(m4, l, e);
    let (m6, f6) = proxy_stage(m5, l, e);
    lemma_quote_rank(m, l, e);
    lemma_spoof_rank(m0, l, e);
    lemma_phantom_rank(m1, l, e);
    lemma_storm_rank(m2, l, e, v);
    lemma_ignition_rank(m3, l, e);
    lemma_crash_rank(m4, l, e);
    lemma_proxy_rank(m5, l, e);
    let a = listed(f0) + listed(f1);
    let b = a + listed(f2);
    let d = b + listed(f3);
    let g = d + listed(f4);
    let h = g + listed(f5);
    lemma_ranked_join(listed(f0), listed(f1), 1);
    lemma_ranked_join(a, listed(f2), 2);
    lemma_ranked_join(b, listed(f3), 3);
    lemma_ranked_join(d, listed(f4), 4);
    lemma_ranked_join(g, listed(f5), 5);
    lemma_ranked_join(h, listed(f6), 6);
    assert(chain_step(m, l, e, v).flags == h + listed(f6));
}

/// Ranks rise strictly and stay below a bound.
spec fn ranked(s: Seq<ChaosEvent>, bound: int) -> bool {
    &&& forall|i: int| 0 <= i < s.len() ==> rank((#[trigger] s[i]).kind) < bound
    &&& forall|i: int, j: int|
        0 <= i < j < s.len() ==> rank((#[trigger] s[i]).kind) < rank((#[trigger] s[j]).kind)
}

proof fn lemma_ranked_join(a: Seq<ChaosEvent>, b: Seq<ChaosEvent>, r: int)
    requires
        ranked(a, r),
        b.len() <= 1,
        b.len() == 1 ==> rank(b[0].kind) == r,
    ensures
        ranked(a + b, r + 1),
{
    let s = a + b;
    assert forall|i: int, j: int| 0 <= i < j < s.len() implies rank((#[trigger] s[i]).kind) < rank(
        (#[trigger] s[j]).kind,
    ) by {
        assert(s[i] == a[i]);
        if j < a.len() {
            assert(s[j] == a[j]);
        } else {
            assert(s[j] == b[0]);
        }
    }
    assert forall|i: int| 0 <= i < s.len() implies rank((#[trigger] s[i]).kind) < r + 1 by {
        if i < a.len() {
            assert(s[i] == a[i]);
        } else {
            assert(s[i] == b[0]);
        }
    }
}

/// Events, each with the verdict on its rate, fed one list of flags at a time: the
/// chain afterwards and the lists.
pub open spec fn fed_apart(m: ChainModel, l: ChainLimits, s: Seq<(SequencedEvent, StormVerdict)>) -> (
    ChainModel,
    Seq<Seq<ChaosEvent>>,
)
    decreases s.len(),
{
    if s.len() == 0 {
        (m, Seq::empty())
    } else {
        let (n, lists) = fed_apart(m, l, s.drop_last());
        let o = chain_step(n, l, s.last().0, s.last().1);
        (o.next, lists.push(o.flags))
    }
}

/// The same with one buffer that every event appends to: the chain afterwards and
/// the buffer.
pub open spec fn fed_into(
    m: ChainModel,
    l: ChainLimits,
    s: Seq<(SequencedEvent, StormVerdict)>,
    out: Seq<ChaosEvent>,
) -> (ChainModel, Seq<ChaosEvent>)
    decreases s.len(),
{
    if s.len() == 0 {
        (m, out)
    } else {
        let (n, before) = fed_into(m, l, s.drop_last(), out);
        let o = chain_step(n, l, s.last().0, s.last().1);
        (o.next, before + o.flags)
    }
}

/// Lists joined in their order.
pub open spec fn joined(lists: Seq<Seq<ChaosEvent>>) -> Seq<ChaosEvent>
    decreases lists.len(),
{
    if lists.len() == 0 {
        Seq::empty()
    } else {
        joined(lists.drop_last()) + lists.last()
    }
}

/// Whoever owns the buffer, the flags are the same, in the same order, and so is
/// the chain afterwards: what is appended to a buffer is what comes list by list.
pub proof fn both_ways_give_the_same_flags(
    m: ChainModel,
    l: ChainLimits,
    s: Seq<(SequencedEvent, StormVerdict)>,
    out: Seq<ChaosEvent>,
)
    ensures
        fed_into(m, l, s, out).0 == fed_apart(m, l, s).0,
        fed_into(m, l, s, out).1 == out + joined(fed_apart(m, l, s).1),
        fed_apart(m, l, s).1.len() == s.len(),
    decreases s.len(),
{
    if s.len() > 0 {
        both_ways_give_the_same_flags(m, l, s.drop_last(), out);
        let lists = fed_apart(m, l, s).1;
        assert(lists.drop_last() =~= fed_apart(m, l, s.drop_last()).1);
    }
    assert(fed_into(m, l, s, out).1 =~= out + joined(fed_apart(m, l, s).1));
}

/// How many flags are of a kind.
pub open spec fn number_of(flags: Seq<ChaosEvent>, kind: ChaosKind) -> nat
    decreases flags.len(),
{
    if flags.len() == 0 {
        0
    } else {
        number_of(flags.drop_last(), kind) + (if flags.last().kind == kind {
            1nat
        } else {
            0
        })
    }
}

/// Flags in a row are as many as in its parts.
pub proof fn lemma_number_joins(a: Seq<ChaosEvent>, b: Seq<ChaosEvent>, kind: ChaosKind)
    ensures
        number_of(a + b, kind) == number_of(a, kind) + number_of(b, kind),
    decreases b.len(),
{
    if b.len() == 0 {
        assert(a + b =~= a);
    } else {
        assert((a + b).drop_last() =~= a + b.drop_last());
        lemma_number_joins(a, b.drop_last(), kind);
    }
}

/// Counting one flag, if there is one.
proof fn lemma_counted(counts: Seq<u64>, f: Option<ChaosEvent>, kind: ChaosKind)
    requires
        counts.len() == 7,
        counts[rank(kind)] < u64::MAX,
    ensures
        counted(counts, f).len() == 7,
        counted(counts, f)[rank(kind)] == counts[rank(kind)] + number_of(listed(f), kind),
{
    if let Some(e) = f {
        assert(listed(f).drop_last() =~= Seq::empty());
        assert(number_of(listed(f).drop_last(), kind) == 0);
        assert(rank(e.kind) == rank(kind) ==> e.kind == kind);
    }
}

/// The counters tell how many flags there were of each kind, as long as they are
/// not at their end.
#[verifier::rlimit(40)]
pub proof fn flags_are_counted(
    m: ChainModel,
    l: ChainLimits,
    e: SequencedEvent,
    v: StormVerdict,
    kind: ChaosKind,
)
    requires
        m.counts.len() == 7,
        m.counts[rank(kind)] + 7 <= u64::MAX,
    ensures
        ({
            let o = chain_step(m, l, e, v);
            &&& o.next.counts.len() == 7
            &&& o.next.counts[rank(kind)] == m.counts[rank(kind)] + number_of(o.flags, kind)
            &&& number_of(o.flags, kind) <= 7
        }),
{
    let (m0, f0) = quote_stage(m, l, e);
    let (m1, f1) = spoof_stage(m0, l, e);
    let (m2, f2) = phantom_stage(m1, l, e);
    let (m3, f3, learn) = storm_stage(m2, l, e, v);
    let (m4, f4) = ignition_stage(m3, l, e);
    let (m5, f5) = crash_stage(m4, l, e);
    let (m6, f6) = proxy_stage(m5, l, e);
    assert(m0.counts == counted(m.counts, f0)) by {
        reveal(quote_stage);
    }
    assert(m1.counts == counted(m0.counts, f1)) by {
        reveal(spoof_stage);
    }
    assert(m2.counts == counted(m1.counts, f2)) by {
        reveal(phantom_stage);
    }
    assert(m3.counts == counted(m2.counts, f3)) by {
        reveal(storm_stage);
    }
    assert(m4.counts == counted(m3.counts, f4)) by {
        reveal(ignition_stage);
    }
    assert(m5.counts == counted(m4.counts, f5)) by {
        reveal(crash_stage);
    }
    assert(m6.counts == counted(m5.counts, f6)) by {
        reveal(proxy_stage);
    }
    lemma_at_most_one(f0, kind);
    lemma_at_most_one(f1, kind);
    lemma_at_most_one(f2, kind);
    lemma_at_most_one(f3, kind);
    lemma_at_most_one(f4, kind);
    lemma_at_most_one(f5, kind);
    lemma_at_most_one(f6, kind);
    lemma_counted(m.counts, f0, kind);
    lemma_counted(m0.counts, f1, kind);
    lemma_counted(m1.counts, f2, kind);
    lemma_counted(m2.counts, f3, kind);
    lemma_counted(m3.counts, f4, kind);
    lemma_counted(m4.counts, f5, kind);
    lemma_counted(m5.counts, f6, kind);
    let a = listed(f0) + listed(f1);
    let b = a + listed(f2);
    let d = b + listed(f3);
    let g = d + listed(f4);
    let h = g + listed(f5);
    lemma_number_joins(listed(f0), listed(f1), kind);
    lemma_number_joins(a, listed(f2), kind);
    lemma_number_joins(b, listed(f3), kind);
    lemma_number_joins(d, listed(f4), kind);
    lemma_number_joins(g, listed(f5), kind);
    lemma_number_joins(h, listed(f6), kind);
    assert(chain_step(m, l, e, v).flags == h + listed(f6));
}

proof fn lemma_at_most_one(f: Option<ChaosEvent>, kind: ChaosKind)
    ensures
        number_of(listed(f), kind) <= 1,
{
    if let Some(e) = f {
        assert(listed(f).drop_last() =~= Seq::empty());
        assert(number_of(listed(f).drop_last(), kind) == 0);
    }
}

proof fn lemma_sum_of_update(counts: Seq<u64>, i: int, x: u64)
    requires
        0 <= i < counts.len(),
    ensures
        sum_of(counts.update(i, x)) == sum_of(counts) - counts[i] + x,
        counts[i] <= sum_of(counts),
    decreases counts.len(),
{
    let d = counts.drop_last();
    if i < counts.len() - 1 {
        lemma_sum_of_update(d, i, x);
        assert(counts.update(i, x).drop_last() =~= d.update(i, x));
    } else {
        assert(counts.update(i, x).drop_last() =~= d);
    }
}

proof fn lemma_counted_total(counts: Seq<u64>, f: Option<ChaosEvent>)
    requires
        counts.len() == 7,
        sum_of(counts) < u64::MAX,
    ensures
        counted(counts, f).len() == 7,
        sum_of(counted(counts, f)) == sum_of(counts) + listed(f).len(),
        listed(f).len() <= 1,
{
    if let Some(e) = f {
        let i = rank(e.kind);
        lemma_sum_of_update(counts, i, cancellation_storm::one_more(counts[i]));
    }
}

/// With every event the total of flags grows by as many as the event gave, seven
/// at most, as long as the total fits its counter.
pub proof fn total_grows_by_the_flags(m: ChainModel, l: ChainLimits, e: SequencedEvent, v: StormVerdict)
    requires
        m.counts.len() == 7,
        sum_of(m.counts) + 7 <= u64::MAX,
    ensures
        ({
            let o = chain_step(m, l, e, v);
            &&& o.next.counts.len() == 7
            &&& sum_of(o.next.counts) == sum_of(m.counts) + o.flags.len()
            &&& o.flags.len() <= 7
        }),
{
    let (m0, f0) = quote_stage(m, l, e);
    let (m1, f1) = spoof_stage(m0, l, e);
    let (m2, f2) = phantom_stage(m1, l, e);
    let (m3, f3, learn) = storm_stage(m2, l, e, v);
    let (m4, f4) = ignition_stage(m3, l, e);
    let (m5, f5) = crash_stage(m4, l, e);
    let (m6, f6) = proxy_stage(m5, l, e);
    assert(m0.counts == counted(m.counts, f0)) by {
        reveal(quote_stage);
    }
    assert(m1.counts == counted(m0.counts, f1)) by {
        reveal(spoof_stage);
    }
    assert(m2.counts == counted(m1.counts, f2)) by {
        reveal(phantom_stage);
    }
    assert(m3.counts == counted(m2.counts, f3)) by {
        reveal(storm_stage);
    }
    assert(m4.counts == counted(m3.counts, f4)) by {
        reveal(ignition_stage);
    }
    assert(m5.counts == counted(m4.counts, f5)) by {
        reveal(crash_stage);
    }
    assert(m6.counts == counted(m5.counts, f6)) by {
        reveal(proxy_stage);
    }
    lemma_counted_total(m.counts, f0);
    lemma_counted_total(m0.counts, f1);
    lemma_counted_total(m1.counts, f2);
    lemma_counted_total(m2.counts, f3);
    lemma_counted_total(m3.counts, f4);
    lemma_counted_total(m4.counts, f5);
    lemma_counted_total(m5.counts, f6);
}

/// Over a series the total grows by as many flags as the series gave.
pub proof fn totals_add_up(
    m: ChainModel,
    l: ChainLimits,
    s: Seq<(SequencedEvent, StormVerdict)>,
    out: Seq<ChaosEvent>,
)
    requires
        m.counts.len() == 7,
        sum_of(m.counts) + 7 * s.len() <= u64::MAX,
    ensures
        fed_into(m, l, s, out).0.counts.len() == 7,
        fed_into(m, l, s, out).1.len() <= out.len() + 7 * s.len(),
        sum_of(fed_into(m, l, s, out).0.counts) + out.len() == sum_of(m.counts) + fed_into(
            m,
            l,
            s,
            out,
        ).1.len(),
    decreases s.len(),
{
    if s.len() > 0 {
        let d = s.drop_last();
        totals_add_up(m, l, d, out);
        total_grows_by_the_flags(fed_into(m, l, d, out).0, l, s.last().0, s.last().1);
    }
}

/// The chain hides nothing: whatever a detector on its own would flag at an event the chain
/// flags, each detector goes on as it would on its own, and nothing else is flagged.
#[verifier::rlimit(40)]
pub proof fn the_chain_hides_nothing(m: ChainModel, l: ChainLimits, e: SequencedEvent, v: StormVerdict)
    ensures
        ({
            let o = chain_step(m, l, e, v);
            let q = detection::quote_step(m.quotes, l.quote_size, l.quote_threshold, e);
            let s = detection::spoof_step(m.large, e, l.spoof_large, l.spoof_window);
            let p = phantom_liquidity::phantom_step(m.phantom, l.phantom, e);
            let c = cancellation_storm::storm_step(m.storm, l.storm, e, v);
            let i = momentum_ignition::ignition_step(m.ignition, l.ignition, e);
            let f = flash_crash::crash_step(m.crash, l.crash, e);
            let r = latency_arb_proxy::reaction_step(m.proxy, l.proxy, e);
            &&& o.next.quotes == q.0
            &&& o.next.large == s.0
            &&& o.next.phantom == p.0
            &&& o.next.storm == c.next
            &&& o.next.ignition == i.0
            &&& o.next.crash == f.0
            &&& o.next.proxy == r.0
            &&& o.learn == c.learn
            &&& forall|x: ChaosEvent| #[trigger]
                o.flags.contains(x) <==> q.1 == Some(x) || s.1 == Some(x) || p.1 == Some(x) || c.flag == Some(x)
                    || i.1 == Some(x) || f.1 == Some(x) || r.1 == Some(x)
        }),
{
    reveal(quote_stage);
    reveal(spoof_stage);
    reveal(phantom_stage);
    reveal(storm_stage);
    reveal(ignition_stage);
    reveal(crash_stage);
    reveal(proxy_stage);
    let q = detection::quote_step(m.quotes, l.quote_size, l.quote_threshold, e).1;
    let s = detection::spoof_step(m.large, e, l.spoof_large, l.spoof_window).1;
    let p = phantom_liquidity::phantom_step(m.phantom, l.phantom, e).1;
    let c = cancellation_storm::storm_step(m.storm, l.storm, e, v).flag;
    let i = momentum_ignition::ignition_step(m.ignition, l.ignition, e).1;
    let f = flash_crash::crash_step(m.crash, l.crash, e).1;
    let r = latency_arb_proxy::reaction_step(m.proxy, l.proxy, e).1;
    let flags = chain_step(m, l, e, v).flags;
    assert(flags == listed(q) + listed(s) + listed(p) + listed(c) + listed(i) + listed(f) + listed(r));
    assert forall|x: ChaosEvent| #[trigger] flags.contains(x) <==> q == Some(x) || s == Some(x) || p == Some(x) || c
        == Some(x) || i == Some(x) || f == Some(x) || r == Some(x) by {
        lemma_listed(q, x);
        lemma_listed(s, x);
        lemma_listed(p, x);
        lemma_listed(c, x);
        lemma_listed(i, x);
        lemma_listed(f, x);
        lemma_listed(r, x);
        let a = listed(q) + listed(s);
        let b = a + listed(p);
        let d = b + listed(c);
        let g = d + listed(i);
        let h = g + listed(f);
        lemma_in_either(listed(q), listed(s), x);
        lemma_in_either(a, listed(p), x);
        lemma_in_either(b, listed(c), x);
        lemma_in_either(d, listed(i), x);
        lemma_in_either(g, listed(f), x);
        lemma_in_either(h, listed(r), x);
    }
}

proof fn lemma_listed(f: Option<ChaosEvent>, x: ChaosEvent)
    ensures
        listed(f).contains(x) <==> f == Some(x),
{
    if f is Some {
        assert(listed(f)[0] == f->0);
    }
}

proof fn lemma_in_either(a: Seq<ChaosEvent>, b: Seq<ChaosEvent>, x: ChaosEvent)
    ensures
        (a + b).contains(x) <==> a.contains(x) || b.contains(x),
{
    if a.contains(x) {
        let i = choose|i: int| 0 <= i < a.len() && a[i] == x;
        assert((a + b)[i] == x);
    }
    if b.contains(x) {
        let i = choose|i: int| 0 <= i < b.len() && b[i] == x;
        assert((a + b)[a.len() + i] == x);
    }
    if (a + b).contains(x) {
        let i = choose|i: int| 0 <= i < (a + b).len() && (a + b)[i] == x;
        if i < a.len() {
            assert(a[i] == x);
        } else {
            assert(b[i - a.len()] == x);
        }
    }
}

/// Flags of a kind are counted one by one.
pub proof fn kinds_are_counted(flags: Seq<ChaosEvent>, x: ChaosEvent, kind: ChaosKind)
    ensures
        number_of(Seq::empty(), kind) == 0,
        x.kind == kind ==> number_of(flags.push(x), kind) == number_of(flags, kind) + 1,
        x.kind != kind ==> number_of(flags.push(x), kind) == number_of(flags, kind),
{
    assert(flags.push(x).drop_last() =~= flags);
}

/// What the detectors of a feed go by.
pub proof fn feeds_are_watched_so()
    ensures
        ({
            let l = itch_limits();
            &&& l.quote_size == 48 && l.quote_threshold.num == 8 * l.quote_threshold.den && l.quote_threshold.den > 0
            &&& l.spoof_large == 1_000 && l.spoof_window == 64
            &&& l.phantom.max_seq_gap == 256 && l.phantom.max_time_gap_ns == 5_000_000 && l.phantom.max_tracked
                == 4_096 && l.phantom.min_qty == 100
            &&& l.storm.seq_window == 2_048 && l.storm.time_window_ns == 0 && l.storm.min_window == 128
                && l.storm.warmup_samples == 1_024 && l.storm.min_consecutive == 8 && l.storm.cooldown_seq == 4_096
            &&& l.ignition.seq_window == 1_024 && l.ignition.time_window_ns == 0 && l.ignition.max_book_levels == 64
                && l.ignition.min_move_bps == 5 && l.ignition.min_trades == 8 && l.ignition.min_consecutive == 4
                && l.ignition.cooldown_seq == 2_048
            &&& l.crash.min_gap_bps == 10 && l.crash.gap_window_events == 8 && l.crash.max_book_levels == 64
                && l.crash.depth_band_ticks == 5 && 10 * l.crash.depth_drop.num == 6 * l.crash.depth_drop.den
                && l.crash.depth_drop.den > 0 && l.crash.min_aggr_trades == 3 && l.crash.cooldown_seq == 2_048
            &&& l.proxy.reaction_seq == 64 && l.proxy.reaction_time_ns == 0 && l.proxy.max_book_levels == 64
                && l.proxy.band_ticks == 4 && l.proxy.min_trade_qty == 200 && l.proxy.min_burst == 4
                && !l.proxy.require_reversion && l.proxy.cooldown_seq == 1_024
        }),
{
}

/// A chain that has seen nothing has nothing waiting, nothing counted and is quiet about
/// nothing.
pub proof fn fresh_chains_remember_nothing(i: int)
    requires
        0 <= i < 7,
    ensures
        ({
            let m = fresh_chain();
            &&& m.quotes.len() == 0 && m.large.len() == 0 && m.storm.window.len() == 0 && m.ignition.mids.len() == 0
                && m.crash.snaps.len() == 0 && m.crash.trades.len() == 0 && m.proxy.pending.len() == 0
            &&& m.storm.samples == 0 && m.storm.above == 0 && m.ignition.buys == 0 && m.ignition.sells == 0
                && m.ignition.run.dir is None && m.ignition.run.len == 0
            &&& m.storm.quiet_until == 0 && m.ignition.quiet_until == 0 && m.crash.quiet_until == 0
                && m.proxy.quiet_until == 0
            &&& m.ignition.book.mid() is None && m.crash.book.mid() is None && m.proxy.book.mid() is None
            &&& m.counts.len() == 7 && m.counts[i] == 0
        }),
{
}

} // verus!
