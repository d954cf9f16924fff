//! Each generator against its detector: what a new generator writes first is
//! flagged by a detector that has seen nothing, whatever the seed and the
//! severity.

#[allow(unused_imports)]
use crate::chaos::closure;
#[allow(unused_imports)]
use crate::chaos::closure::{crash, latency, momentum, phantom, spoof, stuffing};
use crate::chaos::detection::LargeOrder;
use crate::chaos::flag::ChaosKind;
use crate::chaos::flash_crash::CrashLimits;
use crate::chaos::generators::{
    FlashCrashGenerator, LatencyArbProxyGenerator, PhantomLiquidityGenerator, QuoteStuffGenerator, SpoofGenerator,
    StormGenerator,
};
#[allow(unused_imports)]
use crate::chaos::generators;
use crate::chaos::latency_arb_proxy::ReactionLimits;
use crate::chaos::momentum_ignition::IgnitionLimits;
use crate::chaos::phantom_liquidity::PhantomLimits;
use crate::ratio::Ratio;
use vstd::prelude::*;

verus! {

/// Phantom liquidity: every order of the first step is flagged.
pub proof fn phantoms_are_found(
    l: PhantomLimits,
    seed: u64,
    severity: Ratio,
    base_price: u64,
    cycles: u32,
    now_ns: u64,
    base_seq: u64,
)
    requires
        phantom::phantom_reach(l),
        cycles > 0,
        base_seq + 20 <= u64::MAX,
    ensures
        ({
            let g = generators::phantom::new_phantom(seed, severity, base_price, cycles);
            let s = PhantomLiquidityGenerator::stepped(g, now_ns, base_seq).1;
            let r = closure::watched(phantom::phantom_detector(l), phantom::nothing_seen(), s);
            &&& s.len() > 0
            &&& 2 * r.1.len() == s.len()
            &&& forall|i: int|
                0 <= i < r.1.len() ==> closure::telling(#[trigger] r.1[i], ChaosKind::PhantomLiquidity)
        }),
{
    let g = generators::phantom::new_phantom(seed, severity, base_price, cycles);
    generators::dial::lemma_weighted(severity, 1, 8);
    let t = generators::tape::blank(g.rng, g.next_oid, base_seq, now_ns);
    let n = generators::phantom::phantom_due(g) as nat;
    phantom::phantom_streams_are_flagged(l, g, t, n);
    phantom::lemma_cycles_write(g, t, n);
}

/// Spoofing: every order of the first step is flagged.
pub proof fn spoofs_are_found(
    large: u64,
    window: u64,
    seed: u64,
    severity: Ratio,
    base_price: u64,
    cycles: u32,
    now_ns: u64,
    base_seq: u64,
)
    requires
        large <= 2_000,
        window >= 1,
        cycles > 0,
        base_seq + 20 <= u64::MAX,
    ensures
        ({
            let g = generators::spoof::new_spoof(seed, severity, base_price, cycles);
            let s = SpoofGenerator::stepped(g, now_ns, base_seq).1;
            let r = closure::watched(spoof::spoof_detector(large, window), Seq::<LargeOrder>::empty(), s);
            &&& s.len() > 0
            &&& 2 * r.1.len() == s.len()
            &&& forall|i: int| 0 <= i < r.1.len() ==> closure::telling(#[trigger] r.1[i], ChaosKind::Spoof)
        }),
{
    let g = generators::spoof::new_spoof(seed, severity, base_price, cycles);
    generators::dial::lemma_weighted(severity, 1, 6);
    generators::dial::lemma_weighted(severity, 2_000, 20_000);
    let t = generators::tape::blank(g.rng, g.next_oid, base_seq, now_ns);
    let n = generators::spoof::spoof_due(g) as nat;
    spoof::spoof_streams_are_flagged(large, window, g, t, n);
    spoof::lemma_cycles_write(g, t, n);
}

/// Quote stuffing: the first burst is flagged.
pub proof fn stuffing_is_found(
    size: nat,
    threshold: Ratio,
    seed: u64,
    severity: Ratio,
    base_price: u64,
    bursts: u32,
    now_ns: u64,
    base_seq: u64,
)
    requires
        17 <= size <= 72,
        threshold.wf(),
        threshold.num <= 8 * threshold.den,
    ensures
        ({
            let g = generators::quote_stuff::new_stuff(seed, severity, base_price, bursts);
            let s = QuoteStuffGenerator::stepped(g, now_ns, base_seq).1;
            closure::told(
                closure::watched(stuffing::stuff_detector(size, threshold), Seq::empty(), s).1,
                ChaosKind::QuoteStuff,
            )
        }),
{
    let g = generators::quote_stuff::new_stuff(seed, severity, base_price, bursts);
    generators::dial::lemma_weighted(severity, 4, 6);
    generators::dial::lemma_weighted(severity, 8, 16);
    let t = generators::tape::blank(g.rng, g.next_oid, base_seq, now_ns);
    stuffing::stuffing_bursts_are_flagged(size, threshold, g, t);
}

/// Latency arbitrage: the first print and its reaction are flagged.
pub proof fn reactions_are_found(
    l: ReactionLimits,
    seed: u64,
    severity: Ratio,
    base_price: u64,
    bursts: u32,
    now_ns: u64,
    base_seq: u64,
)
    requires
        latency::reaction_reach(l),
        base_price >= 2,
        bursts > 0,
        base_seq + 40 <= u64::MAX,
    ensures
        ({
            let g = generators::latency::new_latency(seed, severity, base_price, bursts);
            let s = LatencyArbProxyGenerator::stepped(g, now_ns, base_seq).1;
            closure::told(
                closure::watched(latency::reaction_detector(l), latency::unprovoked(), s).1,
                ChaosKind::LatencyArbitrage,
            )
        }),
{
    let g = generators::latency::new_latency(seed, severity, base_price, bursts);
    generators::dial::lemma_weighted(severity, 4, 16);
    latency::reactions_are_flagged(l, g, now_ns, base_seq);
}

/// Flash crash: the first burst downwards is flagged.
pub proof fn crashes_are_found(
    l: CrashLimits,
    seed: u64,
    severity: Ratio,
    base_price: u64,
    bursts: u32,
    now_ns: u64,
    base_seq: u64,
)
    requires
        crash::crash_reach(l, base_price),
        bursts > 0,
        base_seq + 40 < u64::MAX,
    ensures
        ({
            let g = generators::crash::new_crash(seed, severity, base_price, true, bursts);
            let s = FlashCrashGenerator::stepped(g, now_ns, base_seq).1;
            closure::told(
                closure::watched(crash::crash_detector(l), crash::undisturbed(), s).1,
                ChaosKind::FlashCrash,
            )
        }),
{
    let g = generators::crash::new_crash(seed, severity, base_price, true, bursts);
    generators::dial::lemma_weighted(severity, 5_200, 7_600);
    crash::crashes_are_flagged(l, g, now_ns, base_seq);
}

/// Momentum ignition: the stairs are flagged, by the sixteenth at the latest.
pub proof fn ignitions_are_found(
    l: IgnitionLimits,
    seed: u64,
    severity: Ratio,
    base_price: u64,
    up: bool,
    now_ns: u64,
    base_seq: u64,
    stairs: nat,
)
    requires
        momentum::ignition_reach(l),
        base_price >= 10_000,
        base_price <= 0x7fff_ffff_ffff_ffff - base_price / 500,
        stairs >= 16,
        base_seq + 60 < u64::MAX,
    ensures
        ({
            let g = generators::momentum::new_momentum(seed, severity, base_price, up);
            let t = generators::tape::blank(g.rng, g.next_oid, base_seq, now_ns);
            let s = generators::momentum::stairs(g, generators::momentum::momentum_seed(g, t), stairs).1.out;
            closure::told(
                closure::watched(momentum::ignition_detector(l), momentum::calm(), s).1,
                ChaosKind::MomentumIgnition,
            )
        }),
{
    let g = generators::momentum::new_momentum(seed, severity, base_price, up);
    generators::dial::lemma_weighted(severity, 8, 40);
    let t = generators::tape::blank(g.rng, g.next_oid, base_seq, now_ns);
    momentum::ignitions_are_flagged(l, g, t, stairs);
}

} // verus!
