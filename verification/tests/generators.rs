use flowlab::book::event::SequencedEvent;
use flowlab::chaos::cancellation_storm::{CancellationStormDetector, RateSample, StormVerdict};
use flowlab::chaos::detection::{QuoteStuffDetector, SpoofDetector};
use flowlab::chaos::flag::ChaosKind;
use flowlab::chaos::flash_crash::FlashCrashDetector;
use flowlab::chaos::generators::{
    CancellationStormGenerator, DetRng, FlashCrashGenerator, LatencyArbProxyGenerator, MomentumIgnitionGenerator,
    PhantomLiquidityGenerator, QuoteStuffGenerator, SpoofGenerator, StormGenerator,
};
use flowlab::chaos::latency_arb_proxy::LatencyArbProxyDetector;
use flowlab::chaos::momentum_ignition::MomentumIgnitionDetector;
use flowlab::chaos::phantom_liquidity::PhantomLiquidityDetector;
use flowlab::ratio::Ratio;

/// Running mean and deviation of the usual rates of cancels.
struct Baseline {
    n: u64,
    mean: f64,
    m2: f64,
    sigma_floor: f64,
    k_sigma: f64,
}

impl Baseline {
    fn new(sigma_floor: f64, k_sigma: f64) -> Self {
        Self { n: 0, mean: 0.0, m2: 0.0, sigma_floor, k_sigma }
    }

    fn update(&mut self, r: RateSample) {
        let x = r.cancels as f64 / r.total as f64;
        self.n += 1;
        let delta = x - self.mean;
        self.mean += delta / self.n as f64;
        self.m2 += delta * (x - self.mean);
    }

    fn sigma(&self) -> f64 {
        let s = if self.n < 2 { 0.0 } else { (self.m2 / (self.n - 1) as f64).sqrt() };
        s.max(self.sigma_floor)
    }

    fn threshold(&self) -> f64 {
        self.mean + self.k_sigma * self.sigma()
    }

    fn verdict(&self, r: Option<RateSample>) -> StormVerdict {
        match r {
            None => StormVerdict { above: false, severity: Ratio::new(0, 1) },
            Some(r) => {
                let rate = r.cancels as f64 / r.total as f64;
                let z = ((rate - self.mean) / self.sigma()).max(0.0);
                let severity = (z / (z + 3.0)).clamp(0.0, 1.0);
                StormVerdict {
                    above: rate > self.threshold(),
                    severity: Ratio::new((severity * 1e6) as u32, 1_000_000),
                }
            }
        }
    }
}

fn run<G: StormGenerator>(mut g: G, max_steps: u32) -> Vec<SequencedEvent> {
    let mut out = Vec::new();
    let mut seq: u64 = 1;
    let mut now: u64 = 1_000_000;
    for _ in 0..max_steps {
        if g.finished() {
            break;
        }
        let evs = g.step(now, seq);
        // Trust the batch: a generator may emit a `seq` jump (e.g.
        // cancellation storm pre-fills with a gap so the rolling
        // window is wiped). Pick the next seq from the highest one
        // observed in the batch, falling back to a simple bump.
        if let Some(max_seq) = evs.iter().map(|e| e.seq).max() {
            seq = max_seq.saturating_add(1);
        } else {
            seq = seq.saturating_add(1);
        }
        now = now.saturating_add(1_000_000);
        out.extend(evs);
    }
    out
}

#[test]
fn phantom_generator_fires_phantom_detector() {
    let g = PhantomLiquidityGenerator::new(0xDEAD_BEEF, Ratio::new(9, 10), 100_000, 8);
    let stream = run(g, 16);
    let mut det = PhantomLiquidityDetector::new(256, 5_000_000, 4096, 100);
    let mut hits = 0;
    for ev in &stream {
        if let Some(e) = det.process(ev) {
            assert_eq!(e.kind, ChaosKind::PhantomLiquidity);
            hits += 1;
        }
    }
    assert!(hits >= 4, "expected >=4 phantom flags, got {hits}");
}

#[test]
fn quote_stuff_generator_fires_quote_stuff_detector() {
    let g = QuoteStuffGenerator::new(0xAAA5, Ratio::new(9, 10), 100_000, 2);
    let stream = run(g, 4);
    let mut det = QuoteStuffDetector::new(48, Ratio::new(8, 1));
    let mut hits = 0;
    for ev in &stream {
        if let Some(e) = det.process(ev) {
            assert_eq!(e.kind, ChaosKind::QuoteStuff);
            hits += 1;
        }
    }
    assert!(hits >= 1, "expected quote-stuff flag, got {hits}");
}

#[test]
fn spoof_generator_fires_spoof_detector() {
    let g = SpoofGenerator::new(0xAAA6, Ratio::new(9, 10), 100_000, 4);
    let stream = run(g, 8);
    let mut det = SpoofDetector::new(1_000, 64);
    let mut hits = 0;
    for ev in &stream {
        if let Some(e) = det.process(ev) {
            assert_eq!(e.kind, ChaosKind::Spoof);
            hits += 1;
        }
    }
    assert!(hits >= 1, "expected spoof flag, got {hits}");
}

#[test]
fn cancel_storm_generator_fires_cancel_storm_detector() {
    let g = CancellationStormGenerator::new(0xC0FF_EE, Ratio::new(95, 100), 100_000);
    let stream = run(g, 80);
    let mut det = CancellationStormDetector::new(
        2_048, 0, 128, 1_024, 8, 4_096,
    );
    let mut base = Baseline::new(0.05, 4.0);
    let mut hits = 0;
    for ev in &stream {
        let verdict = base.verdict(det.preview(ev));
        let step = det.process(ev, verdict);
        if let Some(r) = step.learn {
            base.update(r);
        }
        if let Some(e) = step.flag {
            assert_eq!(e.kind, ChaosKind::CancellationStorm);
            hits += 1;
        }
    }
    assert!(hits >= 1, "expected at least one storm flag, got {hits}");
}

#[test]
fn momentum_generator_fires_momentum_detector() {
    let g = MomentumIgnitionGenerator::new(0x1234, Ratio::new(9, 10), 100_000, true);
    let stream = run(g, 30);
    let mut det = MomentumIgnitionDetector::new(
        1_024, 0, 64, 5, 8, 4, 2_048,
    );
    let mut hits = 0;
    for ev in &stream {
        if let Some(e) = det.process(ev) {
            assert_eq!(e.kind, ChaosKind::MomentumIgnition);
            hits += 1;
        }
    }
    assert!(hits >= 1, "expected momentum flag, got {hits}");
}

#[test]
fn flash_crash_generator_fires_flash_crash_detector() {
    let g = FlashCrashGenerator::new(0xBADC_0FFE, Ratio::new(9, 10), 100_000, true, 3);
    let stream = run(g, 20);
    let mut det = FlashCrashDetector::new(10, 8, 64, 5, Ratio::new(6, 10), 3, 2_048);
    let mut hits = 0;
    for ev in &stream {
        if let Some(e) = det.process(ev) {
            assert_eq!(e.kind, ChaosKind::FlashCrash);
            hits += 1;
        }
    }
    assert!(hits >= 1, "expected at least one flash-crash flag, got {hits}");
}

#[test]
fn latency_arb_generator_fires_latency_arb_detector() {
    let g = LatencyArbProxyGenerator::new(0xABCD_1234, Ratio::new(9, 10), 100_000, 8);
    let stream = run(g, 20);
    let mut det = LatencyArbProxyDetector::new(
        64, 0, 64, 4, 200, 4, false, 0, 1_024,
    );
    let mut hits = 0;
    for ev in &stream {
        if let Some(e) = det.process(ev) {
            assert_eq!(e.kind, ChaosKind::LatencyArbitrage);
            hits += 1;
        }
    }
    assert!(hits >= 1, "expected latency-arb flag, got {hits}");
}

#[test]
fn determinism_seed_repeats_byte_stream() {
    // Same seed → identical event byte stream.
    let g1 = FlashCrashGenerator::new(42, Ratio::new(7, 10), 100_000, true, 2);
    let g2 = FlashCrashGenerator::new(42, Ratio::new(7, 10), 100_000, true, 2);
    let s1 = run(g1, 6);
    let s2 = run(g2, 6);
    assert_eq!(s1.len(), s2.len(), "length mismatch");
    for (a, b) in s1.iter().zip(s2.iter()) {
        assert_eq!(a.seq, b.seq);
        assert_eq!(a.event.ts, b.event.ts);
        assert_eq!(a.event.price, b.event.price);
        assert_eq!(a.event.qty, b.event.qty);
        assert_eq!(a.event.event_type, b.event.event_type);
        assert_eq!(a.event.side, b.event.side);
        assert_eq!(a.event.order_id, b.event.order_id);
    }
}

#[test]
fn sources_never_give_zero() {
    for seed in [0, 1, u64::MAX, 0x9E37_79B9_7F4A_7C15] {
        let mut rng = DetRng::new(seed);
        assert!((0..100_000).all(|_| rng.next_u64() != 0));
    }
}
