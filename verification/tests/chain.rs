use flowlab::book::event::{Event, EventType, SequencedEvent, Side};
use flowlab::chaos::cancellation_storm::{RateSample, StormVerdict};
use flowlab::chaos::chain::ChaosChain;
use flowlab::chaos::flag::{ChaosEvent, ChaosKind};
use flowlab::ratio::Ratio;

fn ev(
    seq: u64,
    ts: u64,
    etype: EventType,
    side: Side,
    price: u64,
    qty: u64,
    order_id: u64,
) -> SequencedEvent {
    SequencedEvent {
        seq,
        channel_id: 0,
        event: Event {
            ts,
            price,
            qty,
            order_id,
            instrument_id: 1,
            event_type: etype.code(),
            side: side.code(),
            _pad: [0; 2],
        },
    }
}

/// Running mean and deviation of the usual rates of cancels.
struct Baseline {
    n: u64,
    mean: f64,
    m2: f64,
    sigma_floor: f64,
    k_sigma: f64,
}

impl Baseline {
    fn new(sigma_floor: f64, k_sigma: f64) -> Self {
        Self { n: 0, mean: 0.0, m2: 0.0, sigma_floor, k_sigma }
    }

    fn update(&mut self, r: RateSample) {
        let x = r.cancels as f64 / r.total as f64;
        self.n += 1;
        let delta = x - self.mean;
        self.mean += delta / self.n as f64;
        self.m2 += delta * (x - self.mean);
    }

    fn sigma(&self) -> f64 {
        let s = if self.n < 2 { 0.0 } else { (self.m2 / (self.n - 1) as f64).sqrt() };
        s.max(self.sigma_floor)
    }

    fn threshold(&self) -> f64 {
        self.mean + self.k_sigma * self.sigma()
    }

    fn verdict(&self, r: Option<RateSample>) -> StormVerdict {
        match r {
            None => StormVerdict { above: false, severity: Ratio::new(0, 1) },
            Some(r) => {
                let rate = r.cancels as f64 / r.total as f64;
                let z = ((rate - self.mean) / self.sigma()).max(0.0);
                let severity = (z / (z + 3.0)).clamp(0.0, 1.0);
                StormVerdict {
                    above: rate > self.threshold(),
                    severity: Ratio::new((severity * 1e6) as u32, 1_000_000),
                }
            }
        }
    }
}

/// A chain with the baseline that judges its rates of cancels.
struct Chain {
    inner: ChaosChain,
    base: Baseline,
}

impl Chain {
    fn default_itch() -> Self {
        Self { inner: ChaosChain::default_itch(), base: Baseline::new(0.05, 4.0) }
    }

    fn process(&mut self, e: &SequencedEvent) -> Vec<ChaosEvent> {
        let verdict = self.base.verdict(self.inner.storm_preview(e));
        let (flags, learn) = self.inner.process(e, verdict);
        if let Some(r) = learn {
            self.base.update(r);
        }
        flags
    }

    fn process_into(&mut self, e: &SequencedEvent, out: &mut Vec<ChaosEvent>) {
        let verdict = self.base.verdict(self.inner.storm_preview(e));
        if let Some(r) = self.inner.process_into(e, verdict, out) {
            self.base.update(r);
        }
    }

    fn count(&self, kind: ChaosKind) -> u64 {
        self.inner.count(kind)
    }

    fn total_flags(&self) -> u64 {
        self.inner.total_flags()
    }
}

/// A pure ADD-only stream produces zero flags from any detector.
/// This is the baseline noise-floor smoke test for the chain.
#[test]
fn no_flags_on_idle_stream() {
    let mut chain = Chain::default_itch();
    for i in 1u64..=2_000 {
        let side = if i % 2 == 0 { Side::Bid } else { Side::Ask };
        let px = if side == Side::Bid {
            10_000 - (i % 16)
        } else {
            10_000 + (i % 16)
        };
        let flags = chain.process(&ev(i, i * 1_000, EventType::OrderAdd, side, px, 100, i));
        assert!(flags.is_empty(), "idle stream flagged at i={i}");
    }
    assert_eq!(chain.total_flags(), 0);
}

/// A textbook phantom-liquidity cycle (large add, full cancel
/// before any trade) at the start of the stream still flags via
/// the chain wrapper, proving wiring is correct.
#[test]
fn chain_propagates_phantom_flag() {
    let mut chain = Chain::default_itch();
    // Big add then quick full cancel. Same order_id so the phantom
    // detector links the cancel back to the original add.
    let f1 = chain.process(&ev(1, 1_000, EventType::OrderAdd, Side::Bid, 10_000, 1_000, 42));
    assert!(f1.is_empty());
    let f2 = chain.process(&ev(5, 5_000, EventType::OrderCancel, Side::Bid, 10_000, 1_000, 42));
    assert!(
        f2.iter().any(|e| e.kind == ChaosKind::PhantomLiquidity),
        "chain failed to surface phantom flag: {f2:?}"
    );
    assert!(chain.count(ChaosKind::PhantomLiquidity) >= 1);
}

#[test]
fn chain_propagates_spoof_flag() {
    let mut chain = Chain::default_itch();
    let add = chain.process(&ev(1, 1_000, EventType::OrderAdd, Side::Bid, 10_000, 5_000, 77));
    assert!(add.is_empty());
    let cancel = chain.process(&ev(2, 2_000, EventType::OrderCancel, Side::Bid, 10_000, 5_000, 77));
    assert!(cancel.iter().any(|e| e.kind == ChaosKind::Spoof));
    assert!(chain.count(ChaosKind::Spoof) >= 1);
}

#[test]
fn chain_propagates_quote_stuff_flag() {
    let mut chain = Chain::default_itch();
    let mut seen = false;
    let mut seq = 1u64;

    for _ in 0..4 {
        let _ = chain.process(&ev(seq, seq * 1_000, EventType::Trade, Side::Ask, 10_001, 100, seq));
        seq += 1;
    }
    for _ in 0..36 {
        let flags = chain.process(&ev(seq, seq * 1_000, EventType::OrderCancel, Side::Bid, 9_999, 100, seq));
        if flags.iter().any(|e| e.kind == ChaosKind::QuoteStuff) {
            seen = true;
            break;
        }
        seq += 1;
    }

    assert!(seen);
    assert!(chain.count(ChaosKind::QuoteStuff) >= 1);
}

/// `process` and `process_into` must produce identical kind sequences
/// over an identical event stream — they share the same body and the
/// only diff is who owns the buffer. This test pins that contract so a
/// future refactor cannot accidentally diverge the two APIs.
#[test]
fn process_into_matches_process() {
    // Same script as the phantom-liquidity test, plus a quote-stuff burst
    // so we exercise multiple detector branches.
    let stream: Vec<SequencedEvent> = {
        let mut s = Vec::new();
        s.push(ev(1, 1_000, EventType::OrderAdd, Side::Bid, 10_000, 1_000, 42));
        s.push(ev(5, 5_000, EventType::OrderCancel, Side::Bid, 10_000, 1_000, 42));
        for i in 0..4 {
            let seq = 100 + i;
            s.push(ev(seq, seq * 1_000, EventType::Trade, Side::Ask, 10_001, 100, seq));
        }
        for i in 0..36 {
            let seq = 200 + i;
            s.push(ev(seq, seq * 1_000, EventType::OrderCancel, Side::Bid, 9_999, 100, seq));
        }
        s
    };

    let mut a = Chain::default_itch();
    let from_alloc: Vec<ChaosKind> = stream
        .iter()
        .flat_map(|e| a.process(e).into_iter().map(|f| f.kind))
        .collect();

    let mut b = Chain::default_itch();
    let mut buf: Vec<ChaosEvent> = Vec::with_capacity(8);
    let mut from_into: Vec<ChaosKind> = Vec::new();
    for e in &stream {
        buf.clear();
        b.process_into(e, &mut buf);
        from_into.extend(buf.iter().map(|f| f.kind));
    }

    assert_eq!(
        from_alloc, from_into,
        "process and process_into diverged: alloc={from_alloc:?} into={from_into:?}"
    );
    // Counters must agree too — they're updated by the same `bump`.
    for k in [
        ChaosKind::QuoteStuff,
        ChaosKind::Spoof,
        ChaosKind::PhantomLiquidity,
        ChaosKind::CancellationStorm,
        ChaosKind::MomentumIgnition,
        ChaosKind::FlashCrash,
        ChaosKind::LatencyArbitrage,
    ] {
        assert_eq!(a.count(k), b.count(k), "counter mismatch for {k:?}");
    }
}

/// The total grows by as many flags as an event gives, and so do the counts.
#[test]
fn totals_grow_by_the_flags() {
    let mut chain = Chain::default_itch();
    let mut seen = 0;
    for i in 0..40u64 {
        let before = chain.total_flags();
        let kind = if i % 2 == 0 { EventType::OrderAdd } else { EventType::OrderCancel };
        let phantoms = chain.count(ChaosKind::PhantomLiquidity);
        let flags = chain.process(&ev(i + 1, (i + 1) * 1_000, kind, Side::Bid, 10_000, 1_000, i / 2 + 1));
        let of_kind = flags.iter().filter(|f| f.kind == ChaosKind::PhantomLiquidity).count() as u64;
        assert_eq!(chain.count(ChaosKind::PhantomLiquidity), phantoms + of_kind);
        assert_eq!(chain.total_flags(), before + flags.len() as u64);
        seen += flags.len();
    }
    assert!(seen > 0);
}
