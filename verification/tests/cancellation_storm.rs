use flowlab::book::event::{Event, EventType, SequencedEvent, Side};
use flowlab::chaos::cancellation_storm::{CancellationStormDetector, RateSample, StormVerdict};
use flowlab::chaos::flag::ChaosEvent;
use flowlab::ratio::Ratio;

fn ev(seq: u64, ts: u64, etype: EventType, side: Side) -> SequencedEvent {
    SequencedEvent {
        seq,
        channel_id: 0,
        event: Event {
            ts,
            price: 10_000,
            qty: 100,
            order_id: seq,
            instrument_id: 1,
            event_type: etype.code(),
            side: side.code(),
            _pad: [0; 2],
        },
    }
}

/// Running mean and deviation of the usual rates of cancels.
struct Baseline {
    n: u64,
    mean: f64,
    m2: f64,
    sigma_floor: f64,
    k_sigma: f64,
}

impl Baseline {
    fn new(sigma_floor: f64, k_sigma: f64) -> Self {
        Self { n: 0, mean: 0.0, m2: 0.0, sigma_floor, k_sigma }
    }

    fn update(&mut self, r: RateSample) {
        let x = r.cancels as f64 / r.total as f64;
        self.n += 1;
        let delta = x - self.mean;
        self.mean += delta / self.n as f64;
        self.m2 += delta * (x - self.mean);
    }

    fn sigma(&self) -> f64 {
        let s = if self.n < 2 { 0.0 } else { (self.m2 / (self.n - 1) as f64).sqrt() };
        s.max(self.sigma_floor)
    }

    fn threshold(&self) -> f64 {
        self.mean + self.k_sigma * self.sigma()
    }

    fn verdict(&self, r: Option<RateSample>) -> StormVerdict {
        match r {
            None => StormVerdict { above: false, severity: Ratio::new(0, 1) },
            Some(r) => {
                let rate = r.cancels as f64 / r.total as f64;
                let z = ((rate - self.mean) / self.sigma()).max(0.0);
                let severity = (z / (z + 3.0)).clamp(0.0, 1.0);
                StormVerdict {
                    above: rate > self.threshold(),
                    severity: Ratio::new((severity * 1e6) as u32, 1_000_000),
                }
            }
        }
    }
}

/// A detector with the baseline that judges its rates.
struct Storm {
    det: CancellationStormDetector,
    base: Baseline,
    last_rate: f64,
}

impl Storm {
    fn new(
        seq_window: u64,
        time_window_ns: u64,
        min_window: usize,
        warmup_samples: u64,
        sigma_floor: f64,
        k_sigma: f64,
        min_consecutive: u64,
        cooldown_seq: u64,
    ) -> Self {
        Self {
            det: CancellationStormDetector::new(
                seq_window,
                time_window_ns,
                min_window,
                warmup_samples,
                min_consecutive,
                cooldown_seq,
            ),
            base: Baseline::new(sigma_floor, k_sigma),
            last_rate: 0.0,
        }
    }

    fn threshold(&self) -> f64 {
        self.base.threshold()
    }

    fn welford_samples(&self) -> u64 {
        self.det.welford_samples()
    }

    fn process(&mut self, e: &SequencedEvent) -> Option<ChaosEvent> {
        let rate = self.det.preview(e);
        if let Some(r) = rate {
            self.last_rate = r.cancels as f64 / r.total as f64;
        }
        let step = self.det.process(e, self.base.verdict(rate));
        if let Some(r) = step.learn {
            self.base.update(r);
        }
        assert_eq!(self.base.n, self.det.welford_samples());
        step.flag
    }
}

fn drive(det: &mut Storm, start: u64, n: u64) -> usize {
    let mut hits = 0;
    for k in 0..n {
        let i = start + k;
        let etype = if k % 20 == 0 {
            EventType::OrderAdd
        } else {
            EventType::OrderCancel
        };
        if det.process(&ev(i, i * 1_000, etype, Side::Bid)).is_some() {
            hits += 1;
        }
    }
    hits
}

/// Build a steady-state stream with ~50% cancel ratio (alternating
/// ADD/CANCEL with occasional trades). Should never flag.
#[test]
fn no_flag_on_steady_state() {
    let mut det = Storm::new(
        /* seq_window */ 200,
        /* time_window_ns */ 0,
        /* min_window */ 50,
        /* warmup_samples */ 100,
        /* sigma_floor */ 0.02,
        /* k_sigma */ 4.0,
        /* min_consecutive */ 5,
        /* cooldown_seq */ 200,
    );

    for i in 1u64..=2_000 {
        let etype = match i % 4 {
            0 | 2 => EventType::OrderAdd,
            1 => EventType::OrderCancel,
            _ => EventType::Trade,
        };
        let flag = det.process(&ev(i, i * 1_000, etype, Side::Bid));
        assert!(
            flag.is_none(),
            "steady state flagged at i={i} rate={:.3} thr={:.3}",
            det.last_rate,
            det.threshold()
        );
    }
}

/// Steady state followed by a sustained ~95% cancel block — must
/// flag exactly once thanks to refractory + persistence.
#[test]
fn flags_sustained_storm_once() {
    let mut det = Storm::new(
        /* seq_window */ 200,
        /* time_window_ns */ 0,
        /* min_window */ 50,
        /* warmup_samples */ 100,
        /* sigma_floor */ 0.02,
        /* k_sigma */ 4.0,
        /* min_consecutive */ 5,
        /* cooldown_seq */ 500,
    );

    // 1500 steady events: 50% cancel mix establishes the baseline.
    for i in 1u64..=1_500 {
        let etype = match i % 4 {
            0 | 2 => EventType::OrderAdd,
            1 => EventType::OrderCancel,
            _ => EventType::Trade,
        };
        assert!(det.process(&ev(i, i * 1_000, etype, Side::Bid)).is_none());
    }
    let baseline_thr = det.threshold();
    assert!(
        baseline_thr < 0.7,
        "baseline threshold {baseline_thr:.3} unrealistically high"
    );

    // 400 storm events: 19/20 cancels, 1/20 ADD.
    let mut flagged = 0;
    for k in 0u64..400 {
        let i = 1_500 + k + 1;
        let etype = if k % 20 == 0 {
            EventType::OrderAdd
        } else {
            EventType::OrderCancel
        };
        if det.process(&ev(i, i * 1_000, etype, Side::Bid)).is_some() {
            flagged += 1;
        }
    }
    assert_eq!(
        flagged, 1,
        "sustained storm should flag exactly once (refractory active)"
    );
}

/// A single elevated sample (one anomalous cancel ratio) must NOT
/// flag — persistence requires `min_consecutive` consecutive
/// above-threshold samples.
#[test]
fn no_flag_on_single_spike() {
    let mut det = Storm::new(
        10, 0, 10, 50, 0.02, 4.0,
        /* min_consecutive */ 5, 200,
    );

    // Establish baseline: 200 events, 50% cancels.
    for i in 1u64..=200 {
        let etype = if i % 2 == 0 {
            EventType::OrderAdd
        } else {
            EventType::OrderCancel
        };
        det.process(&ev(i, i * 1_000, etype, Side::Bid));
    }

    // One isolated cancel-only burst of 4 events (less than
    // min_consecutive=5 above threshold) — must not flag.
    for k in 0u64..4 {
        let i = 200 + k + 1;
        let flag = det.process(&ev(i, i * 1_000, EventType::OrderCancel, Side::Bid));
        assert!(flag.is_none(), "transient spike at k={k} should not flag");
    }
}

/// During warmup (first `warmup_samples` rate observations) the
/// detector must NOT emit even on extreme rates.
#[test]
fn no_flag_during_warmup() {
    let mut det = Storm::new(
        50, 0, 10,
        /* warmup_samples */ 500,
        0.02, 4.0, 3, 100,
    );

    // 100% cancels from event #1 — extreme by any baseline.
    for i in 1u64..=200 {
        let flag = det.process(&ev(i, i * 1_000, EventType::OrderCancel, Side::Bid));
        assert!(
            flag.is_none(),
            "warmup must suppress all flags (i={i}, samples={})",
            det.welford_samples()
        );
    }
}

/// Two storms separated by less than the cooldown -> only one
/// flag. Separated by more -> two flags.
#[test]
fn cooldown_suppresses_back_to_back_storms() {
    let cooldown = 500u64;
    let mut det = Storm::new(
        200, 0, 50, 100, 0.02, 4.0, 5, cooldown,
    );

    // Baseline.
    for i in 1u64..=1_500 {
        let etype = match i % 4 {
            0 | 2 => EventType::OrderAdd,
            1 => EventType::OrderCancel,
            _ => EventType::Trade,
        };
        det.process(&ev(i, i * 1_000, etype, Side::Bid));
    }

    // Storm #1 + back-to-back storm #2 inside cooldown.
    let h1 = drive(&mut det, 1_501, 100);
    let h2 = drive(&mut det, 1_601, 100); // still inside cooldown (<500 from h1)
    assert_eq!(h1, 1, "first storm should flag");
    assert_eq!(h2, 0, "second storm inside cooldown must not flag");

    // Long quiet stretch beyond cooldown, then a fresh storm.
    for i in 1_701u64..=3_500 {
        let etype = match i % 4 {
            0 | 2 => EventType::OrderAdd,
            1 => EventType::OrderCancel,
            _ => EventType::Trade,
        };
        det.process(&ev(i, i * 1_000, etype, Side::Bid));
    }
    let h3 = drive(&mut det, 3_501, 100);
    assert_eq!(h3, 1, "post-cooldown storm should flag again");
}

/// Sigma floor: a perfectly flat baseline (rate exactly constant)
/// drives σ̂ -> 0. Without a floor any tiny rate increase would
/// flag. The floor must prevent that.
#[test]
fn sigma_floor_prevents_flat_baseline_collapse() {
    let mut det = Storm::new(
        50, 0, 10, 50,
        /* sigma_floor */ 0.05,
        /* k_sigma */ 3.0,
        3, 100,
    );

    // Build a window where exactly 50% are cancels, deterministic.
    for i in 1u64..=400 {
        let etype = if i % 2 == 0 {
            EventType::OrderAdd
        } else {
            EventType::OrderCancel
        };
        det.process(&ev(i, i * 1_000, etype, Side::Bid));
    }
    let thr = det.threshold();
    // Mean ~0.5, sigma_floor=0.05, k=3 -> threshold >= 0.65.
    assert!(
        thr >= 0.5 + 0.05 * 3.0 - 1e-9,
        "sigma floor not honoured: thr={thr}"
    );
}

/// A flag comes after the warm-up, from a window that holds enough, and starts where
/// the rates above began; other events change nothing, and nothing is learnt of it.
#[test]
fn flags_are_earned() {
    let mut det = CancellationStormDetector::new(100, 0, 3, 2, 2, 10);
    let above = StormVerdict { above: true, severity: Ratio::new(1, 2) };
    assert!(det.process(&ev(1, 10, EventType::OrderCancel, Side::Bid), above).flag.is_none());
    assert!(det.process(&ev(2, 20, EventType::OrderCancel, Side::Bid), above).flag.is_none());
    assert_eq!((det.window_len(), det.welford_samples()), (2, 0));
    assert!(det.process(&ev(3, 30, EventType::OrderCancel, Side::Bid), above).flag.is_none());
    assert!(det.process(&ev(4, 40, EventType::OrderAdd, Side::Bid), above).flag.is_none());
    assert_eq!(det.welford_samples(), 2);
    assert!(det.process(&ev(5, 50, EventType::OrderCancel, Side::Bid), above).flag.is_none());
    let other = det.process(&ev(6, 60, EventType::OrderModify, Side::Bid), above);
    assert!(other.flag.is_none() && other.learn.is_none());
    assert_eq!(det.window_len(), 5);
    let step = det.process(&ev(7, 70, EventType::OrderCancel, Side::Bid), above);
    let f = step.flag.unwrap();
    assert_eq!((f.start_seq, f.end_seq), (5, 7));
    assert_eq!((f.features.event_count, f.features.duration_ns), (6, 20));
    assert!(step.learn.is_none());
    assert_eq!(det.welford_samples(), 2);
}
