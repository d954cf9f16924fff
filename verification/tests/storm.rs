use flowlab::chaos::flag::ChaosKind;
use flowlab::chaos::storm::{StormOrchestrator, StormSnapshot, StormSpec};
use flowlab::ratio::Ratio;

#[test]
fn idle_orchestrator_emits_nothing() {
    let mut orch = StormOrchestrator::new(100_000);
    let out = orch.poll(1_000_000, 1);
    assert!(out.is_empty());
    assert_eq!(orch.snapshot(), StormSnapshot::idle());
}

#[test]
fn start_and_poll_emit_monotone_sequences() {
    let mut orch = StormOrchestrator::new(100_000);
    orch.start(
        StormSpec {
            kind: ChaosKind::PhantomLiquidity,
            severity: Ratio::new(8, 10),
            duration_ns: 50_000_000,
            seed: 0xDEAD_BEEF,
        },
        1_000_000,
    );

    let batch = orch.poll(1_000_000, 100);
    assert!(!batch.is_empty());
    assert!(orch.is_active());
    assert_eq!(batch.first().unwrap().seq, 100);
    for pair in batch.windows(2) {
        assert!(pair[0].seq < pair[1].seq);
    }
}

#[test]
fn expiry_stops_active_storm() {
    let mut orch = StormOrchestrator::new(100_000);
    orch.start(
        StormSpec {
            kind: ChaosKind::FlashCrash,
            severity: Ratio::new(9, 10),
            duration_ns: 10_000_000,
            seed: 7,
        },
        1_000_000,
    );
    let _ = orch.poll(1_000_000, 1);
    let after = orch.poll(20_000_000, 50);
    assert!(after.is_empty());
    assert!(!orch.is_active());
}

#[test]
fn restart_keeps_storm_alive_until_ttl() {
    let mut orch = StormOrchestrator::new(100_000);
    orch.start(
        StormSpec {
            kind: ChaosKind::CancellationStorm,
            severity: Ratio::new(0, 10),
            duration_ns: 400_000_000,
            seed: 42,
        },
        1_000_000,
    );

    let mut total = 0usize;
    for step in 0..70u64 {
        let now_ns = 1_000_000 + step * 5_000_000;
        total += orch.poll(now_ns, 1 + total as u64).len();
    }
    let snap = orch.snapshot();
    assert!(total > 0);
    assert!(snap.is_active());
    assert!(snap.restarts > 0);
}

/// Polls that are numbered on from one another keep one numbering, and a storm ends
/// with its time, however often it is polled.
#[test]
fn series_of_polls_keep_number_and_deadline() {
    for kind in [
        ChaosKind::PhantomLiquidity,
        ChaosKind::CancellationStorm,
        ChaosKind::MomentumIgnition,
        ChaosKind::FlashCrash,
        ChaosKind::LatencyArbitrage,
    ] {
        let mut orch = StormOrchestrator::new(100_000);
        let spec = StormSpec { kind, severity: Ratio::new(5, 10), duration_ns: 300_000_000, seed: 9 };
        let first = orch.start(spec, 1_000_000);
        assert_eq!(first.expires_at_ns, 301_000_000);
        let (mut last, mut total) = (0u64, 0usize);
        for step in 0..100u64 {
            let now = 1_000_000 + step * 4_000_000;
            let out = orch.poll(now, last + 1);
            for e in &out {
                assert!(e.seq > last);
                last = e.seq;
            }
            assert_eq!(orch.is_active(), now < 301_000_000);
            assert!(orch.is_active() || out.is_empty());
            if orch.is_active() {
                assert_eq!(orch.snapshot().expires_at_ns, 301_000_000);
            }
            total += out.len();
        }
        assert!(total > 0);
    }
}
