use flowlab::book::event::{Event, EventType, SequencedEvent, Side};
use flowlab::chaos::cancellation_storm::{CancellationStormDetector, RateSample, StormVerdict};
use flowlab::chaos::chain::ChaosChain;
use flowlab::chaos::clustering::ChaosClusterer;
use flowlab::chaos::detection::{QuoteStuffDetector, SpoofDetector};
use flowlab::chaos::flag::{ChaosEvent, ChaosFeatures, ChaosKind, Severity};
use flowlab::chaos::flash_crash::FlashCrashDetector;
use flowlab::chaos::generators::dial::{clamp_severity, lerp, lerp_round};
use flowlab::chaos::generators::{
    DetRng, FlashCrashGenerator, LatencyArbProxyGenerator, MomentumIgnitionGenerator, PhantomLiquidityGenerator,
    QuoteStuffGenerator, SpoofGenerator, StormGenerator,
};
use flowlab::chaos::latency_arb_proxy::LatencyArbProxyDetector;
use flowlab::chaos::mini_book::{mid_between, MiniBook};
use flowlab::chaos::momentum_ignition::{bps_move, MomentumIgnitionDetector};
use flowlab::chaos::order_tracker::{AggressorSide, OrderTracker};
use flowlab::chaos::phantom_liquidity::PhantomLiquidityDetector;
use flowlab::chaos::storm::{StormMode, StormOrchestrator, StormSnapshot, StormSpec};
use flowlab::chaos::window::WindowExtractor;
use flowlab::flow::regime::Regime;
use flowlab::ratio::{Fraction, Ratio};

fn ev(seq: u64, kind: EventType, side: Side, price: u64, qty: u64, order_id: u64) -> SequencedEvent {
    SequencedEvent {
        seq,
        channel_id: 0,
        event: Event {
            ts: seq * 1_000,
            price,
            qty,
            order_id,
            instrument_id: 1,
            event_type: kind.code(),
            side: side.code(),
            _pad: [0; 2],
        },
    }
}

fn flag(kind: ChaosKind, start: u64, end: u64, initiator: Option<u64>) -> ChaosEvent {
    ChaosEvent {
        kind,
        start_seq: start,
        end_seq: end,
        severity: Severity::single(1, 2),
        initiator,
        features: ChaosFeatures {
            event_count: 1,
            duration_ns: 0,
            cancel_trade_ratio: Fraction { num: 0, den: 1 },
            price_displacement: 0,
            depth_removed: 0,
        },
    }
}

const QUIET: StormVerdict = StormVerdict { above: false, severity: Ratio { num: 0, den: 1 } };
const LOUD: StormVerdict = StormVerdict { above: true, severity: Ratio { num: 3, den: 4 } };

// ─── Detectors ──────────────────────────────────────────────────────

#[test]
fn orders_are_resolved_by_their_id() {
    let mut t = OrderTracker::new();
    let add = t.on_add(&ev(1, EventType::OrderAdd, Side::Ask, 105, 10, 7).event).unwrap();
    assert_eq!((add.side, add.price, add.qty), (1, 105, 10));
    let part = t.on_cancel(&ev(2, EventType::OrderCancel, Side::Bid, 0, 4, 7).event).unwrap();
    assert_eq!((part.side, part.price, part.qty), (1, 105, 4));
    let rest = t.on_trade(&ev(3, EventType::Trade, Side::Bid, 0, 99, 7).event).unwrap();
    assert_eq!((rest.update.side, rest.update.price, rest.update.qty), (1, 105, 6));
    assert_eq!(rest.aggressor, AggressorSide::Buy);
    assert!(t.on_cancel(&ev(4, EventType::OrderCancel, Side::Bid, 0, 1, 7).event).is_none());
    let bare = t.on_trade(&ev(5, EventType::Trade, Side::Bid, 50, 2, 8).event).unwrap();
    assert_eq!(bare.aggressor, AggressorSide::Sell);
}

#[test]
fn small_books_keep_the_best_levels() {
    let mut b = MiniBook::new(2);
    for p in [10, 12, 11] {
        b.add_qty(true, p, 5);
        b.add_qty(false, p + 10, 5);
    }
    assert_eq!((b.bid_levels(), b.ask_levels()), (2, 2));
    assert_eq!((b.best_bid(), b.best_ask()), (Some(12), Some(20)));
    assert_eq!(b.qty_of(true, 10), 0);
    assert_eq!(b.bid_band(0, 100), 10);
    assert_eq!(b.midprice(), Some(16));
    assert_eq!(b.sub_qty(true, 12, 2).0, 2);
    assert_eq!(b.qty_of(true, 12), 3);
    b.sub_qty(true, 12, 0);
    assert_eq!(b.best_bid(), Some(11));
    assert_eq!(mid_between(Some(5), Some(4)), None);
    assert_eq!(mid_between(Some(4), None), None);
}

#[test]
fn moves_are_told_in_basis_points() {
    assert_eq!(bps_move(10_000, 10_005), 5);
    assert_eq!(bps_move(10_000, 9_000), 1_000);
    assert_eq!(bps_move(0, 5), 0);
    assert_eq!(bps_move(1, u64::MAX), u32::MAX);
}

#[test]
fn spoofs_name_their_order() {
    let mut d = SpoofDetector::new(1_000, 10);
    assert!(d.process(&ev(1, EventType::OrderAdd, Side::Bid, 10, 999, 1)).is_none());
    assert!(d.process(&ev(2, EventType::OrderAdd, Side::Bid, 10, 1_000, 2)).is_none());
    assert!(d.process(&ev(3, EventType::OrderCancel, Side::Bid, 10, 999, 1)).is_none());
    let f = d.process(&ev(4, EventType::OrderCancel, Side::Bid, 10, 1_000, 2)).unwrap();
    assert_eq!((f.kind, f.start_seq, f.end_seq), (ChaosKind::Spoof, 2, 4));
    assert_eq!(f.initiator, Some(2));
    assert!(d.process(&ev(5, EventType::OrderAdd, Side::Bid, 10, 5_000, 3)).is_none());
    assert!(d.process(&ev(16, EventType::OrderCancel, Side::Bid, 10, 5_000, 3)).is_none());
}

#[test]
fn stuffing_needs_half_a_window() {
    let mut d = QuoteStuffDetector::new(8, Ratio::new(3, 1));
    for i in 1..=3u64 {
        assert!(d.process(&ev(i, EventType::OrderCancel, Side::Bid, 1, 1, i)).is_none());
    }
    let f = d.process(&ev(4, EventType::OrderCancel, Side::Bid, 1, 1, 4)).unwrap();
    assert_eq!((f.start_seq, f.end_seq), (1, 4));
    assert_eq!(f.features.cancel_trade_ratio, Fraction { num: 4, den: 1 });
}

#[test]
fn storms_need_persistence_and_teach_nothing() {
    let mut d = CancellationStormDetector::new(100, 0, 2, 2, 2, 50);
    let cancel = |i: u64| ev(i, EventType::OrderCancel, Side::Bid, 1, 1, i);
    assert_eq!(d.process(&cancel(1), QUIET).learn, None);
    assert_eq!(d.preview(&cancel(2)), Some(RateSample { cancels: 2, total: 2 }));
    assert_eq!(d.process(&cancel(2), LOUD).learn, Some(RateSample { cancels: 2, total: 2 }));
    assert!(d.process(&cancel(3), LOUD).flag.is_none());
    assert_eq!(d.welford_samples(), 2);
    let one = d.process(&cancel(4), LOUD);
    assert!(one.flag.is_none() && one.learn.is_none());
    let f = d.process(&cancel(5), LOUD).flag.unwrap();
    assert_eq!((f.kind, f.start_seq, f.end_seq), (ChaosKind::CancellationStorm, 4, 5));
    assert_eq!(f.severity, Severity::single(3, 4));
    for i in 6..40 {
        assert!(d.process(&cancel(i), LOUD).flag.is_none());
    }
    assert_eq!(d.window_len(), 39);
}

#[test]
fn counts_tell_the_flags() {
    let mut c = ChaosChain::default_itch();
    let mut seen = Vec::new();
    for i in 0..6u64 {
        for e in [
            ev(2 * i + 1, EventType::OrderAdd, Side::Bid, 100 + i, 2_000, i + 1),
            ev(2 * i + 2, EventType::OrderCancel, Side::Bid, 100 + i, 2_000, i + 1),
        ] {
            assert!(c.is_ready(&e));
            seen.extend(c.process(&e, QUIET).0);
        }
    }
    for k in [ChaosKind::Spoof, ChaosKind::PhantomLiquidity, ChaosKind::QuoteStuff] {
        assert_eq!(c.count(k), seen.iter().filter(|f| f.kind == k).count() as u64);
    }
    assert_eq!(c.total_flags(), seen.len() as u64);
    assert_eq!(c.count(ChaosKind::Spoof), 6);
    assert_eq!(c.count(ChaosKind::PhantomLiquidity), 6);
}

// ─── Groups ─────────────────────────────────────────────────────────

#[test]
fn clusters_hold_every_flag_once() {
    let flags = vec![
        flag(ChaosKind::Spoof, 500, 510, Some(2)),
        flag(ChaosKind::FlashCrash, 90, 95, None),
        flag(ChaosKind::Spoof, 10, 20, Some(1)),
        flag(ChaosKind::MomentumIgnition, 60, 80, None),
        flag(ChaosKind::Spoof, 15, 30, Some(1)),
    ];
    let out = ChaosClusterer::new(50).cluster(&flags);
    assert_eq!(out.iter().map(|c| c.count).sum::<usize>(), 5);
    assert_eq!(out.len(), 3);
    assert_eq!((out[0].start_seq, out[0].end_seq, out[0].initiator), (10, 30, Some(1)));
    assert_eq!((out[1].start_seq, out[1].end_seq), (60, 95));
    assert_eq!(out[1].dominant_kind, ChaosKind::MomentumIgnition);
    assert_eq!(out[2].events.len(), 1);
}

#[test]
fn windows_merge_close_stress() {
    let x = WindowExtractor::new(Regime::Aggressive, 5);
    let tagged = vec![
        (1, Regime::Calm, vec![]),
        (2, Regime::Aggressive, vec![flag(ChaosKind::Spoof, 1, 2, None)]),
        (6, Regime::Crisis, vec![]),
        (7, Regime::Volatile, vec![]),
        (8, Regime::Aggressive, vec![]),
        (20, Regime::Aggressive, vec![flag(ChaosKind::Spoof, 9, 20, None)]),
    ];
    let out = x.extract(&tagged);
    let spans: Vec<(u64, u64, Regime, usize)> =
        out.iter().map(|w| (w.start_seq, w.end_seq, w.regime, w.chaos_events.len())).collect();
    assert_eq!(
        spans,
        vec![
            (2, 6, Regime::Crisis, 1),
            (8, 8, Regime::Aggressive, 0),
            (20, 20, Regime::Aggressive, 1),
        ]
    );
    assert!(x.extract(&[]).is_empty());
}

// ─── Generators ─────────────────────────────────────────────────────

#[test]
fn random_numbers_follow_from_the_seed() {
    let mut a = DetRng::new(42);
    let mut b = DetRng::new(42);
    let first = a.next_u64();
    assert_eq!(first, b.next_u64());
    let mut x = 42u64;
    x ^= x >> 12;
    x ^= x << 25;
    x ^= x >> 27;
    assert_eq!(first, x.wrapping_mul(0x2545_F491_4F6C_DD1D));
    assert_eq!(DetRng::new(0).next_u64(), DetRng::new(0x9E37_79B9_7F4A_7C15).next_u64());
    for _ in 0..100 {
        assert!(a.next_below(7) < 7);
    }
    assert_eq!(a.next_below(0), 0);
    assert!(!a.bool_p(Ratio::new(0, 1)));
}

#[test]
fn dials_go_from_end_to_end() {
    let s = |num: u32| Ratio::new(num, 10);
    assert_eq!((lerp(s(0), 10, 20), lerp(s(10), 10, 20), lerp(s(25), 10, 20)), (10, 20, 20));
    assert_eq!(lerp(s(3), 100, 0), 70);
    assert_eq!(lerp_round(s(9), 8, 16), 15);
    assert_eq!(clamp_severity(Ratio::new(7, 3)), Ratio::new(1, 1));
    let mut last = 0;
    for k in 0..=10 {
        let v = lerp(s(k), 5, 500);
        assert!(v >= last);
        last = v;
    }
}

fn first_step<G: StormGenerator>(mut g: G) -> Vec<SequencedEvent> {
    g.step(1_000_000, 50)
}

#[test]
fn first_steps_are_flagged_whatever_the_severity() {
    for k in 0..=10u32 {
        let sev = Ratio::new(k, 10);
        let seed = 0xABC0 + k as u64;
        let mut phantom = PhantomLiquidityDetector::new(256, 5_000_000, 4_096, 100);
        let s = first_step(PhantomLiquidityGenerator::new(seed, sev, 100_000, 8));
        assert_eq!(2 * s.iter().filter_map(|e| phantom.process(e)).count(), s.len());
        let mut spoof = SpoofDetector::new(1_000, 64);
        let s = first_step(SpoofGenerator::new(seed, sev, 100_000, 8));
        assert_eq!(2 * s.iter().filter_map(|e| spoof.process(e)).count(), s.len());
        let mut stuff = QuoteStuffDetector::new(48, Ratio::new(8, 1));
        let s = first_step(QuoteStuffGenerator::new(seed, sev, 100_000, 2));
        assert!(s.iter().any(|e| stuff.process(e).is_some()));
        let mut proxy = LatencyArbProxyDetector::new(64, 0, 64, 4, 200, 4, false, 0, 1_024);
        let s = first_step(LatencyArbProxyGenerator::new(seed, sev, 100_000, 2));
        assert!(s.iter().any(|e| proxy.process(e).is_some()));
        let mut crash = FlashCrashDetector::new(10, 8, 64, 5, Ratio::new(6, 10), 3, 2_048);
        let s = first_step(FlashCrashGenerator::new(seed, sev, 100_000, true, 2));
        assert!(s.iter().any(|e| crash.process(e).is_some()));
    }
}

#[test]
fn stairs_are_flagged_up_and_down() {
    for up in [true, false] {
        let mut g = MomentumIgnitionGenerator::new(9, Ratio::new(1, 10), 19_999, up);
        let mut d = MomentumIgnitionDetector::new(1_024, 0, 64, 5, 8, 4, 2_048);
        let (mut seq, mut now, mut hits) = (1u64, 0u64, 0);
        while !g.finished() {
            for e in g.step(now, seq) {
                seq = e.seq + 1;
                hits += d.process(&e).is_some() as u32;
            }
            now += 5_000_000;
        }
        assert!(hits >= 1);
    }
}

#[test]
fn numbers_rise_from_where_they_begin() {
    let s = first_step(QuoteStuffGenerator::new(3, Ratio::new(1, 1), 100_000, 2));
    assert_eq!(s[0].seq, 50);
    for pair in s.windows(2) {
        assert!(pair[0].seq < pair[1].seq);
        assert!(pair[0].event.ts <= pair[1].event.ts);
    }
    let g = QuoteStuffGenerator::new(3, Ratio::new(1, 1), 100_000, 0);
    assert!(g.finished());
    assert_eq!(g.kind_label(), "quote_stuff");
    assert_eq!(g.next_due_ns(), 0);
}

fn told(s: &[SequencedEvent]) -> Vec<(u64, Event)> {
    s.iter().map(|e| (e.seq, e.event)).collect()
}

// ─── Storms ─────────────────────────────────────────────────────────

#[test]
fn storms_are_reproducible_and_can_be_stopped() {
    let spec = StormSpec {
        kind: ChaosKind::LatencyArbitrage,
        severity: Ratio::new(1, 2),
        duration_ns: 100_000_000,
        seed: 5,
    };
    let mut a = StormOrchestrator::new(100_000);
    let mut b = StormOrchestrator::new(100_000);
    let started = a.start(spec, 1_000);
    b.start(spec, 1_000);
    assert_eq!(started.mode, StormMode::Active);
    assert_eq!((started.started_at_ns, started.expires_at_ns), (1_000, 100_001_000));
    for now in [1_000, 60_000_000, 90_000_000] {
        assert_eq!(told(&a.poll(now, 1)), told(&b.poll(now, 1)));
    }
    assert!(a.next_due_ns().is_some());
    a.stop();
    assert_eq!(a.snapshot(), StormSnapshot::idle());
    assert_eq!(a.next_due_ns(), None);
    assert!(a.poll(95_000_000, 1).is_empty());
}
