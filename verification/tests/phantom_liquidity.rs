use flowlab::book::event::{Event, EventType, SequencedEvent, Side};
use flowlab::chaos::flag::{ChaosKind, Severity, Term};
use flowlab::chaos::phantom_liquidity::PhantomLiquidityDetector;

fn ev(
    seq: u64,
    ts: u64,
    etype: EventType,
    side: Side,
    price: u64,
    qty: u64,
    order_id: u64,
) -> SequencedEvent {
    SequencedEvent {
        seq,
        channel_id: 0,
        event: Event {
            ts,
            price,
            qty,
            order_id,
            instrument_id: 1,
            event_type: etype.code(),
            side: side.code(),
            _pad: [0; 2],
        },
    }
}

fn part(t: Term) -> f64 {
    t.tenths as f64 / 10.0 * (t.num as f64 / t.den as f64)
}

fn severity(s: Severity) -> f64 {
    part(s.first) + part(s.second) + part(s.third)
}

/// Happy path: add a level, cancel it within the seq window, no
/// trades touched it -> flagged as PhantomLiquidity.
#[test]
fn flags_quick_add_cancel_with_no_trade() {
    let mut det = PhantomLiquidityDetector::new(
        /* seq_gap */ 100, /* time_gap_ns */ 1_000_000, /* max_tracked */ 64,
        /* min_qty */ 100,
    );

    let add = det.process(&ev(1, 1_000, EventType::OrderAdd, Side::Bid, 10_000, 500, 42));
    assert!(add.is_none(), "ADD must not flag by itself");
    assert_eq!(det.tracked_levels(), 1);

    let flag =
        det.process(&ev(5, 5_000, EventType::OrderCancel, Side::Bid, 10_000, 500, 42));
    let chaos = flag.expect("full cancel within window must flag");

    assert_eq!(chaos.kind, ChaosKind::PhantomLiquidity);
    assert_eq!(chaos.start_seq, 1);
    assert_eq!(chaos.end_seq, 5);
    assert_eq!(chaos.features.depth_removed, 500);
    assert_eq!(chaos.features.duration_ns, 4_000);
    assert!(severity(chaos.severity) > 0.9, "tight cycle should score near 1.0");
    assert_eq!(det.tracked_levels(), 0, "tracker must release the slot");
}

/// Negative: a trade at the level proves real liquidity. Even a
/// subsequent full cancel must NOT flag.
#[test]
fn no_flag_when_level_trades() {
    let mut det = PhantomLiquidityDetector::new(100, 1_000_000, 64, 100);

    det.process(&ev(1, 1_000, EventType::OrderAdd, Side::Ask, 10_500, 500, 7));
    // A trade at the same (side, price) wipes the candidate.
    let trade =
        det.process(&ev(2, 1_500, EventType::Trade, Side::Ask, 10_500, 100, 7));
    assert!(trade.is_none());
    assert_eq!(det.tracked_levels(), 0, "trade must drop the candidate");

    // The trailing cancel finds nothing to flag.
    let cancel =
        det.process(&ev(3, 2_000, EventType::OrderCancel, Side::Ask, 10_500, 400, 7));
    assert!(cancel.is_none(), "post-trade cancel must not flag");
}

/// Negative: cancel arrives outside both windows -> no flag.
#[test]
fn no_flag_when_outside_both_windows() {
    let mut det = PhantomLiquidityDetector::new(
        /* seq_gap */ 10, /* time_gap_ns */ 1_000, /* max_tracked */ 64,
        /* min_qty */ 100,
    );
    det.process(&ev(1, 1_000, EventType::OrderAdd, Side::Bid, 10_000, 500, 1));
    let flag = det.process(&ev(
        100, 50_000,
        EventType::OrderCancel,
        Side::Bid,
        10_000,
        500,
        1,
    ));
    assert!(flag.is_none(), "outside both windows must not flag");
}

/// Negative: total added qty below `min_qty` -> no flag, even with
/// a textbook quick-cancel cycle.
#[test]
fn no_flag_below_min_qty() {
    let mut det = PhantomLiquidityDetector::new(100, 1_000_000, 64, /* min_qty */ 1_000);
    det.process(&ev(1, 1_000, EventType::OrderAdd, Side::Bid, 10_000, 50, 1));
    let flag =
        det.process(&ev(2, 1_500, EventType::OrderCancel, Side::Bid, 10_000, 50, 1));
    assert!(flag.is_none(), "qty under floor must not flag");
}

/// Time window only: sequence gap large, but time gap inside cap.
/// Pattern still qualifies (dual window OR semantics).
#[test]
fn time_window_alone_can_qualify() {
    let mut det = PhantomLiquidityDetector::new(
        /* seq_gap */ 5, /* time_gap_ns */ 10_000_000, 64, 100,
    );
    det.process(&ev(1, 1_000, EventType::OrderAdd, Side::Bid, 10_000, 500, 1));
    let flag = det.process(&ev(
        500, 1_000_000,
        EventType::OrderCancel,
        Side::Bid,
        10_000,
        500,
        1,
    ));
    assert!(
        flag.is_some(),
        "time-window-only fit must flag thanks to dual OR"
    );
}

/// Eviction: tracker never grows past `max_tracked`.
#[test]
fn tracker_size_bounded() {
    let cap = 8;
    let mut det = PhantomLiquidityDetector::new(1_000_000, 0, cap, 1);

    for i in 0..(cap as u64 * 4) {
        det.process(&ev(
            i + 1, i + 1,
            EventType::OrderAdd,
            Side::Bid,
            10_000 + i,
            100,
            i + 1,
        ));
    }
    assert!(
        det.tracked_levels() <= cap,
        "tracker must stay within max_tracked, got {}",
        det.tracked_levels()
    );
}

/// One order that is cancelled in parts takes its level with it.
#[test]
fn flags_a_level_cancelled_in_parts() {
    let mut det = PhantomLiquidityDetector::new(100, 1_000_000, 64, 100);
    det.process(&ev(1, 1_000, EventType::OrderAdd, Side::Bid, 10_000, 500, 42));
    assert!(det.process(&ev(2, 2_000, EventType::OrderCancel, Side::Bid, 10_000, 200, 42)).is_none());
    let flag = det.process(&ev(3, 3_000, EventType::OrderCancel, Side::Bid, 10_000, 300, 42)).unwrap();
    assert_eq!(flag.kind, ChaosKind::PhantomLiquidity);
    assert_eq!((flag.start_seq, flag.end_seq), (1, 3));
    assert_eq!(flag.features.event_count, 2);
    assert_eq!(flag.features.depth_removed, 500);
}

/// Parts of one order do not stand for another that still rests.
#[test]
fn parts_of_one_order_leave_the_other() {
    let mut det = PhantomLiquidityDetector::new(100, 1_000_000, 64, 100);
    det.process(&ev(1, 1_000, EventType::OrderAdd, Side::Bid, 10_000, 400, 1));
    det.process(&ev(2, 2_000, EventType::OrderAdd, Side::Bid, 10_000, 200, 2));
    for (seq, qty) in [(3, 100), (4, 100), (5, 900)] {
        assert!(det.process(&ev(seq, 3_000, EventType::OrderCancel, Side::Bid, 0, qty, 1)).is_none());
    }
    assert_eq!(det.tracked_levels(), 1);
    let flag = det.process(&ev(6, 6_000, EventType::OrderCancel, Side::Bid, 0, 0, 2)).unwrap();
    assert_eq!(flag.features.depth_removed, 600);
    assert_eq!(flag.features.event_count, 4);
}

/// A cancel of an unknown order is for the level that it names; a modify names the
/// new one, and cancels nothing.
#[test]
fn unknown_orders_are_told_by_their_level() {
    let mut det = PhantomLiquidityDetector::new(100, 1_000_000, 64, 100);
    det.process(&ev(1, 1_000, EventType::OrderAdd, Side::Bid, 10_000, 500, 42));
    assert!(det.process(&ev(2, 2_000, EventType::OrderCancel, Side::Bid, 0, 500, 99)).is_none());
    assert!(det.process(&ev(3, 3_000, EventType::OrderCancel, Side::Bid, 10_000, 500, 99)).is_some());
    det.process(&ev(4, 4_000, EventType::OrderAdd, Side::Bid, 10_000, 500, 43));
    assert!(det.process(&ev(5, 5_000, EventType::OrderModify, Side::Bid, 10_000, 500, 99)).is_none());
    assert_eq!(det.tracked_levels(), 1);
}

/// After a trade at a level no cancel there flags, whichever way it names the level,
/// until something is added there again.
#[test]
fn traded_levels_are_not_flagged() {
    for id in [0u64, 42, 43] {
        let mut det = PhantomLiquidityDetector::new(100, 1_000_000, 64, 100);
        det.process(&ev(1, 1_000, EventType::OrderAdd, Side::Bid, 10_000, 500, 42));
        assert!(det.process(&ev(2, 2_000, EventType::Trade, Side::Bid, 10_000, 1, 42)).is_none());
        assert!(det.process(&ev(3, 3_000, EventType::OrderCancel, Side::Bid, 10_000, 500, id)).is_none());
        assert!(det.process(&ev(4, 4_000, EventType::OrderCancel, Side::Bid, 10_000, 500, 0)).is_none());
        det.process(&ev(5, 5_000, EventType::OrderAdd, Side::Bid, 10_000, 500, 50));
        assert!(det.process(&ev(6, 6_000, EventType::OrderCancel, Side::Bid, 10_000, 500, 50)).is_some());
    }
}
