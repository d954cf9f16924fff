use flowlab::book::event::{Event, EventType, SequencedEvent, Side};
use flowlab::chaos::flash_crash::FlashCrashDetector;
use flowlab::ratio::Ratio;

fn ev(seq: u64, ts: u64, etype: EventType, side: Side, price: u64, qty: u64) -> SequencedEvent {
    ev_oid(seq, ts, etype, side, price, qty, seq)
}

fn ev_oid(
    seq: u64,
    ts: u64,
    etype: EventType,
    side: Side,
    price: u64,
    qty: u64,
    order_id: u64,
) -> SequencedEvent {
    SequencedEvent {
        seq,
        channel_id: 0,
        event: Event {
            ts,
            price,
            qty,
            order_id,
            instrument_id: 1,
            event_type: etype.code(),
            side: side.code(),
            _pad: [0; 2],
        },
    }
}

fn seed_book(
    det: &mut FlashCrashDetector,
    mid: u64,
    levels: u64,
    qty_per: u64,
) -> u64 {
    let mut seq = 1u64;
    for i in 1..=levels {
        det.process(&ev(seq, seq * 1_000, EventType::OrderAdd, Side::Bid, mid - i, qty_per));
        seq += 1;
        det.process(&ev(seq, seq * 1_000, EventType::OrderAdd, Side::Ask, mid + i, qty_per));
        seq += 1;
    }
    seq
}

/// A single big trade that sweeps multiple bid levels (mid jumps
/// down sharply) + depth collapses near top + sell aggression
/// present -> FlashCrash flag.
#[test]
fn flags_downward_flash_crash() {
    // Realistic ITCH calibration: a sweep prints one trade message
    // per consumed level, so the gap is measured across ~5-8 raw
    // events. The semantic "1-2 events" applies to mid-moving
    // events; on a deep book those map to a tight raw-event burst.
    let mut det = FlashCrashDetector::new(
        /* min_gap_bps */ 2,
        /* gap_window_events */ 8,
        /* max_book_levels */ 32,
        /* depth_band_ticks */ 5,
        /* depth_drop_pct */ Ratio::new(5, 10),
        /* min_aggr_trades */ 1,
        /* cooldown_seq */ 200,
    );

    let mut seq = seed_book(&mut det, 10_000, 10, 100);
    // Wipe out the top 6 bid levels in 6 cancels (large depth
    // collapse near top), then a sell-aggressive trade prints at
    // the new lower mid.
    for px in (9_995u64..=9_999).rev() {
        let s = seq;
        det.process(&ev(s, s * 1_000, EventType::OrderCancel, Side::Bid, px, 100));
        seq += 1;
    }
    // One synthetic aggressive sell trade at the new low to confirm
    // direction. Use the (now) best bid.
    let s = seq;
    let flag = det.process(&ev(s, s * 1_000, EventType::Trade, Side::Bid, 9_994, 100));
    // The flag may have already fired on one of the cancels (depth
    // collapse + gap, but no aggression yet); we must see at least
    // one flag by the time the trade lands.
    let triggered = flag.is_some();
    let mut total = if triggered { 1 } else { 0 };
    // Continue a few more events to give the detector a chance.
    seq += 1;
    for _ in 0..3 {
        let s = seq;
        if det.process(&ev(s, s * 1_000, EventType::Trade, Side::Bid, 9_994, 50)).is_some() {
            total += 1;
        }
        seq += 1;
    }
    assert!(total >= 1, "downward flash crash must flag");
}

/// A slow monotone drift over 8 events does NOT satisfy the
/// gap-window-events=2 filter. FlashCrash must NOT flag (this is
/// the territory of MomentumIgnition).
#[test]
fn no_flag_on_slow_drift() {
    let mut det = FlashCrashDetector::new(5, 2, 32, 5, Ratio::new(3, 10), 1, 200);
    let mut seq = seed_book(&mut det, 10_000, 16, 100);
    for k in 0..8u64 {
        // One small cancel per event chips away at the top bid;
        // mid drifts by 1 tick at a time over many events.
        let px = 9_999 - k;
        let s = seq;
        let flag = det.process(&ev(s, s * 1_000, EventType::OrderCancel, Side::Bid, px, 100));
        assert!(flag.is_none(), "slow drift flagged at k={k}");
        seq += 1;
    }
}

/// A sharp gap with no depth collapse (because we widened the
/// `depth_band_ticks` so far that the new mid still has plenty of
/// depth nearby) must NOT flag.
#[test]
fn no_flag_when_depth_does_not_collapse() {
    let mut det = FlashCrashDetector::new(
        5, 2, 64,
        /* depth_band_ticks */ 200, // huge band -> always full
        Ratio::new(9, 10), // demand 90% drop, impossible
        1, 200,
    );
    let mut seq = seed_book(&mut det, 10_000, 32, 100);
    for px in (9_995u64..=9_999).rev() {
        let s = seq;
        det.process(&ev(s, s * 1_000, EventType::OrderCancel, Side::Bid, px, 100));
        seq += 1;
    }
    let s = seq;
    let flag = det.process(&ev(s, s * 1_000, EventType::Trade, Side::Bid, 9_994, 100));
    assert!(flag.is_none(), "huge band must defeat depth check");
}

/// Sharp gap + depth collapse but **no aggressive trades** -> no
/// flag (aggression is required).
#[test]
fn no_flag_without_aggression() {
    let mut det = FlashCrashDetector::new(
        5, 2, 32, 5, Ratio::new(3, 10),
        /* min_aggr_trades */ 2, 200,
    );
    let mut seq = seed_book(&mut det, 10_000, 16, 100);
    for px in (9_995u64..=9_999).rev() {
        let s = seq;
        let flag = det.process(&ev(s, s * 1_000, EventType::OrderCancel, Side::Bid, px, 100));
        assert!(flag.is_none(), "no-aggression cancel flagged at {px}");
        seq += 1;
    }
}

/// Two crashes back-to-back inside cooldown -> only the first
/// flags.
#[test]
fn cooldown_suppresses_second_crash() {
    let mut det = FlashCrashDetector::new(2, 8, 64, 5, Ratio::new(3, 10), 1, 1_000);
    let mut seq = seed_book(&mut det, 10_000, 32, 100);
    let mut hits = 0;

    // Crash #1
    for px in (9_995u64..=9_999).rev() {
        let s = seq;
        det.process(&ev(s, s * 1_000, EventType::OrderCancel, Side::Bid, px, 100));
        seq += 1;
    }
    let s = seq;
    if det.process(&ev(s, s * 1_000, EventType::Trade, Side::Bid, 9_994, 100)).is_some() {
        hits += 1;
    }
    seq += 1;

    // Crash #2 immediately
    for px in (9_990u64..=9_993).rev() {
        let s = seq;
        det.process(&ev(s, s * 1_000, EventType::OrderCancel, Side::Bid, px, 100));
        seq += 1;
    }
    let s = seq;
    if det.process(&ev(s, s * 1_000, EventType::Trade, Side::Bid, 9_989, 100)).is_some() {
        hits += 1;
    }
    assert_eq!(hits, 1, "cooldown must suppress second crash (got {hits})");
}

#[test]
fn raw_delete_resolves_order_id_and_qty_zero() {
    let mut det = FlashCrashDetector::new(5, 2, 16, 5, Ratio::new(3, 10), 1, 200);
    det.process(&ev_oid(1, 1_000, EventType::OrderAdd, Side::Bid, 9_999, 100, 11));
    det.process(&ev_oid(2, 2_000, EventType::OrderAdd, Side::Ask, 10_001, 100, 22));

    assert_eq!(det.best_bid(), Some(9_999));

    det.process(&ev_oid(3, 3_000, EventType::OrderCancel, Side::Ask, 0, 0, 11));

    assert_eq!(det.best_bid(), None);
}

/// A trade further back than the gap window confirms nothing; the same trade just
/// before the gap does.
#[test]
fn only_trades_in_the_window_confirm() {
    let told = |trade_at: u64| {
        let mut det = FlashCrashDetector::new(1, 2, 8, 5, Ratio::new(5, 10), 1, 10);
        det.process(&ev_oid(1, 1, EventType::OrderAdd, Side::Bid, 10_000, 100, 1));
        det.process(&ev_oid(2, 2, EventType::OrderAdd, Side::Bid, 9_000, 100, 2));
        det.process(&ev_oid(3, 3, EventType::OrderAdd, Side::Ask, 10_002, 10, 3));
        for seq in 4..=14u64 {
            if seq == trade_at {
                det.process(&ev_oid(seq, seq, EventType::Trade, Side::Bid, 10_000, 1, 1));
            } else {
                det.process(&ev_oid(seq, seq, EventType::OrderAdd, Side::Ask, 20_000, 1, seq));
            }
        }
        det.process(&ev_oid(15, 15, EventType::OrderCancel, Side::Bid, 10_000, 0, 1)).is_some()
    };
    assert!(!told(4));
    assert!(!told(12));
    assert!(told(14));
}

/// The displacement of a flag is the move of the midprice since its start.
#[test]
fn flags_measure_the_gap() {
    let mut det = FlashCrashDetector::new(2, 8, 32, 5, Ratio::new(0, 1), 1, 200);
    let mut seq = seed_book(&mut det, 10_000, 10, 100);
    let mut mids: std::collections::HashMap<u64, u64> = (1..seq).map(|i| (i, 10_000)).collect();
    let mut flags = Vec::new();
    for px in (9_991u64..=9_999).rev() {
        mids.insert(seq, det.midprice().unwrap());
        if let Some(f) = det.process(&ev(seq, seq * 1_000, EventType::Trade, Side::Bid, px, 100)) {
            flags.push((f, det.midprice().unwrap()));
        }
        seq += 1;
    }
    assert_eq!(flags.len(), 1);
    let (f, now) = flags[0];
    let then = mids[&f.start_seq];
    assert_eq!(f.features.price_displacement, now as i64 - then as i64);
    assert!((then - now) * 10_000 >= 2 * then);
    assert!((1..=8).contains(&(f.end_seq - f.start_seq)));
    assert_eq!(f.features.event_count, f.end_seq - f.start_seq);
    assert_eq!(f.features.duration_ns, 1_000 * (f.end_seq - f.start_seq));
    assert_eq!(f.initiator, None);
}
