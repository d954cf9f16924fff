use flowlab::book::event::{Event, EventType, SequencedEvent, Side};
use flowlab::chaos::momentum_ignition::MomentumIgnitionDetector;

fn ev(seq: u64, ts: u64, etype: EventType, side: Side, price: u64, qty: u64) -> SequencedEvent {
    ev_oid(seq, ts, etype, side, price, qty, seq)
}

fn ev_oid(
    seq: u64,
    ts: u64,
    etype: EventType,
    side: Side,
    price: u64,
    qty: u64,
    order_id: u64,
) -> SequencedEvent {
    SequencedEvent {
        seq,
        channel_id: 0,
        event: Event {
            ts,
            price,
            qty,
            order_id,
            instrument_id: 1,
            event_type: etype.code(),
            side: side.code(),
            _pad: [0; 2],
        },
    }
}

fn seed_book(det: &mut MomentumIgnitionDetector, mid: u64, levels: u64) -> u64 {
    let mut seq = 1u64;
    for i in 1..=levels {
        det.process(&ev(seq, seq * 1_000, EventType::OrderAdd, Side::Bid, mid - i, 100));
        seq += 1;
        det.process(&ev(seq, seq * 1_000, EventType::OrderAdd, Side::Ask, mid + i, 100));
        seq += 1;
    }
    seq
}

/// A monotone upward sweep through several ask levels with strong
/// buy-aggressor imbalance must flag MomentumIgnition.
#[test]
fn flags_upward_ignition() {
    let mut det = MomentumIgnitionDetector::new(
        /* seq_window */ 500,
        /* time_window_ns */ 0,
        /* max_book_levels */ 16,
        /* min_move_bps */ 1,
        /* min_trades */ 3,
        /* min_consecutive */ 3,
        /* cooldown_seq */ 200,
    );

    let mut seq = seed_book(&mut det, 10_000, 8);
    // Sweep asks 10_001..=10_006: each trade at ask removes that
    // level, mid drifts up.
    let mut flagged = 0;
    for px in 10_001u64..=10_006 {
        let s = seq;
        let flag = det.process(&ev(
            s, s * 1_000, EventType::Trade, Side::Ask, px, 100,
        ));
        if flag.is_some() {
            flagged += 1;
        }
        seq += 1;
    }
    assert!(
        flagged >= 1,
        "upward sweep with imbalance must flag (got {flagged})"
    );
}

/// A balanced two-way tape with frequent direction reversals must
/// NOT flag.
#[test]
fn no_flag_on_balanced_chop() {
    let mut det = MomentumIgnitionDetector::new(
        500, 0, 32, 5, 3, 3, 200,
    );
    let mut seq = seed_book(&mut det, 10_000, 16);
    // Alternate: hit ask, hit bid, hit ask, hit bid... mid oscillates.
    for k in 0..40u64 {
        let (side, price) = if k % 2 == 0 {
            (Side::Ask, 10_000 + 1 + (k % 3))
        } else {
            (Side::Bid, 10_000 - 1 - (k % 3))
        };
        let s = seq;
        let flag = det.process(&ev(s, s * 1_000, EventType::Trade, side, price, 100));
        assert!(flag.is_none(), "balanced chop flagged at k={k}");
        seq += 1;
    }
}

/// A move that satisfies persistence but is below `min_move_bps`
/// must NOT flag.
#[test]
fn no_flag_below_min_move_bps() {
    let mut det = MomentumIgnitionDetector::new(
        500, 0, 16,
        /* min_move_bps */ 1_000, // huge
        3, 3, 200,
    );
    let mut seq = seed_book(&mut det, 10_000, 8);
    for px in 10_001u64..=10_005 {
        let s = seq;
        let flag = det.process(&ev(s, s * 1_000, EventType::Trade, Side::Ask, px, 100));
        assert!(flag.is_none(), "below-bps move flagged at px={px}");
        seq += 1;
    }
}

/// A sweep with too few trades (2 < min_trades=4) must NOT flag.
#[test]
fn no_flag_below_min_trades() {
    let mut det = MomentumIgnitionDetector::new(
        500, 0, 16, 1,
        /* min_trades */ 4,
        2, 200,
    );
    let mut seq = seed_book(&mut det, 10_000, 8);
    for px in 10_001u64..=10_002 {
        let s = seq;
        let flag = det.process(&ev(s, s * 1_000, EventType::Trade, Side::Ask, px, 100));
        assert!(flag.is_none(), "too few trades flagged at px={px}");
        seq += 1;
    }
}

/// Two ignitions back-to-back inside the cooldown -> only the
/// first flags.
#[test]
fn cooldown_suppresses_second_ignition() {
    let mut det = MomentumIgnitionDetector::new(
        500, 0, 64, 5, 3, 3,
        /* cooldown_seq */ 1_000,
    );
    let mut seq = seed_book(&mut det, 10_000, 32);

    let mut hits = 0;
    for px in 10_001u64..=10_006 {
        let s = seq;
        if det.process(&ev(s, s * 1_000, EventType::Trade, Side::Ask, px, 100)).is_some() {
            hits += 1;
        }
        seq += 1;
    }
    // Second sweep immediately after — still in cooldown.
    for px in 10_007u64..=10_012 {
        let s = seq;
        if det.process(&ev(s, s * 1_000, EventType::Trade, Side::Ask, px, 100)).is_some() {
            hits += 1;
        }
        seq += 1;
    }
    assert_eq!(hits, 1, "cooldown must prevent second flag (got {hits})");
}

/// Mini-book pruning keeps total levels per side bounded.
#[test]
fn book_levels_bounded() {
    let cap = 4;
    let mut det = MomentumIgnitionDetector::new(500, 0, cap, 5, 3, 3, 200);
    for i in 1..=20u64 {
        det.process(&ev(i, i * 1_000, EventType::OrderAdd, Side::Bid, 10_000 - i, 100));
        det.process(&ev(
            100 + i,
            (100 + i) * 1_000,
            EventType::OrderAdd,
            Side::Ask,
            10_000 + i,
            100,
        ));
    }
    assert!(det.bid_levels() <= cap, "bids over cap: {}", det.bid_levels());
    assert!(det.ask_levels() <= cap, "asks over cap: {}", det.ask_levels());
    // The retained levels should be the ones nearest the best
    // (best_bid is largest tracked, best_ask is smallest tracked).
    assert_eq!(det.best_bid(), Some(9_999));
    assert_eq!(det.best_ask(), Some(10_001));
}

#[test]
fn raw_trade_resolves_order_id_and_price() {
    let mut det = MomentumIgnitionDetector::new(500, 0, 16, 1, 1, 1, 200);
    det.process(&ev_oid(1, 1_000, EventType::OrderAdd, Side::Bid, 9_999, 100, 11));
    det.process(&ev_oid(2, 2_000, EventType::OrderAdd, Side::Ask, 10_001, 100, 22));

    assert_eq!(det.best_ask(), Some(10_001));

    det.process(&ev_oid(3, 3_000, EventType::Trade, Side::Bid, 0, 100, 22));

    assert_eq!(det.best_ask(), None);
}

#[test]
fn a_level_without_quantity_is_no_best_price() {
    let mut det = MomentumIgnitionDetector::new(500, 0, 16, 1, 1, 1, 200);
    det.process(&ev(1, 1_000, EventType::OrderAdd, Side::Bid, 10_000, 0));
    det.process(&ev(2, 2_000, EventType::OrderAdd, Side::Ask, 10_002, 0));
    assert_eq!((det.best_bid(), det.best_ask()), (None, None));
    det.process(&ev(3, 3_000, EventType::OrderAdd, Side::Bid, 9_990, 5));
    assert_eq!(det.best_bid(), Some(9_990));
}

/// A rise of the mid behind one print, which lies at `price` and names `side`.
fn rise_behind(side: Side, price: u64) -> bool {
    let mut det = MomentumIgnitionDetector::new(500, 0, 16, 1, 1, 2, 200);
    det.process(&ev(1, 1_000, EventType::OrderAdd, Side::Bid, 9_999, 100));
    det.process(&ev(2, 2_000, EventType::OrderAdd, Side::Ask, 10_001, 10));
    det.process(&ev(3, 3_000, EventType::OrderAdd, Side::Ask, 10_003, 10));
    assert!(det.process(&ev_oid(4, 4_000, EventType::Trade, side, price, 1, 0)).is_none());
    det.process(&ev_oid(5, 5_000, EventType::OrderCancel, Side::Ask, 10_001, 0, 2)).is_some()
}

/// Prints at the mid or above it press upwards, prints below it do not.
#[test]
fn the_mid_tells_who_pressed() {
    assert!(rise_behind(Side::Bid, 10_000));
    assert!(rise_behind(Side::Bid, 10_002));
    assert!(!rise_behind(Side::Ask, 9_998));
}

/// Five rises of the mid by one tick, eight events apart, behind one buy.
fn slow_rise(seq_window: u64) -> usize {
    let mut det = MomentumIgnitionDetector::new(seq_window, 0, 16, 3, 1, 2, 200);
    let mut flags = Vec::new();
    det.process(&ev(1, 1_000, EventType::OrderAdd, Side::Bid, 9_999, 100));
    for i in 0..7u64 {
        det.process(&ev(2 + i, 2_000, EventType::OrderAdd, Side::Ask, 10_001 + 2 * i, 10));
    }
    flags.extend(det.process(&ev_oid(9, 9_000, EventType::Trade, Side::Ask, 10_001, 1, 2)));
    for seq in 10..=49u64 {
        let e = if (seq - 9) % 8 == 0 {
            ev_oid(seq, seq * 1_000, EventType::OrderCancel, Side::Ask, 0, 0, (seq - 9) / 8 + 1)
        } else {
            ev(seq, seq * 1_000, EventType::OrderAdd, Side::Bid, 5_000, 1)
        };
        flags.extend(det.process(&e));
    }
    assert!(flags.iter().all(|f| f.end_seq - f.start_seq <= seq_window));
    flags.len()
}

/// A drift counts as far as it came about within the window.
#[test]
fn slow_drifts_are_no_ignition() {
    assert_eq!(slow_rise(10), 0);
    assert_eq!(slow_rise(500), 1);
}

/// The displacement of a flag is the move of the midprice since its run began.
#[test]
fn flags_measure_the_drift() {
    let mut det = MomentumIgnitionDetector::new(500, 0, 16, 1, 3, 3, 200);
    let mut seq = seed_book(&mut det, 10_000, 8);
    let mut mids = std::collections::HashMap::new();
    mids.insert(seq - 1, det.midprice().unwrap());
    for i in 1..seq {
        mids.insert(i, 10_000);
    }
    let mut flags = Vec::new();
    for px in 10_001u64..=10_006 {
        let f = det.process(&ev(seq, seq * 1_000, EventType::Trade, Side::Ask, px, 100));
        mids.insert(seq, det.midprice().unwrap());
        if let Some(f) = f {
            assert_eq!(det.run_len(), 0);
            assert_eq!(f.end_seq, seq);
            flags.push((f, det.midprice().unwrap()));
        }
        seq += 1;
    }
    assert!(!flags.is_empty());
    for (f, now) in flags {
        assert!(f.start_seq <= f.end_seq);
        assert_ne!(f.features.price_displacement, 0);
        assert_eq!(f.features.price_displacement, now as i64 - mids[&f.start_seq] as i64);
        assert!(f.features.event_count >= 3);
    }
}
