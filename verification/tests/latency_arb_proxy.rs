use flowlab::book::event::{Event, EventType, SequencedEvent, Side};
use flowlab::chaos::latency_arb_proxy::LatencyArbProxyDetector;

fn ev(seq: u64, ts: u64, etype: EventType, side: Side, price: u64, qty: u64) -> SequencedEvent {
    ev_oid(seq, ts, etype, side, price, qty, seq)
}

fn ev_oid(
    seq: u64,
    ts: u64,
    etype: EventType,
    side: Side,
    price: u64,
    qty: u64,
    order_id: u64,
) -> SequencedEvent {
    SequencedEvent {
        seq,
        channel_id: 0,
        event: Event {
            ts,
            price,
            qty,
            order_id,
            instrument_id: 1,
            event_type: etype.code(),
            side: side.code(),
            _pad: [0; 2],
        },
    }
}

fn seed_book(det: &mut LatencyArbProxyDetector, mid: u64, levels: u64) -> u64 {
    let mut seq = 1u64;
    for i in 1..=levels {
        det.process(&ev(seq, seq * 1_000, EventType::OrderAdd, Side::Bid, mid - i, 100));
        seq += 1;
        det.process(&ev(seq, seq * 1_000, EventType::OrderAdd, Side::Ask, mid + i, 100));
        seq += 1;
    }
    seq
}

/// Buy-taker print at ask + burst of bid-side cancels in band ->
/// flag (no-reversion mode).
#[test]
fn flags_buy_print_with_bid_burst() {
    let mut det = LatencyArbProxyDetector::new(
        /* reaction_seq */ 50,
        /* reaction_time_ns */ 0,
        /* max_book_levels */ 32,
        /* band_ticks */ 5,
        /* min_trade_qty */ 50,
        /* min_burst */ 3,
        /* require_reversion */ false,
        /* reversion_bps */ 0,
        /* cooldown_seq */ 200,
    );

    let mut seq = seed_book(&mut det, 10_000, 16);
    // Big buy print at the ask.
    let s = seq;
    det.process(&ev(s, s * 1_000, EventType::Trade, Side::Ask, 10_001, 100));
    seq += 1;
    // Burst of bid-side cancels in band.
    let mut hits = 0;
    for k in 0..6u64 {
        let s = seq;
        if det.process(&ev(
            s, s * 1_000, EventType::OrderCancel, Side::Bid,
            9_998 - (k % 3), 50,
        )).is_some() {
            hits += 1;
        }
        seq += 1;
    }
    assert!(hits >= 1, "buy-print + bid burst must flag");
}

/// Trade qty below `min_trade_qty` does NOT seed a trigger.
#[test]
fn no_flag_when_trade_below_min_qty() {
    let mut det = LatencyArbProxyDetector::new(
        50, 0, 32, 5,
        /* min_trade_qty */ 1_000,
        3, false, 0, 200,
    );
    let mut seq = seed_book(&mut det, 10_000, 16);
    let s = seq;
    det.process(&ev(s, s * 1_000, EventType::Trade, Side::Ask, 10_001, 10));
    seq += 1;
    for _ in 0..6 {
        let s = seq;
        let f = det.process(&ev(
            s, s * 1_000, EventType::OrderCancel, Side::Bid, 9_999, 50,
        ));
        assert!(f.is_none(), "no trigger -> no flag");
        seq += 1;
    }
    assert_eq!(det.pending_triggers(), 0);
}

/// Burst on the SAME side as the trade (queue recovery) must NOT
/// flag — that pattern belongs to PhantomLiquidity, not arb proxy.
#[test]
fn no_flag_when_burst_on_same_side() {
    let mut det = LatencyArbProxyDetector::new(50, 0, 32, 5, 50, 3, false, 0, 200);
    let mut seq = seed_book(&mut det, 10_000, 16);
    // Buy print -> opposite side is BID. We send ASK-side burst -> ignore.
    let s = seq;
    det.process(&ev(s, s * 1_000, EventType::Trade, Side::Ask, 10_001, 100));
    seq += 1;
    for _ in 0..6 {
        let s = seq;
        let f = det.process(&ev(
            s, s * 1_000, EventType::OrderCancel, Side::Ask, 10_002, 50,
        ));
        assert!(f.is_none(), "same-side burst must not flag");
        seq += 1;
    }
}

/// Burst outside the price band must NOT contribute.
#[test]
fn no_flag_when_burst_out_of_band() {
    let mut det = LatencyArbProxyDetector::new(
        50, 0, 32, /* band_ticks */ 2, 50, 3, false, 0, 200,
    );
    let mut seq = seed_book(&mut det, 10_000, 32);
    let s = seq;
    det.process(&ev(s, s * 1_000, EventType::Trade, Side::Ask, 10_001, 100));
    seq += 1;
    // Bid burst far away (>2 ticks from 10_001).
    for _ in 0..6 {
        let s = seq;
        let f = det.process(&ev(
            s, s * 1_000, EventType::OrderCancel, Side::Bid, 9_990, 50,
        ));
        assert!(f.is_none(), "out-of-band burst must not flag");
        seq += 1;
    }
}

/// Burst arrives AFTER the reaction window closes -> no flag.
#[test]
fn no_flag_when_reaction_window_closed() {
    let mut det = LatencyArbProxyDetector::new(
        /* reaction_seq */ 5, 0, 32, 5, 50, 3, false, 0, 200,
    );
    let mut seq = seed_book(&mut det, 10_000, 16);
    let s = seq;
    det.process(&ev(s, s * 1_000, EventType::Trade, Side::Ask, 10_001, 100));
    seq += 1;
    // Idle for 50 events on neutral side (no cancels).
    for _ in 0..50 {
        let s = seq;
        det.process(&ev(s, s * 1_000, EventType::OrderAdd, Side::Ask, 10_020, 100));
        seq += 1;
    }
    // Late burst.
    for _ in 0..10 {
        let s = seq;
        let f = det.process(&ev(
            s, s * 1_000, EventType::OrderCancel, Side::Bid, 9_999, 50,
        ));
        assert!(f.is_none(), "late burst must not flag");
        seq += 1;
    }
    assert_eq!(det.pending_triggers(), 0, "stale trigger must be evicted");
}

/// Cooldown: two qualifying patterns back-to-back -> only first.
#[test]
fn cooldown_suppresses_second_proxy() {
    let mut det = LatencyArbProxyDetector::new(
        50, 0, 32, 5, 50, 3, false, 0, /* cooldown_seq */ 1_000,
    );
    let mut seq = seed_book(&mut det, 10_000, 64);
    let mut hits = 0;
    for _ in 0..2 {
        let s = seq;
        det.process(&ev(s, s * 1_000, EventType::Trade, Side::Ask, 10_001, 100));
        seq += 1;
        for k in 0..6u64 {
            let s = seq;
            if det.process(&ev(
                s, s * 1_000, EventType::OrderCancel, Side::Bid,
                9_998 - (k % 3), 50,
            )).is_some() {
                hits += 1;
            }
            seq += 1;
        }
    }
    assert_eq!(hits, 1, "cooldown must suppress second proxy (got {hits})");
}

#[test]
fn raw_trade_seeds_trigger_from_order_id() {
    let mut det = LatencyArbProxyDetector::new(50, 0, 32, 5, 50, 3, false, 0, 200);
    det.process(&ev_oid(1, 1_000, EventType::OrderAdd, Side::Bid, 9_999, 100, 11));
    det.process(&ev_oid(2, 2_000, EventType::OrderAdd, Side::Bid, 9_998, 100, 12));
    det.process(&ev_oid(3, 3_000, EventType::OrderAdd, Side::Bid, 9_997, 100, 13));
    det.process(&ev_oid(4, 4_000, EventType::OrderAdd, Side::Ask, 10_001, 100, 21));

    let mut hits = 0;
    det.process(&ev_oid(5, 5_000, EventType::Trade, Side::Bid, 0, 100, 21));
    for (seq, price) in [(6, 9_999), (7, 9_998), (8, 9_997)] {
        if det.process(&ev(seq, seq * 1_000, EventType::OrderCancel, Side::Bid, price, 50)).is_some() {
            hits += 1;
        }
    }

    assert_eq!(hits, 1);
}

/// A print below the mid is a sale, whatever side it names, so what follows on
/// the bid is no reaction to it.
#[test]
fn prints_below_the_mid_are_sales() {
    let mut det = LatencyArbProxyDetector::new(50, 0, 32, 5, 50, 1, false, 0, 200);
    det.process(&ev_oid(1, 1_000, EventType::OrderAdd, Side::Bid, 9_999, 100, 1));
    det.process(&ev_oid(2, 2_000, EventType::OrderAdd, Side::Ask, 10_001, 100, 2));
    det.process(&ev_oid(3, 3_000, EventType::Trade, Side::Ask, 9_999, 100, 0));
    assert!(det.process(&ev_oid(4, 4_000, EventType::OrderAdd, Side::Bid, 9_998, 10, 9)).is_none());
    assert!(det.process(&ev_oid(5, 5_000, EventType::OrderAdd, Side::Ask, 10_000, 10, 10)).is_some());
}

/// A trigger that was set before a flag is not flagged while it lasts.
#[test]
fn cooldown_covers_triggers_set_before() {
    let mut det = LatencyArbProxyDetector::new(50, 0, 32, 5, 50, 2, false, 0, 200);
    det.process(&ev_oid(1, 1_000, EventType::OrderAdd, Side::Bid, 9_999, 100, 1));
    det.process(&ev_oid(2, 2_000, EventType::OrderAdd, Side::Ask, 10_001, 500, 2));
    det.process(&ev_oid(3, 3_000, EventType::Trade, Side::Ask, 10_001, 100, 2));
    det.process(&ev_oid(4, 4_000, EventType::OrderAdd, Side::Bid, 9_998, 10, 4));
    det.process(&ev_oid(5, 5_000, EventType::Trade, Side::Ask, 10_001, 100, 2));
    assert!(det.process(&ev_oid(6, 6_000, EventType::OrderAdd, Side::Bid, 9_998, 10, 6)).is_some());
    for seq in 7..40u64 {
        let e = ev_oid(seq, seq * 1_000, EventType::OrderAdd, Side::Bid, 9_998, 10, seq);
        assert!(det.process(&e).is_none());
    }
}

/// An add without a quantity makes a level all the same.
#[test]
fn an_empty_add_makes_a_level() {
    let mut det = LatencyArbProxyDetector::new(50, 0, 32, 5, 50, 3, false, 0, 200);
    det.process(&ev(1, 1_000, EventType::OrderAdd, Side::Bid, 99, 10));
    det.process(&ev(2, 2_000, EventType::OrderAdd, Side::Ask, 101, 10));
    assert_eq!(det.midprice(), Some(100));
    det.process(&ev(3, 3_000, EventType::OrderAdd, Side::Ask, 109, 10));
    det.process(&ev_oid(4, 4_000, EventType::OrderAdd, Side::Bid, 100, 0, 9));
    assert_eq!(det.best_bid(), Some(100));
    det.process(&ev_oid(5, 5_000, EventType::OrderAdd, Side::Bid, 100, 7, 10));
    det.process(&ev_oid(6, 6_000, EventType::OrderCancel, Side::Bid, 100, 7, 10));
    assert_eq!(det.best_bid(), Some(99));
}
