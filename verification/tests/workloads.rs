use flowlab::bench::histogram::{Histogram, PerType};
use flowlab::bench::phases::{cancel_heavy_events, count_lanes, fat_warmup, trade_isolated_events};
use flowlab::bench::{bursty_events, crashy_events, realistic_events, warmup_events, MarketConfig, XorShift64};
use flowlab::book::event::{Event, EventType, SequencedEvent};
use flowlab::book::hot_book::HotOrderBook;
use flowlab::ratio::Ratio;

fn streams() -> Vec<Vec<SequencedEvent>> {
    let cfg = MarketConfig::default();
    vec![
        realistic_events(3_000, &cfg),
        bursty_events(3_000, &cfg),
        crashy_events(12_000, &cfg),
        warmup_events(500, &cfg),
        cancel_heavy_events(2_000, 11),
        fat_warmup(800, 12),
        trade_isolated_events(500, 800, 13),
    ]
}

#[test]
fn streams_are_numbered_one_by_one() {
    for s in streams() {
        for pair in s.windows(2) {
            assert_eq!(pair[0].seq + 1, pair[1].seq);
        }
    }
}

#[test]
fn market_streams_never_cross() {
    for s in [realistic_events(4_000, &MarketConfig::default()), bursty_events(4_000, &MarketConfig::default())] {
        let mut book = HotOrderBook::<256>::new(1);
        for e in &s {
            book.apply(&e.event);
            if let (Some(bid), Some(ask)) = (book.best_bid(), book.best_ask()) {
                assert!(bid < ask);
            }
        }
    }
}

#[test]
fn warmups_only_add() {
    let cfg = MarketConfig::default();
    for s in [warmup_events(300, &cfg), fat_warmup(300, 1)] {
        assert_eq!(s.len(), 300);
        assert!(s.iter().all(|e| e.event.event_type == EventType::OrderAdd.code()));
    }
}

#[test]
fn seeds_tell_streams_apart() {
    let told = |seed: u64| -> Vec<(u64, Event)> {
        cancel_heavy_events(100, seed).iter().map(|e| (e.seq, e.event)).collect()
    };
    assert_eq!(told(3), told(3));
    assert_ne!(told(3), told(4));
    assert!(trade_isolated_events(50, 100, 3).iter().all(|e| e.event.event_type == EventType::Trade.code()));
}

#[test]
fn lanes_are_counted_by_kind() {
    let events: Vec<Event> = cancel_heavy_events(400, 5).iter().map(|e| e.event).collect();
    let c = count_lanes(&events);
    let of = |k: EventType| events.iter().filter(|e| e.event_type == k.code()).count() as u64;
    assert_eq!((c.adds, c.trades, c.cancels), (of(EventType::OrderAdd), of(EventType::Trade), of(EventType::OrderCancel)));
}

#[test]
fn histograms_tell_percentiles_and_maxima() {
    let mut h = Histogram::new();
    assert_eq!((h.samples(), h.percentile(Ratio::new(1, 2)), h.max()), (0, 0, 0));
    for _ in 0..99 {
        h.record(100);
    }
    h.record(5_000);
    assert_eq!(h.samples(), 100);
    assert_eq!(h.percentile(Ratio::new(1, 2)), Histogram::lower_ns(Histogram::bin_of(100)));
    assert_eq!(h.percentile(Ratio::new(1, 1)), Histogram::lower_ns(Histogram::bin_of(5_000)));
    assert_eq!(h.max(), Histogram::lower_ns(Histogram::bin_of(5_000) + 1) - 1);
    assert_eq!(h.overflow(), 0);
    h.record(u64::MAX);
    assert_eq!((h.samples(), h.overflow()), (101, 1));
}

#[test]
fn kinds_have_histograms_of_their_own() {
    let mut p = PerType::new();
    p.record(EventType::OrderAdd.code(), 10);
    p.record(EventType::Trade.code(), 20);
    p.record(9, 30);
    assert_eq!((p.add.samples(), p.trade.samples(), p.cancel.samples(), p.modify.samples()), (1, 1, 0, 0));
    assert_eq!(p.total.samples(), 3);
}

#[test]
fn the_source_never_sticks() {
    let mut r = XorShift64(1);
    let mut x = 1u64;
    for _ in 0..50 {
        x ^= x << 13;
        x ^= x >> 7;
        x ^= x << 17;
        assert_eq!(r.next_u64(), x);
        assert_ne!(x, 0);
    }
    for _ in 0..50 {
        assert!(r.next_bounded(10) < 10);
        assert!(r.geometric(1, 2) <= 64);
    }
}

#[test]
fn times_never_fall_and_the_rest_is_fixed() {
    let cfg = MarketConfig::default();
    for s in [
        realistic_events(3_000, &cfg),
        bursty_events(3_000, &cfg),
        crashy_events(12_000, &cfg),
        warmup_events(500, &cfg),
    ] {
        assert!(s.windows(2).all(|w| w[0].event.ts <= w[1].event.ts));
        for (i, e) in s.iter().enumerate() {
            assert_eq!((e.seq, e.channel_id, e.event.instrument_id), (i as u64 + 1, 0, 1));
            assert!(e.event.side <= 1);
            assert!(matches!(
                EventType::from_u8(e.event.event_type),
                Some(EventType::OrderAdd | EventType::OrderCancel | EventType::Trade)
            ));
        }
    }
}
