use flowlab::bench::histogram::Histogram;
use flowlab::bench::{realistic_events, MarketConfig};
use flowlab::book::event::EventType;
use flowlab::log_bins::N_BINS;
use flowlab::ratio::Ratio;

#[test]
fn generator_is_deterministic() {
    let cfg = MarketConfig::default();
    let a = realistic_events(1000, &cfg);
    let b = realistic_events(1000, &cfg);
    assert_eq!(a.len(), b.len());
    for (ea, eb) in a.iter().zip(b.iter()) {
        let (pa, pb) = (ea.event.price, eb.event.price);
        let (oa, ob) = (ea.event.order_id, eb.event.order_id);
        assert_eq!(ea.seq, eb.seq);
        assert_eq!(pa, pb);
        assert_eq!(oa, ob);
    }
}

#[test]
fn top_of_book_is_concentrated() {
    let cfg = MarketConfig::default();
    let events = realistic_events(10_000, &cfg);
    let mut near = 0usize;
    for e in &events {
        if e.event.event_type == EventType::OrderAdd.code() {
            let price = e.event.price;
            let dist = (price as i64 - cfg.mid_price as i64).unsigned_abs();
            if dist <= 3 {
                near += 1;
            }
        }
    }
    assert!(near > 2000, "expected concentrated top-of-book, got {near}");
}

#[test]
fn binning_is_monotonic() {
    let mut last = 0u64;
    for i in 0..N_BINS {
        let lo = Histogram::lower_ns(i);
        assert!(lo >= last, "bin {i} lower {lo} < prev {last}");
        last = lo;
    }
}

#[test]
fn percentiles_are_ordered() {
    let mut h = Histogram::new();
    for i in 0..1000 {
        h.record(10 + i);
    }
    let p = |num: u32| h.percentile(Ratio::new(num, 1000));
    assert!(p(500) <= p(950));
    assert!(p(950) <= p(990));
    assert!(p(990) <= p(999));
}
