use flowlab::book::event::{Event, EventType, Side};
use flowlab::book::hot_book::HotOrderBook;
use flowlab::engine::synthetic::{Plan, SynthState, SyntheticSource};

#[test]
fn one_seed_gives_one_stream() {
    let mut a = SyntheticSource::new(7);
    let mut b = SyntheticSource::new(7);
    let mut c = SyntheticSource::new(8);
    let mut differs = false;
    for now in 0..2_000u64 {
        let x = a.next(now);
        assert_eq!(x, b.next(now));
        differs |= x != c.next(now);
    }
    assert!(differs);
}

#[test]
fn time_leaves_the_stream_as_it_is() {
    let mut a = SyntheticSource::new(7);
    let mut b = SyntheticSource::new(7);
    for now in 0..10_000u64 {
        let x = a.next(now);
        let y = b.next(3 * now + 1);
        assert_eq!((x.ts, y.ts), (now, 3 * now + 1));
        assert_eq!(Event { ts: 0, ..x }, Event { ts: 0, ..y });
    }
}

#[test]
fn drawn_streams_stay_orderly() {
    let mut s = SyntheticSource::new(0xC0FFEE);
    let mut book = HotOrderBook::<256>::new(1);
    let mut kinds = [0usize; 6];
    for now in 0..20_000u64 {
        let e = s.next(now);
        assert_eq!(e.ts, now);
        assert!(e.side <= 1);
        assert!(e.qty > 0 || e.event_type == EventType::OrderCancel.code());
        kinds[e.event_type as usize] += 1;
        book.apply(&e);
        if let (Some(bid), Some(ask)) = (book.best_bid(), book.best_ask()) {
            assert!(bid < ask);
        }
    }
    assert!(kinds[EventType::OrderAdd.code() as usize] > 1_000);
    assert!(kinds[EventType::OrderCancel.code() as usize] > 1_000);
    assert!(kinds[EventType::Trade.code() as usize] > 1_000);
}

#[test]
fn an_empty_book_is_added_to() {
    let mut s = SynthState::new();
    assert!(!s.needs_phase());
    assert!(matches!(s.plan(10), Plan::Add(None)));
    let bid = s.add_order(0, 5, 20, 5);
    assert_eq!(bid.event_type, EventType::OrderAdd.code());
    assert_eq!(bid.side, Side::Bid.code());
    assert_eq!(bid.qty, 20);
    let ask = s.add_order(1, 5, 20, 6);
    assert!(bid.price < ask.price);
    assert_eq!(ask.order_id, bid.order_id + 1);
    assert_eq!(s.live_len(), 2);
    let gone = s.cancel_order(0, 7);
    assert_eq!(gone.order_id, bid.order_id);
    assert_eq!(s.live_len(), 1);
}

/// Prices stay near the mid, quantities in their ranges, and a cancelled order is
/// not heard of again.
#[test]
fn events_keep_their_ranges() {
    let mut s = SyntheticSource::new(42);
    let mut gone = std::collections::HashSet::new();
    for now in 0..50_000u64 {
        let e = s.next(now);
        assert!(!gone.contains(&e.order_id));
        if e.side == 0 {
            assert!((99_999_950..=99_999_995).contains(&e.price));
        } else {
            assert!((100_000_005..=100_000_050).contains(&e.price));
        }
        match EventType::from_u8(e.event_type) {
            Some(EventType::OrderAdd) => assert!((10..=500).contains(&e.qty)),
            Some(EventType::Trade) => assert!((1..=140).contains(&e.qty)),
            _ => {
                assert_eq!(e.qty, 0);
                gone.insert(e.order_id);
            }
        }
    }
    assert!(gone.len() > 1_000);
}

/// Adds are numbered one by one, and cancels and trades are of orders that were
/// added and not cancelled, at their price and on their side.
#[test]
fn streams_keep_to_the_rules() {
    let mut s = SyntheticSource::new(3);
    let mut next = 1u64;
    let mut placed = std::collections::HashMap::new();
    let mut last = 0;
    for now in 0..30_000u64 {
        let e = s.next(now / 3);
        assert!(e.ts >= last);
        last = e.ts;
        if e.event_type == EventType::OrderAdd.code() {
            assert_eq!(e.order_id, next);
            next += 1;
            placed.insert(e.order_id, (e.price, e.side));
        } else {
            assert_eq!(placed.get(&e.order_id), Some(&(e.price, e.side)));
            if e.event_type == EventType::OrderCancel.code() {
                placed.remove(&e.order_id);
            }
        }
    }
}
