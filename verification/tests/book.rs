use flowlab::book::digest::{digest_book, level_bytes};
use flowlab::book::event::{Event, EventType, SequencedEvent, Side};
use flowlab::book::hot_book::HotOrderBook;
use flowlab::book::model::Level;
use flowlab::book::orderbook::OrderBook;
use flowlab::book::state::{step_bytes, ReplayState, StateError};
use xxhash_rust::xxh3::{xxh3_64, xxh3_64_with_seed};

fn event(kind: EventType, side: Side, price: u64, qty: u64, order_id: u64) -> Event {
    Event {
        ts: 7,
        price,
        qty,
        order_id,
        instrument_id: 1,
        event_type: kind.code(),
        side: side.code(),
        _pad: [0; 2],
    }
}

fn add(side: Side, price: u64, qty: u64, id: u64) -> Event {
    event(EventType::OrderAdd, side, price, qty, id)
}

fn cancel(qty: u64, id: u64) -> Event {
    event(EventType::OrderCancel, Side::Bid, 0, qty, id)
}

fn seq(n: u64, event: Event) -> SequencedEvent {
    SequencedEvent { seq: n, channel_id: 0, event }
}

/// The digest of a book, written out by hand.
fn digest_by_hand(bids: &[(u64, u64)], asks: &[(u64, u64)]) -> u64 {
    let fold = |mut h: u64, levels: &[(u64, u64)]| {
        for (price, qty) in levels {
            let mut bytes = price.to_le_bytes().to_vec();
            bytes.extend(qty.to_le_bytes());
            h ^= xxh3_64_with_seed(&bytes, h);
        }
        h
    };
    let h = fold(xxh3_64(b"FLOWLAB-L2-v1"), bids);
    fold(xxh3_64_with_seed(b"|", h), asks)
}

#[test]
fn codes_round_trip() {
    for v in 0..=255u8 {
        match EventType::from_u8(v) {
            Some(t) => assert_eq!(t.code(), v),
            None => assert!(v == 0 || v > 5),
        }
        match Side::from_u8(v) {
            Some(s) => assert_eq!(s.code(), v),
            None => assert!(v > 1),
        }
    }
    assert_eq!(EventType::from_u8(4), Some(EventType::Trade));
}

#[test]
fn event_bytes_are_little_endian_in_order() {
    let e = Event {
        ts: 1,
        price: 0x0203,
        qty: 4,
        order_id: 5,
        instrument_id: 6,
        event_type: 4,
        side: 1,
        _pad: [0; 2],
    };
    let mut want = 1u64.to_le_bytes().to_vec();
    want.extend(0x0203u64.to_le_bytes());
    want.extend(4u64.to_le_bytes());
    want.extend(5u64.to_le_bytes());
    want.extend(6u32.to_le_bytes());
    want.extend([4u8, 1, 0, 0]);
    assert_eq!(e.bytes(), want);
    assert_eq!(e.bytes().len(), 40);
}

#[test]
fn level_bytes_hold_price_and_quantity() {
    let b = level_bytes(258, 3);
    assert_eq!(b, vec![2, 1, 0, 0, 0, 0, 0, 0, 3, 0, 0, 0, 0, 0, 0, 0]);
}

#[test]
fn digest_matches_the_hash_crate() {
    let bids = [
        Level { price: 100, total_qty: 7, order_count: 1 },
        Level { price: 99, total_qty: 3, order_count: 2 },
    ];
    let asks = [Level { price: 101, total_qty: 9, order_count: 1 }];
    assert_eq!(digest_book(&bids, &asks), digest_by_hand(&[(100, 7), (99, 3)], &[(101, 9)]));
    assert_eq!(digest_book(&[], &[]), digest_by_hand(&[], &[]));
    assert_ne!(digest_book(&bids, &asks), digest_book(&asks, &bids));
}

#[test]
fn both_books_share_one_digest() {
    let stream = [
        add(Side::Bid, 100, 10, 1),
        add(Side::Ask, 105, 4, 2),
        add(Side::Bid, 99, 5, 3),
        add(Side::Ask, 106, 8, 4),
        event(EventType::Trade, Side::Ask, 0, 4, 2),
        cancel(3, 1),
        cancel(0, 3),
        event(EventType::OrderModify, Side::Bid, 98, 6, 1),
        cancel(0, 999),
    ];
    let mut hot = HotOrderBook::<16>::new(1);
    let mut reference = OrderBook::new(1);
    for e in &stream {
        assert_eq!(hot.apply(e), reference.apply(e));
        assert_eq!(hot.best_bid(), reference.best_bid());
        assert_eq!(hot.best_ask(), reference.best_ask());
        assert_eq!(hot.spread(), reference.spread());
        assert_eq!(hot.total_bid_depth(), reference.bid_depth());
        assert_eq!(hot.total_ask_depth(), reference.ask_depth());
        assert_eq!(hot.canonical_l2_hash(), reference.canonical_l2_hash());
    }
    assert_eq!(hot.canonical_l2_hash(), digest_by_hand(&[(100, 1), (98, 6)], &[(106, 8)]));
}

#[test]
fn timestamps_do_not_matter_to_either_book() {
    let stream = [add(Side::Bid, 100, 10, 1), add(Side::Ask, 105, 4, 2), cancel(3, 1)];
    let mut digests = Vec::new();
    for step in [0u64, 7] {
        let mut hot = HotOrderBook::<16>::new(1);
        let mut reference = OrderBook::new(1);
        for (i, e) in stream.iter().enumerate() {
            let late = Event { ts: e.ts + step * i as u64, ..*e };
            hot.apply(&late);
            reference.apply(&late);
        }
        digests.push(hot.canonical_l2_hash());
        digests.push(reference.canonical_l2_hash());
    }
    assert!(digests.iter().all(|d| *d == digests[0]));
}

#[test]
fn cancel_undoes_add_in_both_books() {
    let mut hot = HotOrderBook::<8>::new(1);
    let mut reference = OrderBook::new(1);
    let first = add(Side::Ask, 50, 2, 9);
    hot.apply(&first);
    reference.apply(&first);
    let before = (hot.canonical_l2_hash(), reference.canonical_l2_hash());
    for e in [add(Side::Ask, 51, 3, 10), cancel(0, 10)] {
        assert!(hot.apply(&e));
        assert!(reference.apply(&e));
    }
    assert_eq!((hot.canonical_l2_hash(), reference.canonical_l2_hash()), before);
    assert!(hot.order_meta(10).is_none());
}

#[test]
fn unknown_kinds_and_sides_change_nothing() {
    let mut hot = HotOrderBook::<8>::new(1);
    let mut reference = OrderBook::new(1);
    let mut odd = add(Side::Bid, 10, 1, 1);
    odd.side = 2;
    assert!(!reference.apply(&odd));
    let mut strange = add(Side::Bid, 10, 1, 1);
    strange.event_type = 9;
    for e in [strange, event(EventType::BookSnapshot, Side::Bid, 1, 1, 1)] {
        assert!(!hot.apply(&e));
        assert!(!reference.apply(&e));
    }
    assert_eq!(hot.bid_count() + hot.ask_count(), 0);
    assert_eq!(reference.best_bid(), None);
}

#[test]
fn a_full_side_takes_no_new_level() {
    let mut book = HotOrderBook::<2>::new(1);
    assert!(book.apply(&add(Side::Bid, 10, 1, 1)));
    assert!(book.apply(&add(Side::Bid, 11, 1, 2)));
    let third = add(Side::Bid, 9, 1, 3);
    assert!(!book.apply(&third));
    assert_eq!(book.bid_count(), 2);
    assert!(book.order_meta(3).is_none());
    assert!(book.apply(&add(Side::Bid, 10, 4, 4)));
    assert_eq!(book.bid_levels()[1].total_qty, 5);
    assert_eq!(book.best_bid_size(), 1);
}

#[test]
fn sequence_gaps_are_refused_and_change_nothing() {
    let mut state = ReplayState::new(1);
    assert_eq!(state.hash(), 0);
    let first = seq(5, add(Side::Bid, 10, 1, 1));
    assert_eq!(state.process(&first), Ok(()));
    assert_eq!(state.hash(), xxh3_64(&step_bytes(0, &first)));
    let hash = state.hash();
    let late = seq(7, add(Side::Bid, 11, 1, 2));
    assert_eq!(state.process(&late), Err(StateError::SequenceGap { expected: 6, got: 7 }));
    assert_eq!(state.process(&first), Err(StateError::SequenceGap { expected: 6, got: 5 }));
    assert_eq!(state.hash(), hash);
    assert_eq!(state.last_seq, Some(5));
    assert_eq!(state.book.best_bid(), Some(10));
}

#[test]
fn replays_of_one_stream_agree_and_can_be_cut() {
    let stream: Vec<SequencedEvent> =
        (1..=40).map(|n| seq(n, add(Side::Bid, 100 + n % 7, 1 + n, n))).collect();
    let mut whole = ReplayState::new(1);
    let mut again = ReplayState::new(1);
    for e in &stream {
        assert_eq!(whole.process(e), Ok(()));
    }
    for part in stream.chunks(13) {
        for e in part {
            assert_eq!(again.process(e), Ok(()));
        }
    }
    assert_eq!(whole.hash(), again.hash());
    assert_eq!(whole.book.canonical_l2_hash(), again.book.canonical_l2_hash());
    assert_eq!(step_bytes(0, &stream[0]).len(), 56);
}

#[test]
fn many_orders_keep_their_own_places() {
    let mut book = HotOrderBook::<64>::new(1);
    for id in 1..=500u64 {
        assert!(book.apply(&add(Side::Bid, 1_000 + id % 20, id, id)));
    }
    for id in (1..=500u64).step_by(2) {
        assert!(book.apply(&cancel(0, id)));
    }
    for id in 1..=500u64 {
        match book.order_meta(id) {
            Some(o) => {
                assert_eq!(id % 2, 0);
                assert_eq!((o.price, o.qty), (1_000 + id % 20, id));
            }
            None => assert_eq!(id % 2, 1),
        }
    }
    for id in 501..=600u64 {
        assert!(book.apply(&add(Side::Bid, 1_000 + id % 20, id, id)));
        assert_eq!(book.order_meta(id).unwrap().qty, id);
    }
}

/// A modify to a side that does not exist is refused before anything is taken.
#[test]
fn a_modify_to_no_side_changes_nothing() {
    let mut b = OrderBook::new(1);
    assert!(b.apply(&add(Side::Bid, 100, 10, 1)));
    let mut e = event(EventType::OrderModify, Side::Bid, 101, 10, 1);
    e.side = 7;
    assert!(!b.apply(&e));
    assert_eq!((b.best_bid(), b.bid_depth()), (Some(100), 10));
    e.side = Side::Bid.code();
    assert!(b.apply(&e));
    assert_eq!((b.best_bid(), b.bid_depth()), (Some(101), 10));
}

#[test]
fn digests_look_at_prices_and_quantities_only() {
    let level = |qty, count| Level { price: 100, total_qty: qty, order_count: count };
    assert_eq!(digest_book(&[level(10, 1)], &[]), digest_book(&[level(10, 2)], &[]));
    assert_ne!(digest_book(&[level(10, 1)], &[]), digest_book(&[level(11, 1)], &[]));
    let mut one = OrderBook::new(1);
    one.apply(&add(Side::Bid, 100, 10, 1));
    let mut two = OrderBook::new(1);
    two.apply(&add(Side::Bid, 100, 4, 1));
    two.apply(&add(Side::Bid, 100, 6, 2));
    assert_eq!(one.canonical_l2_hash(), two.canonical_l2_hash());
}
