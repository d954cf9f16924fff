use flowlab::book::event::{Event, EventType, Side};
use flowlab::book::hot_book::HotOrderBook;

fn make_event(event_type: EventType, side: Side, price: u64, qty: u64) -> Event {
    make_event_oid(event_type, side, price, qty, 0)
}

fn make_event_oid(event_type: EventType, side: Side, price: u64, qty: u64, order_id: u64) -> Event {
    Event {
        ts: 0,
        instrument_id: 1,
        event_type: event_type.code(),
        side: side.code(),
        price,
        qty,
        order_id,
        _pad: [0; 2],
    }
}

#[test]
fn test_add_and_spread() {
    let mut book = HotOrderBook::<64>::new(1);

    book.apply(&make_event(EventType::OrderAdd, Side::Bid, 100, 10));
    book.apply(&make_event(EventType::OrderAdd, Side::Ask, 105, 5));

    assert_eq!(book.best_bid(), Some(100));
    assert_eq!(book.best_ask(), Some(105));
    assert_eq!(book.spread(), Some(5));
    assert_eq!(book.bid_depth(1), 10);
    assert_eq!(book.ask_depth(1), 5);
}

#[test]
fn test_cancel_removes_level() {
    let mut book = HotOrderBook::<64>::new(1);
    book.apply(&make_event(EventType::OrderAdd, Side::Bid, 100, 10));
    book.apply(&make_event(EventType::OrderCancel, Side::Bid, 100, 10));

    assert_eq!(book.bid_count(), 0);
    assert_eq!(book.best_bid(), None);
}

#[test]
fn test_anon_trade_full_fill_removes_level() {
    let mut book = HotOrderBook::<64>::new(1);
    book.apply(&make_event(EventType::OrderAdd, Side::Bid, 100, 10));
    book.apply(&make_event(EventType::Trade, Side::Bid, 100, 10));

    assert_eq!(book.bid_count(), 0);
    assert_eq!(book.best_bid(), None);
}

#[test]
fn test_partial_cancel_keeps_order_alive() {
    // ITCH 'X' Order Cancel: cancelled_shares < resting qty.
    // The order must stay in the slab with the residual qty, the
    // level total_qty must be deducted, but order_count must NOT
    // decrement (the level still hosts one live order).
    let mut book = HotOrderBook::<64>::new(1);

    // Two orders at the same level so we can detect a wrong
    // order_count decrement (would drop to 1 instead of staying 2).
    book.apply(&make_event_oid(EventType::OrderAdd, Side::Bid, 100, 10, 1));
    book.apply(&make_event_oid(EventType::OrderAdd, Side::Bid, 100, 5, 2));

    assert_eq!(book.bid_levels()[0].total_qty, 15);
    assert_eq!(book.bid_levels()[0].order_count, 2);

    // Partial cancel: oid=1 loses 3 shares, residual = 7.
    book.apply(&make_event_oid(EventType::OrderCancel, Side::Bid, 0, 3, 1));

    assert_eq!(
        book.bid_levels()[0].total_qty,
        12,
        "level total_qty must drop by exactly the cancelled qty"
    );
    assert_eq!(
        book.bid_levels()[0].order_count,
        2,
        "partial cancel must NOT decrement order_count"
    );
    let meta = book
        .order_meta(1)
        .expect("oid 1 must still be live in the slab after partial cancel");
    assert_eq!(meta.qty, 7, "slab qty must reflect the residual");

    // Wiping the residual (qty == residual) must promote to a full
    // delete and free the slab slot + decrement order_count.
    book.apply(&make_event_oid(EventType::OrderCancel, Side::Bid, 0, 7, 1));
    assert!(book.order_meta(1).is_none(), "oid 1 must be released");
    assert_eq!(book.bid_levels()[0].total_qty, 5);
    assert_eq!(book.bid_levels()[0].order_count, 1);

    // ITCH 'D' (qty=0) on remaining oid=2 must fully delete it.
    book.apply(&make_event_oid(EventType::OrderCancel, Side::Bid, 0, 0, 2));
    assert_eq!(book.bid_count(), 0, "level must be removed");
    assert!(book.order_meta(2).is_none());
}

#[test]
fn test_sorted_insertion_binary_search() {
    let mut book = HotOrderBook::<64>::new(1);

    // Add bids out of order — binary search insertion
    book.apply(&make_event(EventType::OrderAdd, Side::Bid, 100, 10));
    book.apply(&make_event(EventType::OrderAdd, Side::Bid, 110, 5));
    book.apply(&make_event(EventType::OrderAdd, Side::Bid, 105, 3));

    // Bids descending: 110, 105, 100
    assert_eq!(book.bid_levels()[0].price, 110);
    assert_eq!(book.bid_levels()[1].price, 105);
    assert_eq!(book.bid_levels()[2].price, 100);

    // Add asks out of order
    book.apply(&make_event(EventType::OrderAdd, Side::Ask, 120, 2));
    book.apply(&make_event(EventType::OrderAdd, Side::Ask, 115, 7));

    // Asks ascending: 115, 120
    assert_eq!(book.ask_levels()[0].price, 115);
    assert_eq!(book.ask_levels()[1].price, 120);
}

#[test]
fn test_trade_depletes() {
    let mut book = HotOrderBook::<64>::new(1);
    // Use a tracked order_id so `trade` resolves via the lookup map
    // (which decrements `order_count` on full fills, matching the
    // BTreeMap reference implementation).
    book.apply(&make_event_oid(EventType::OrderAdd, Side::Ask, 100, 20, 42));

    // Partial fill: 15 of 20
    book.apply(&make_event_oid(EventType::Trade, Side::Ask, 100, 15, 42));
    assert_eq!(book.ask_levels()[0].total_qty, 5);
    assert_eq!(book.ask_count(), 1);

    // Full fill of remainder: order_count -> 0 removes the level
    book.apply(&make_event_oid(EventType::Trade, Side::Ask, 100, 5, 42));
    assert_eq!(book.ask_count(), 0);
}

#[test]
fn test_depth_sum_unrolled() {
    let mut book = HotOrderBook::<64>::new(1);

    // Add 7 bid levels to test 4-wide unroll + 3 remainder
    for p in 0..7u64 {
        book.apply(&make_event(EventType::OrderAdd, Side::Bid, 100 + p, 10));
    }

    assert_eq!(book.bid_depth(7), 70);
    assert_eq!(book.bid_depth(4), 40);
    assert_eq!(book.bid_depth(1), 10);
}

#[test]
fn test_many_levels_stress() {
    let mut book = HotOrderBook::<256>::new(1);

    // Fill 200 bid levels
    for p in 0..200u64 {
        book.apply(&make_event(EventType::OrderAdd, Side::Bid, 1000 + p, 1));
    }
    assert_eq!(book.bid_count(), 200);
    // Best bid should be highest price (1199)
    assert_eq!(book.best_bid(), Some(1199));

    // Cancel middle level
    book.apply(&make_event(EventType::OrderCancel, Side::Bid, 1100, 1));
    assert_eq!(book.bid_count(), 199);

    // Levels should still be sorted
    let levels = book.bid_levels();
    for w in levels.windows(2) {
        assert!(w[0].price > w[1].price, "bids must be descending");
    }
}

#[test]
fn test_itch_cancel_resolves_via_order_id() {
    // ITCH `OrderDelete` (`D`) carries only `order_id` — price/qty/side
    // are zero on the wire. The book must still locate the owning
    // level via the internal lookup map.
    let mut book = HotOrderBook::<64>::new(1);
    book.apply(&make_event_oid(EventType::OrderAdd, Side::Bid, 100, 10, 7));
    book.apply(&make_event_oid(EventType::OrderAdd, Side::Bid, 100, 15, 8));
    assert_eq!(book.bid_count(), 1);
    assert_eq!(book.bid_levels()[0].total_qty, 25);

    // ITCH-style cancel: price=0, qty=0, side=0 — resolved via order_id=7
    let cancel = make_event_oid(EventType::OrderCancel, Side::Bid, 0, 0, 7);
    assert!(book.apply(&cancel));
    assert_eq!(book.bid_count(), 1);
    assert_eq!(book.bid_levels()[0].total_qty, 15); // qty deducted by 10 (stored)

    // Unknown order_id -> dropped (matches BTreeMap OrderBook)
    let bogus = make_event_oid(EventType::OrderCancel, Side::Bid, 0, 0, 999);
    assert!(!book.apply(&bogus));
}

/// **Lane equivalence** — `apply_lanes` must produce the same
/// canonical L2 hash as the serial `apply` loop on any
/// ITCH-conformant input (unique oids, CANCEL/TRADE strictly after
/// ADD, no oid reuse). Final state bit-exact identical.
#[test]
fn test_apply_lanes_matches_serial_canonical_hash() {
    let mut events: Vec<Event> = Vec::with_capacity(2_000);
    let mut next_oid: u64 = 1;
    let mut live: Vec<(u64, u64, u8)> = Vec::new(); // (oid, price, side)

    // Deterministic xorshift inline to avoid cross-crate deps.
    let mut s: u64 = 0xA17E_F10A_BABE_2026;
    let mut r = || {
        s ^= s << 13;
        s ^= s >> 7;
        s ^= s << 17;
        s
    };

    for i in 0..2_000u64 {
        let pick = r() % 100;
        let evt = if pick < 60 || live.is_empty() {
            let side = (r() & 1) as u8;
            let price = 10_000u64.saturating_sub(r() % 50) + (side as u64) * 100;
            let qty = 10 + (r() % 90);
            let oid = next_oid;
            next_oid += 1;
            live.push((oid, price, side));
            make_event_oid(EventType::OrderAdd,
                if side == 0 { Side::Bid } else { Side::Ask },
                price, qty, oid)
        } else if pick < 85 {
            let idx = (r() as usize) % live.len();
            let (oid, _, side) = live.swap_remove(idx);
            make_event_oid(EventType::OrderCancel,
                if side == 0 { Side::Bid } else { Side::Ask },
                0, 0, oid)
        } else {
            let idx = (r() as usize) % live.len();
            let (oid, _, side) = live[idx];
            make_event_oid(EventType::Trade,
                if side == 0 { Side::Bid } else { Side::Ask },
                0, 1, oid)
        };
        let mut e = evt;
        e.ts = i * 1_000;
        events.push(e);
    }

    let mut serial = HotOrderBook::<256>::new(1);
    for e in &events {
        serial.apply(e);
    }

    let mut lanes = HotOrderBook::<256>::new(1);
    // Process in batches of 64 to reflect realistic poll-cadence usage.
    for chunk in events.chunks(64) {
        lanes.apply_lanes(chunk);
    }

    assert_eq!(
        serial.canonical_l2_hash(),
        lanes.canonical_l2_hash(),
        "apply_lanes must produce identical post-batch state to serial apply"
    );
}

/// In a batch, too, a modify takes its order from where it was.
#[test]
fn batches_move_modified_orders() {
    let mut lanes = HotOrderBook::<64>::new(1);
    lanes.apply(&make_event_oid(EventType::OrderAdd, Side::Bid, 100, 10, 1));
    let mut serial = HotOrderBook::<64>::new(1);
    serial.apply(&make_event_oid(EventType::OrderAdd, Side::Bid, 100, 10, 1));

    let modify = make_event_oid(EventType::OrderModify, Side::Bid, 101, 10, 1);
    lanes.apply_lanes(&[modify]);
    assert!(serial.apply(&modify));
    assert_eq!(lanes.bid_levels().len(), 1);
    let l = lanes.bid_levels()[0];
    assert_eq!((l.price, l.total_qty, l.order_count), (101, 10, 1));
    assert_eq!(lanes.canonical_l2_hash(), serial.canonical_l2_hash());
}

/// Adds, modifies, trades and cancels of one batch end where they end one by one.
#[test]
fn batches_with_modifies_match_serial() {
    let mut events = Vec::new();
    for id in 1..=20u64 {
        events.push(make_event_oid(EventType::OrderAdd, Side::Bid, 100 - id % 5, 50, id));
        if id % 2 == 0 {
            events.push(make_event_oid(EventType::OrderModify, Side::Bid, 90 - id % 3, 20, id));
        }
        if id % 3 == 0 {
            events.push(make_event_oid(EventType::Trade, Side::Bid, 0, 5, id));
        }
        if id % 5 == 0 {
            events.push(make_event_oid(EventType::OrderCancel, Side::Bid, 0, 0, id - 1));
        }
    }
    let mut lanes = HotOrderBook::<64>::new(1);
    lanes.apply_lanes(&events);
    let mut serial = HotOrderBook::<64>::new(1);
    for e in &events {
        serial.apply(e);
    }
    let told = |b: &HotOrderBook<64>| -> Vec<(u64, u64, u32)> {
        b.bid_levels().iter().map(|l| (l.price, l.total_qty, l.order_count)).collect()
    };
    assert_eq!(told(&lanes), told(&serial));
    assert!(told(&serial).windows(2).all(|w| w[0].0 > w[1].0));
    assert!(told(&serial).iter().all(|l| l.1 > 0 && l.2 > 0));
}

/// A book says whether it changed.
#[test]
fn results_tell_changes() {
    let mut book = HotOrderBook::<1>::new(1);
    assert!(book.apply(&make_event_oid(EventType::OrderAdd, Side::Bid, 100, 10, 1)));
    assert!(!book.apply(&make_event_oid(EventType::OrderAdd, Side::Bid, 101, 10, 2)));
    assert!(!book.apply(&make_event_oid(EventType::OrderCancel, Side::Bid, 100, 10, 2)));
    assert!(book.apply(&make_event_oid(EventType::OrderCancel, Side::Bid, 100, 4, 1)));
    assert!(book.apply(&make_event_oid(EventType::Trade, Side::Bid, 100, 1, 1)));
    assert!(book.apply(&make_event_oid(EventType::OrderModify, Side::Bid, 102, 7, 1)));
    assert_eq!(book.best_bid(), Some(102));
}

/// Lanes match single events from books that hold more than their named orders too:
/// what was added without an ID, and what an order left behind that another took the
/// ID of. Where something without an ID took what a named order holds they need not.
#[test]
fn lanes_match_serial_from_settled_books() {
    let batch = [
        make_event_oid(EventType::OrderCancel, Side::Bid, 0, 0, 1),
        make_event_oid(EventType::OrderAdd, Side::Bid, 100, 7, 9),
        make_event_oid(EventType::Trade, Side::Bid, 100, 3, 9),
    ];
    let before = [
        make_event_oid(EventType::OrderAdd, Side::Bid, 100, 10, 1),
        make_event_oid(EventType::OrderAdd, Side::Bid, 100, 5, 0),
        make_event_oid(EventType::OrderAdd, Side::Bid, 101, 4, 2),
        make_event_oid(EventType::OrderAdd, Side::Bid, 102, 6, 2),
    ];
    let mut lanes = HotOrderBook::<8>::new(1);
    let mut serial = HotOrderBook::<8>::new(1);
    for e in &before {
        lanes.apply(e);
        serial.apply(e);
    }
    lanes.apply_lanes(&batch);
    for e in &batch {
        serial.apply(e);
    }
    assert_eq!(lanes.bid_levels(), serial.bid_levels());
    assert_eq!(lanes.canonical_l2_hash(), serial.canonical_l2_hash());
    assert_eq!(serial.bid_levels().len(), 3);

    let mut lanes = HotOrderBook::<8>::new(1);
    let mut serial = HotOrderBook::<8>::new(1);
    for b in [&mut lanes, &mut serial] {
        b.apply(&make_event_oid(EventType::OrderAdd, Side::Bid, 100, 10, 1));
        b.apply(&make_event_oid(EventType::OrderCancel, Side::Bid, 100, 10, 0));
    }
    lanes.apply_lanes(&batch[..2]);
    for e in &batch[..2] {
        serial.apply(e);
    }
    assert_eq!((lanes.bid_levels().len(), serial.bid_levels().len()), (0, 1));
}
