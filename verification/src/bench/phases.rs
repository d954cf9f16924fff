//! Workloads that stress one thing at a time.

use crate::bench::market::{mk_event, mk_sequenced};
#[allow(unused_imports)]
use crate::bench::{market, xorshift};
use crate::bench::xorshift::XorShift64;
use crate::book::event::{Event, EventType, SequencedEvent};
#[allow(unused_imports)]
use crate::book::event;
use vstd::prelude::*;

verus! {

/// The source, the live order ids, the next id and the events so far.
#[verifier::ext_equal]
pub struct Churn {
    pub rng: u64,
    pub live: Seq<u64>,
    pub next_id: int,
    pub out: Seq<SequencedEvent>,
}

/// One event: seven cancels in ten, adds otherwise or when nothing is live.
pub open spec fn churn_step(c: Churn, i: int) -> Churn {
    let s1 = xorshift::next_state(c.rng);
    let ts = (i * 1_000) as u64;
    if xorshift::bounded(c.rng, 100) < 70 && c.live.len() > 0 {
        let k = xorshift::bounded(s1, c.live.len() as u64) as int;
        Churn {
            rng: xorshift::next_state(s1),
            live: c.live.update(k, c.live.last()).drop_last(),
            out: c.out.push(
                SequencedEvent {
                    seq: (i + 1) as u64,
                    channel_id: 0,
                    event: market::bench_event(ts, EventType::OrderCancel, 0, 0, 0, c.live[k]),
                },
            ),
            ..c
        }
    } else {
        let s2 = xorshift::next_state(s1);
        let s3 = xorshift::next_state(s2);
        let s4 = xorshift::next_state(s3);
        Churn {
            rng: s4,
            live: c.live.push(c.next_id as u64),
            next_id: c.next_id + 1,
            out: c.out.push(
                SequencedEvent {
                    seq: (i + 1) as u64,
                    channel_id: 0,
                    event: market::bench_event(
                        ts,
                        EventType::OrderAdd,
                        (s2 & 1) as u8,
                        (10_000 + xorshift::bounded(s2, 200)) as u64,
                        (1 + xorshift::bounded(s3, 100)) as u64,
                        c.next_id as u64,
                    ),
                },
            ),
        }
    }
}

/// The first `n` events.
pub open spec fn churn(seed: u64, n: nat) -> Churn
    decreases n,
{
    if n == 0 {
        Churn { rng: seed, live: Seq::empty(), next_id: 1, out: Seq::empty() }
    } else {
        churn_step(churn(seed, (n - 1) as nat), n - 1)
    }
}

proof fn lemma_churn_size(seed: u64, n: nat)
    requires
        n < u64::MAX,
    ensures
        churn(seed, n).live.len() <= n,
        1 <= churn(seed, n).next_id <= n + 1,
    decreases n,
{
    if n > 0 {
        lemma_churn_size(seed, (n - 1) as nat);
    }
}

/// A stream of seven cancels to three adds.
pub fn cancel_heavy_events(n: usize, seed: u64) -> (out: Vec<SequencedEvent>)
    requires
        market::times_fit(n as nat),
    ensures
        out@ == churn(seed, n as nat).out,
{
    let mut rng: XorShift64 = XorShift64(seed);
    let mut out: Vec<SequencedEvent> = Vec::new();
    let mut live: Vec<u64> = Vec::new();
    let mut next_id: u64 = 1;
    let mut i: usize = 0;
    while i < n
        invariant
            market::times_fit(n as nat),
            i <= n,
            ({
                let c = churn(seed, i as nat);
                &&& rng.0 == c.rng
                &&& live@ == c.live
                &&& next_id == c.next_id
                &&& out@ == c.out
            }),
        decreases n - i,
    {
        proof {
            lemma_churn_size(seed, i as nat);
        }
        let ts: u64 = i as u64 * 1_000;
        let pick: u64 = rng.next_bounded(100);
        let event: Event = if pick < 70 && live.len() > 0 {
            let k: usize = rng.next_bounded(live.len() as u64) as usize;
            let id: u64 = live.swap_remove(k);
            mk_event(ts, EventType::OrderCancel, 0, 0, 0, id)
        } else {
            let id: u64 = next_id;
            next_id = id + 1;
            let side: u8 = (rng.next_u64() & 1) as u8;
            let price: u64 = 10_000 + rng.next_bounded(200);
            let qty: u64 = 1 + rng.next_bounded(100);
            live.push(id);
            mk_event(ts, EventType::OrderAdd, side, price, qty, id)
        };
        out.push(mk_sequenced(i as u64 + 1, event));
        i += 1;
    }
    out
}

/// The first `n` adds of a book that no trade uses up, and the source.
pub open spec fn fat_stream(seed: u64, n: nat) -> (u64, Seq<SequencedEvent>)
    decreases n,
{
    if n == 0 {
        (seed, Seq::empty())
    } else {
        let (rng, s) = fat_stream(seed, (n - 1) as nat);
        let x = xorshift::next_state(rng);
        let side = (x & 1) as u8;
        let (k, y) = xorshift::failures(x, 40, 100, 0);
        let level = if k < 49 {
            k
        } else {
            49
        };
        (
            y,
            s.push(
                SequencedEvent {
                    seq: n as u64,
                    channel_id: 0,
                    event: market::bench_event(
                        ((n - 1) * 1_000) as u64,
                        EventType::OrderAdd,
                        side,
                        (if side == 0 {
                            10_000 - level
                        } else {
                            10_001 + level
                        }) as u64,
                        1_000_000_000,
                        n as u64,
                    ),
                },
            ),
        )
    }
}

/// Adds of a quantity that no realistic run of trades uses up.
pub fn fat_warmup(n_orders: usize, seed: u64) -> (out: Vec<SequencedEvent>)
    requires
        market::times_fit(n_orders as nat),
    ensures
        out@ == fat_stream(seed, n_orders as nat).1,
{
    let mut rng: XorShift64 = XorShift64(seed);
    let mut out: Vec<SequencedEvent> = Vec::new();
    let mut i: usize = 0;
    while i < n_orders
        invariant
            market::times_fit(n_orders as nat),
            i <= n_orders,
            (rng.0, out@) == fat_stream(seed, i as nat),
        decreases n_orders - i,
    {
        let side: u8 = (rng.next_u64() & 1) as u8;
        let k: u64 = rng.geometric(40, 100);
        let level: u64 = if k < 49 {
            k
        } else {
            49
        };
        let price: u64 = if side == 0 {
            10_000 - level
        } else {
            10_001 + level
        };
        let id: u64 = i as u64 + 1;
        out.push(
            mk_sequenced(id, mk_event(i as u64 * 1_000, EventType::OrderAdd, side, price, 1_000_000_000, id)),
        );
        i += 1;
    }
    out
}

/// The first `n` trades of a stream that only trades, and the source.
pub open spec fn trade_stream(seed: u64, live_orders: u64, n: nat) -> (u64, Seq<SequencedEvent>)
    decreases n,
{
    if n == 0 {
        (seed, Seq::empty())
    } else {
        let (rng, s) = trade_stream(seed, live_orders, (n - 1) as nat);
        (
            xorshift::next_state(rng),
            s.push(
                SequencedEvent {
                    seq: n as u64,
                    channel_id: 0,
                    event: market::bench_event(
                        ((n - 1) * 1_000) as u64,
                        EventType::Trade,
                        0,
                        0,
                        1,
                        (1 + xorshift::bounded(rng, live_orders)) as u64,
                    ),
                },
            ),
        )
    }
}

/// Trades of one lot each, against orders numbered from one to `live_orders`.
pub fn trade_isolated_events(n: usize, live_orders: u64, seed: u64) -> (out: Vec<SequencedEvent>)
    requires
        market::times_fit(n as nat),
        live_orders > 0,
    ensures
        out@ == trade_stream(seed, live_orders, n as nat).1,
{
    let mut rng: XorShift64 = XorShift64(seed);
    let mut out: Vec<SequencedEvent> = Vec::new();
    let mut i: usize = 0;
    while i < n
        invariant
            market::times_fit(n as nat),
            live_orders > 0,
            i <= n,
            (rng.0, out@) == trade_stream(seed, live_orders, i as nat),
        decreases n - i,
    {
        let id: u64 = 1 + rng.next_bounded(live_orders);
        out.push(mk_sequenced(i as u64 + 1, mk_event(i as u64 * 1_000, EventType::Trade, 0, 0, 1, id)));
        i += 1;
    }
    out
}

/// How many events of each lane some events hold.
#[derive(Debug, Clone, Copy, PartialEq, Eq, Structural)]
pub struct LaneCounts {
    pub adds: u64,
    pub trades: u64,
    pub cancels: u64,
}

/// The events of one code.
pub open spec fn of_code(s: Seq<Event>, code: u8) -> Seq<Event> {
    s.filter(|e: Event| e.event_type == code)
}

/// Counts the events of each lane.
pub fn count_lanes(events: &[Event]) -> (c: LaneCounts)
    requires
        events@.len() <= u64::MAX,
    ensures
        c.adds == of_code(events@, event::event_code(EventType::OrderAdd)).len(),
        c.trades == of_code(events@, event::event_code(EventType::Trade)).len(),
        c.cancels == of_code(events@, event::event_code(EventType::OrderCancel)).len(),
{
    let ghost s = events@;
    let mut c: LaneCounts = LaneCounts { adds: 0, trades: 0, cancels: 0 };
    let mut i: usize = 0;
    assert(s.take(0) =~= Seq::<Event>::empty());
    proof {
        reveal(Seq::filter);
    }
    while i < events.len()
        invariant
            s == events@,
            s.len() <= u64::MAX,
            i <= s.len(),
            c.adds == of_code(s.take(i as int), event::event_code(EventType::OrderAdd)).len(),
            c.trades == of_code(s.take(i as int), event::event_code(EventType::Trade)).len(),
            c.cancels == of_code(s.take(i as int), event::event_code(EventType::OrderCancel)).len(),
            c.adds + c.trades + c.cancels <= i,
        decreases s.len() - i,
    {
        proof {
            reveal(Seq::filter);
            assert(s.take(i + 1).drop_last() =~= s.take(i as int));
            assert(s.take(i + 1).last() == s[i as int]);
        }
        let t: u8 = events[i].event_type;
        if t == EventType::OrderAdd.code() {
            c.adds = c.adds + 1;
        } else if t == EventType::Trade.code() {
            c.trades = c.trades + 1;
        } else if t == EventType::OrderCancel.code() {
            c.cancels = c.cancels + 1;
        }
        i += 1;
    }
    assert(s.take(i as int) =~= s);
    c
}

/// Seven events in ten cancel a live order, which is gone with it, and tell nothing but its
/// id; the others, and all while nothing is live, add one to a hundred at one of two hundred
/// prices under the next id.
pub proof fn churn_cancels_what_it_added(c: Churn, i: int)
    requires
        0 <= i,
        i * 1_000 <= u64::MAX,
        i < u64::MAX,
        c.live.len() <= u64::MAX,
        0 < c.next_id < u64::MAX,
    ensures
        ({
            let n = churn_step(c, i);
            let x = n.out.last();
            let cancels = xorshift::next_state(c.rng) % 100 < 70 && c.live.len() > 0;
            &&& n.out.len() == c.out.len() + 1
            &&& n.out.drop_last() == c.out
            &&& x.seq == i + 1 && x.event.ts == 1_000 * i
            &&& cancels ==> {
                &&& x.event.event_type == 2 && x.event.qty == 0 && x.event.price == 0
                &&& c.live.contains(x.event.order_id)
                &&& n.live.len() == c.live.len() - 1
                &&& n.next_id == c.next_id
            }
            &&& !cancels ==> {
                &&& x.event.event_type == 1 && x.event.order_id == c.next_id
                &&& 10_000 <= x.event.price < 10_200
                &&& 1 <= x.event.qty <= 100
                &&& n.live == c.live.push(x.event.order_id)
                &&& n.next_id == c.next_id + 1
            }
        }),
        churn(c.rng, 0).next_id == 1 && churn(c.rng, 0).live.len() == 0 && churn(c.rng, 0).out.len() == 0,
{
    assert(churn_step(c, i).out.drop_last() =~= c.out);
    if xorshift::bounded(c.rng, 100) < 70 && c.live.len() > 0 {
        let k = xorshift::bounded(xorshift::next_state(c.rng), c.live.len() as u64) as int;
        assert(c.live[k] == churn_step(c, i).out.last().event.order_id);
    }
}

/// The fat book: adds numbered from one, a microsecond apart, of a thousand million each,
/// bids from ten thousand down and asks from one above it up, over fifty levels.
pub proof fn fat_books_are_deep(seed: u64, n: nat)
    requires
        0 < n,
        n * 1_000 <= u64::MAX,
    ensures
        ({
            let s = fat_stream(seed, n).1;
            let x = s.last();
            let rng = fat_stream(seed, (n - 1) as nat).0;
            let k = xorshift::failures(xorshift::next_state(rng), 40, 100, 0).0;
            &&& s.drop_last() == fat_stream(seed, (n - 1) as nat).1
            &&& s.len() > 0
            &&& x.seq == n && x.event.order_id == n && x.event.ts == 1_000 * (n - 1)
            &&& x.event.event_type == 1 && x.event.qty == 1_000_000_000
            &&& x.event.side <= 1
            &&& x.event.side == 0 ==> 9_951 <= x.event.price <= 10_000 && (k < 50 ==> x.event.price + k == 10_000)
            &&& x.event.side == 1 ==> 10_001 <= x.event.price <= 10_050 && (k < 50 ==> x.event.price == 10_001 + k)
            &&& k >= 50 ==> x.event.price == 9_951 || x.event.price == 10_050
        }),
{
    let x = xorshift::next_state(fat_stream(seed, (n - 1) as nat).0);
    assert((x & 1) <= 1) by (bit_vector);
    assert(fat_stream(seed, n).1.drop_last() =~= fat_stream(seed, (n - 1) as nat).1);
}

/// Isolated trades: numbered from one, a microsecond apart, one lot each of one of the live
/// orders.
pub proof fn isolated_trades_hit_live_orders(seed: u64, live_orders: u64, n: nat)
    requires
        0 < n,
        n * 1_000 <= u64::MAX,
        0 < live_orders,
    ensures
        ({
            let s = trade_stream(seed, live_orders, n).1;
            let x = s.last();
            let rng = trade_stream(seed, live_orders, (n - 1) as nat).0;
            &&& s.drop_last() == trade_stream(seed, live_orders, (n - 1) as nat).1
            &&& x.seq == n && x.event.ts == 1_000 * (n - 1)
            &&& x.event.event_type == 4 && x.event.qty == 1 && x.event.price == 0
            &&& 1 <= x.event.order_id <= live_orders
            &&& x.event.order_id == 1 + xorshift::next_state(rng) % live_orders
        }),
{
    assert(trade_stream(seed, live_orders, n).1.drop_last() =~= trade_stream(
        seed,
        live_orders,
        (n - 1) as nat,
    ).1);
}

} // verus!
