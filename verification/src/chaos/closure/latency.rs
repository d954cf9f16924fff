//! Latency arbitrage.

use crate::book::event::{EventType, SequencedEvent, Side};
#[allow(unused_imports)]
use crate::book::event;
#[allow(unused_imports)]
use crate::chaos::closure;
use crate::chaos::flag::{ChaosEvent, ChaosKind};
use crate::chaos::generators::latency::{LatencyModel, LATENCY_LEVELS};
#[allow(unused_imports)]
use crate::chaos::generators::{latency, tape};
use crate::chaos::generators::tape::TapeModel;
use crate::chaos::latency_arb_proxy::{PendingTrigger, ReactionLimits, ReactionModel};
#[allow(unused_imports)]
use crate::chaos::latency_arb_proxy;
use crate::chaos::mini_book::MiniModel;
#[allow(unused_imports)]
use crate::chaos::mini_book;
#[allow(unused_imports)]
use crate::chaos::momentum_ignition;
use crate::chaos::order_tracker::AggressorSide;
use vstd::prelude::*;

verus! {

/// Detection of quick reactions.
pub open spec fn reaction_detector(l: ReactionLimits) -> spec_fn(ReactionModel, SequencedEvent) -> (
    ReactionModel,
    Option<ChaosEvent>,
) {
    |m: ReactionModel, e: SequencedEvent| latency_arb_proxy::reaction_step(m, l, e)
}

/// A detector that has seen nothing.
pub open spec fn unprovoked() -> ReactionModel {
    ReactionModel {
        book: MiniModel::empty(),
        orders: Map::empty(),
        pending: Seq::empty(),
        quiet_until: 0,
    }
}

/// Limits under which a generated print is large and its reaction near and quick.
pub open spec fn reaction_reach(l: ReactionLimits) -> bool {
    &&& l.reaction_seq > 16
    &&& l.max_book_levels >= 1
    &&& l.band_ticks >= 4
    &&& l.min_trade_qty <= 400
    &&& 1 <= l.min_burst <= 4
    &&& !l.require_reversion
}

/// The detector while only the depth was laid: no trigger, no order of a later
/// name, and a bid below an ask.
pub open spec fn laid(m: ReactionModel, l: ReactionLimits, base: u64, next_oid: u64) -> bool {
    &&& m.pending == Seq::<PendingTrigger>::empty()
    &&& m.quiet_until == 0
    &&& m.book.within(l.max_book_levels as nat)
    &&& forall|k: u64| #[trigger] m.orders.contains_key(k) ==> k < next_oid
    &&& mini_book::top(m.book.bids, true) matches Some(p) ==> p <= base
    &&& mini_book::top(m.book.asks, false) matches Some(p) ==> p >= base
}

/// The best price once one more stands.
pub open spec fn better_of(best: Option<u64>, price: u64, is_bid: bool) -> Option<u64> {
    if best is None || mini_book::beats(is_bid, price, best->0) {
        Some(price)
    } else {
        best
    }
}

/// An add near the base changes nothing but the book and its orders.
proof fn lemma_lay(m: ReactionModel, l: ReactionLimits, base: u64, t: TapeModel, side: Side, off: u64)
    requires
        reaction_reach(l),
        laid(m, l, base, t.next_oid),
        0 < t.next_oid < u64::MAX,
        0 <= t.seq <= u64::MAX,
    ensures
        ({
            let u = t.sent_fresh(EventType::OrderAdd, side, tape::away(side, base, off), 500);
            let r = latency_arb_proxy::reaction_step(m, l, u.out.last());
            &&& r.1 is None
            &&& laid(r.0, l, base, u.next_oid)
            &&& match side {
                Side::Bid => {
                    &&& mini_book::top(r.0.book.bids, true) == better_of(
                        mini_book::top(m.book.bids, true),
                        tape::away(side, base, off),
                        true,
                    )
                    &&& r.0.book.asks == m.book.asks
                },
                Side::Ask => {
                    &&& mini_book::top(r.0.book.asks, false) == better_of(
                        mini_book::top(m.book.asks, false),
                        tape::away(side, base, off),
                        false,
                    )
                    &&& r.0.book.bids == m.book.bids
                },
            }
        }),
{
    let price = tape::away(side, base, off);
    let u = t.sent_fresh(EventType::OrderAdd, side, price, 500);
    let e = u.out.last();
    assert(e == tape::event_of(t.seq as u64, t.ts, EventType::OrderAdd, side, price, 500, t.next_oid));
    let is_bid = side == Side::Bid;
    let cap = l.max_book_levels as nat;
    let s = m.book.side(is_bid);
    mini_book::lemma_top_after_add(s, is_bid, price, 500, cap);
    let p = mini_book::piled(s, price, 500);
    assert(p.dom() =~= s.dom().insert(price));
    mini_book::pruning_keeps_the_best(p, is_bid, cap);
    let r = latency_arb_proxy::reaction_step(m, l, e).0;
    assert(r.orders.dom() =~= m.orders.dom().insert(t.next_oid));
    assert(r.book.within(cap)) by {
        assert(mini_book::trimmed(p, is_bid, cap).dom().finite());
    }
    assert(r.pending =~= Seq::<PendingTrigger>::empty());
    assert forall|k: u64| #[trigger] r.orders.contains_key(k) implies k < u.next_oid by {
        if k != t.next_oid {
            assert(m.orders.contains_key(k));
        }
    }
}

proof fn lemma_seeded(g: LatencyModel, l: ReactionLimits, t: TapeModel, n: nat)
    requires
        reaction_reach(l),
        t.out.len() == 0,
        0 <= t.seq,
        n <= u64::MAX,
        t.seq + 2 * n <= u64::MAX,
        0 < t.next_oid,
        t.next_oid + 2 * n < u64::MAX,
    ensures
        ({
            let u = latency::latency_seed(g, t, n);
            let r = closure::watched(reaction_detector(l), unprovoked(), u.out);
            &&& u.seq == t.seq + 2 * n
            &&& u.next_oid == t.next_oid + 2 * n
            &&& u.ts == t.ts
            &&& laid(r.0, l, g.base_price, u.next_oid)
            &&& mini_book::top(r.0.book.bids, true) == (if n > 0 {
                Some(tape::away(Side::Bid, g.base_price, 1))
            } else {
                None
            })
            &&& mini_book::top(r.0.book.asks, false) == (if n > 0 {
                Some(tape::away(Side::Ask, g.base_price, 1))
            } else {
                None
            })
        }),
    decreases n,
{
    let d = reaction_detector(l);
    let base = g.base_price;
    if n == 0 {
        assert(t.out =~= Seq::<SequencedEvent>::empty());
        assert(unprovoked().book.bids.dom() =~= Set::<u64>::empty());
        assert(unprovoked().book.asks.dom() =~= Set::<u64>::empty());
        assert(unprovoked().book.bids.len() == 0 && unprovoked().book.asks.len() == 0);
    } else {
        lemma_seeded(g, l, t, (n - 1) as nat);
        let a = latency::latency_seed(g, t, (n - 1) as nat);
        let b = a.sent_fresh(EventType::OrderAdd, Side::Bid, tape::away(Side::Bid, base, n as u64), 500);
        let c = b.sent_fresh(EventType::OrderAdd, Side::Ask, tape::away(Side::Ask, base, n as u64), 500);
        let m = closure::watched(d, unprovoked(), a.out).0;
        assert(b.out.drop_last() =~= a.out);
        assert(c.out.drop_last() =~= b.out);
        lemma_lay(m, l, base, a, Side::Bid, n as u64);
        let r = closure::watched(d, unprovoked(), b.out);
        assert(r.0 == latency_arb_proxy::reaction_step(m, l, b.out.last()).0);
        lemma_lay(r.0, l, base, b, Side::Ask, n as u64);
        assert(c == latency::latency_seed(g, t, n));
    }
}

/// The detector after a print and some of its reaction: one trigger that counts.
pub open spec fn provoked(
    m: ReactionModel,
    l: ReactionLimits,
    print: u64,
    other: Side,
    seq: int,
    count: int,
) -> bool {
    &&& m.pending.len() == 1
    &&& m.pending[0].seq == seq
    &&& m.pending[0].price == print
    &&& latency_arb_proxy::reacting_side(m.pending[0].dir) == event::side_code(other)
    &&& m.pending[0].burst_count == count
    &&& !m.pending[0].burst_qualified
    &&& m.quiet_until == 0
}

/// The print sets a trigger.
proof fn lemma_print(m: ReactionModel, l: ReactionLimits, base: u64, t: TapeModel, other: Side)
    requires
        reaction_reach(l),
        laid(m, l, base, t.next_oid),
        mini_book::top(m.book.bids, true) == Some(tape::away(Side::Bid, base, 1)),
        mini_book::top(m.book.asks, false) == Some(tape::away(Side::Ask, base, 1)),
        0 < t.next_oid,
        0 <= t.seq <= u64::MAX,
        base >= 2,
    ensures
        ({
            let side = match other {
                Side::Bid => Side::Ask,
                Side::Ask => Side::Bid,
            };
            let print = tape::away(side, base, 1);
            let u = t.sent_fresh(EventType::Trade, side, print, 400);
            let r = latency_arb_proxy::reaction_step(m, l, u.out.last());
            &&& r.1 is None
            &&& provoked(r.0, l, print, other, t.seq, 0)
        }),
{
    let side = match other {
        Side::Bid => Side::Ask,
        Side::Ask => Side::Bid,
    };
    let print = tape::away(side, base, 1);
    let u = t.sent_fresh(EventType::Trade, side, print, 400);
    let e = u.out.last();
    assert(e == tape::event_of(t.seq as u64, t.ts, EventType::Trade, side, print, 400, t.next_oid));
    assert(!m.orders.contains_key(t.next_oid));
    assert(m.book.mid() is Some);
    let (orders, c) = momentum_ignition::change_of(m.orders, e.event);
    let dir = match side {
        Side::Bid => AggressorSide::Sell,
        Side::Ask => AggressorSide::Buy,
    };
    assert(c == momentum_ignition::BookChange::Traded {
        is_bid: side == Side::Bid,
        price: print,
        qty: 400,
        aggressor: dir,
    });
    let book = latency_arb_proxy::reaction_book(m.book, c, l.max_book_levels as nat);
    assert(latency_arb_proxy::taker_of(print, m.book.mid()->0, dir) == dir);
    let trig = latency_arb_proxy::trigger_of(e, print, 400, dir, m.book.mid()->0);
    let pending = latency_arb_proxy::armed(m.pending, trig);
    assert(pending =~= seq![trig]);
    assert(pending.drop_last() =~= Seq::<PendingTrigger>::empty());
    reveal_with_fuel(latency_arb_proxy::settle_all, 2);
    let settled = latency_arb_proxy::settle_all(l, pending, e, book.mid(), false);
    assert(latency_arb_proxy::bursting(l, trig, e) == trig);
    assert(settled.0 =~= seq![trig]);
    assert(settled.0[0] == trig);
}

/// One event of the reaction counts; the one that makes it large enough flags.
proof fn lemma_react(
    m: ReactionModel,
    l: ReactionLimits,
    print: u64,
    other: Side,
    t: TapeModel,
    kind: EventType,
    off: u64,
    seq: int,
    count: int,
)
    requires
        reaction_reach(l),
        provoked(m, l, print, other, seq, count),
        0 <= count < l.min_burst,
        kind is OrderAdd || kind is OrderCancel,
        1 <= off <= 4,
        0 <= seq < t.seq <= u64::MAX,
        t.seq == seq + 1 + count,
    ensures
        ({
            let u = t.sent_fresh(kind, other, tape::away(other, print, off), 200);
            let r = latency_arb_proxy::reaction_step(m, l, u.out.last());
            if count + 1 == l.min_burst {
                r.1 matches Some(f) && closure::telling(f, ChaosKind::LatencyArbitrage)
            } else {
                r.1 is None && provoked(r.0, l, print, other, seq, count + 1)
            }
        }),
{
    let price = tape::away(other, print, off);
    let u = t.sent_fresh(kind, other, price, 200);
    let e = u.out.last();
    assert(e == tape::event_of(t.seq as u64, t.ts, kind, other, price, 200, t.next_oid));
    let (orders, c) = momentum_ignition::change_of(m.orders, e.event);
    let book = latency_arb_proxy::reaction_book(m.book, c, l.max_book_levels as nat);
    assert(!(c is Traded));
    let x = m.pending[0];
    assert(m.pending.last() == x);
    assert(m.pending.drop_last() =~= Seq::<PendingTrigger>::empty());
    reveal_with_fuel(latency_arb_proxy::settle_all, 2);
    assert(latency_arb_proxy::apart(price, print) <= 4);
    assert(latency_arb_proxy::in_window(l, x, e));
    assert(latency_arb_proxy::reacts(l, x, e));
    let y = latency_arb_proxy::bursting(l, x, e);
    assert(y.burst_count == count + 1);
    let settled = latency_arb_proxy::settle_all(l, m.pending, e, book.mid(), false);
    if count + 1 == l.min_burst {
        assert(y.burst_qualified);
        assert(settled.1 == Some(latency_arb_proxy::reaction_flag(l, y, e)));
    } else {
        assert(settled.0 =~= seq![y]);
        assert(settled.0[0] == y);
    }
}

proof fn lemma_reacted(
    m: ReactionModel,
    l: ReactionLimits,
    print: u64,
    other: Side,
    t: TapeModel,
    n: nat,
)
    requires
        reaction_reach(l),
        closure::watched(reaction_detector(l), unprovoked(), t.out).0 == m,
        provoked(m, l, print, other, t.seq - 1, 0),
        1 <= t.seq,
        t.seq + n <= u64::MAX,
        n <= l.min_burst,
    ensures
        ({
            let u = latency::reaction(t, other, print, n);
            let r = closure::watched(reaction_detector(l), unprovoked(), u.out);
            &&& u.seq == t.seq + n
            &&& u.out.len() == t.out.len() + n
            &&& n < l.min_burst ==> provoked(r.0, l, print, other, t.seq - 1, n as int)
            &&& n == l.min_burst ==> closure::told(r.1, ChaosKind::LatencyArbitrage)
        }),
    decreases n,
{
    let d = reaction_detector(l);
    if n > 0 {
        lemma_reacted(m, l, print, other, t, (n - 1) as nat);
        let a = latency::reaction(t, other, print, (n - 1) as nat);
        let k = n - 1;
        let kind = if k % 2 == 0 {
            EventType::OrderAdd
        } else {
            EventType::OrderCancel
        };
        let off = (k % 4 + 1) as u64;
        let b = a.sent_fresh(kind, other, tape::away(other, print, off), 200);
        assert(b.out.drop_last() =~= a.out);
        let p = closure::watched(d, unprovoked(), a.out);
        lemma_react(p.0, l, print, other, a, kind, off, t.seq - 1, n - 1);
        let u = latency::reaction(t, other, print, n);
        assert(u.out == b.out);
        let r = closure::watched(d, unprovoked(), u.out);
        if n == l.min_burst {
            assert(closure::telling(r.1[r.1.len() - 1], ChaosKind::LatencyArbitrage));
        }
    }
}

proof fn lemma_reaction_extends(t: TapeModel, side: Side, print: u64, k: nat, n: nat)
    requires
        k <= n,
    ensures
        ({
            let a = latency::reaction(t, side, print, k).out;
            let b = latency::reaction(t, side, print, n).out;
            a.len() <= b.len() && b.take(a.len() as int) == a
        }),
    decreases n,
{
    let a = latency::reaction(t, side, print, k).out;
    let b = latency::reaction(t, side, print, n).out;
    if k < n {
        lemma_reaction_extends(t, side, print, k, (n - 1) as nat);
        let c = latency::reaction(t, side, print, (n - 1) as nat).out;
        assert(b.take(a.len() as int) =~= c.take(a.len() as int));
    } else {
        assert(a.take(a.len() as int) =~= a);
    }
}

/// The first burst of a latency-arbitrage generator is flagged by a detector
/// that begins with it, whatever the seed and the severity, from two ticks up.
pub proof fn reactions_are_flagged(
    l: ReactionLimits,
    g: LatencyModel,
    now_ns: u64,
    base_seq: u64,
)
    requires
        reaction_reach(l),
        4 <= g.burst_size <= 16,
        !g.seeded,
        g.bursts_remaining > 0,
        g.base_price >= 2,
        0 < g.next_oid,
        g.next_oid + 40 < u64::MAX,
        base_seq + 40 <= u64::MAX,
    ensures
        ({
            let blank = tape::blank(g.rng, g.next_oid, base_seq, now_ns);
            let stream = latency::latency_burst(g, latency::latency_seed(g, blank, LATENCY_LEVELS as nat)).out;
            closure::told(
                closure::watched(reaction_detector(l), unprovoked(), stream).1,
                ChaosKind::LatencyArbitrage,
            )
        }),
{
    let d = reaction_detector(l);
    let blank = tape::blank(g.rng, g.next_oid, base_seq, now_ns);
    let t = latency::latency_seed(g, blank, LATENCY_LEVELS as nat);
    lemma_seeded(g, l, blank, LATENCY_LEVELS as nat);
    let m = closure::watched(d, unprovoked(), t.out).0;
    let other = t.coin();
    let side = match other {
        Side::Bid => Side::Ask,
        Side::Ask => Side::Bid,
    };
    let print = tape::away(side, g.base_price, 1);
    lemma_print(m, l, g.base_price, t, other);
    let u = t.drawn().sent_fresh(EventType::Trade, side, print, 400).later(100_000);
    assert(u.out.drop_last() =~= t.out);
    assert(u.out.last() == t.sent_fresh(EventType::Trade, side, print, 400).out.last());
    let p = closure::watched(d, unprovoked(), u.out).0;
    assert(provoked(p, l, print, other, u.seq - 1, 0));
    lemma_reacted(p, l, print, other, u, l.min_burst as nat);
    lemma_reaction_extends(u, other, print, l.min_burst as nat, g.burst_size as nat);
    let early = latency::reaction(u, other, print, l.min_burst as nat).out;
    let stream = latency::reaction(u, other, print, g.burst_size as nat).out;
    closure::lemma_told_early(d, unprovoked(), stream, early.len() as int, ChaosKind::LatencyArbitrage);
}

} // verus!
