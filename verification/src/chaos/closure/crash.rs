//! Flash crash.

use crate::book::event::{EventType, SequencedEvent, Side};
#[allow(unused_imports)]
use crate::book::event;
use crate::book::model::OrderMeta;
#[allow(unused_imports)]
use crate::chaos::closure;
use crate::chaos::flag::{ChaosEvent, ChaosKind};
use crate::chaos::flash_crash::{Aggression, CrashLimits, CrashModel, TopSnapshot};
use crate::chaos::order_tracker::AggressorSide;
#[allow(unused_imports)]
use crate::chaos::flash_crash;
#[allow(unused_imports)]
use crate::chaos::generators::{crash, tape};
use crate::chaos::generators::tape::TapeModel;
use crate::chaos::mini_book::MiniModel;
#[allow(unused_imports)]
use crate::chaos::mini_book;
#[allow(unused_imports)]
use crate::chaos::momentum_ignition;
#[allow(unused_imports)]
use crate::ordered;
use vstd::prelude::*;

verus! {

/// Crash detection.
pub open spec fn crash_detector(l: CrashLimits) -> spec_fn(CrashModel, SequencedEvent) -> (
    CrashModel,
    Option<ChaosEvent>,
) {
    |m: CrashModel, e: SequencedEvent| flash_crash::crash_step(m, l, e)
}

/// A detector that has seen nothing.
pub open spec fn undisturbed() -> CrashModel {
    CrashModel {
        book: MiniModel::empty(),
        orders: Map::empty(),
        snaps: Seq::empty(),
        trades: Seq::empty(),
        quiet_until: 0,
    }
}

/// Limits that a fall by half of two hundred ticks, with 65 in a hundred of the
/// touch gone and three trades after it, comes to at a price.
pub open spec fn crash_reach(l: CrashLimits, base: u64) -> bool {
    &&& 6 <= l.gap_window_events <= 15
    &&& l.max_book_levels >= 2
    &&& l.depth_band_ticks <= 198
    &&& l.depth_drop.wf()
    &&& 100 * l.depth_drop.num <= 65 * l.depth_drop.den
    &&& 1 <= l.min_aggr_trades <= 3
    &&& 200 < base <= 0x7fff_ffff_ffff_fc00
    &&& l.min_gap_bps * base <= 1_000_000
}

/// One level, or two.
pub open spec fn one_level(p: u64, q: u64) -> Map<u64, u64> {
    Map::<u64, u64>::empty().insert(p, q)
}

/// Two levels.
pub open spec fn two_levels(p: u64, q: u64, r: u64, s: u64) -> Map<u64, u64> {
    one_level(p, q).insert(r, s)
}

proof fn lemma_one(p: u64, q: u64, is_bid: bool, lo: u64, hi: u64)
    ensures
        mini_book::top(one_level(p, q), is_bid) == Some(p),
        one_level(p, q).dom().finite(),
        one_level(p, q).len() == 1,
        mini_book::band(one_level(p, q), lo, hi) == if lo <= p <= hi {
            q as nat
        } else {
            0
        },
{
    let m = one_level(p, q);
    let none = Map::<u64, u64>::empty();
    assert(m.dom() =~= set![p]);
    if is_bid {
        assert(ordered::is_max_key(m, p));
        ordered::lemma_last_key(m, p);
    } else {
        assert(ordered::is_min_key(m, p));
        ordered::lemma_first_key(m, p);
    }
    assert(none.dom() =~= Set::<u64>::empty());
    mini_book::lemma_band_insert(none, lo, hi, p, q);
    assert(mini_book::band(none, lo, hi) == 0);
}

proof fn lemma_two(p: u64, q: u64, r: u64, s: u64, is_bid: bool, lo: u64, hi: u64)
    requires
        mini_book::beats(is_bid, p, r),
    ensures
        mini_book::top(two_levels(p, q, r, s), is_bid) == Some(p),
        two_levels(p, q, r, s).dom().finite(),
        two_levels(p, q, r, s).len() == 2,
        mini_book::band(two_levels(p, q, r, s), lo, hi) == (if lo <= p <= hi {
            q as nat
        } else {
            0
        }) + (if lo <= r <= hi {
            s as nat
        } else {
            0
        }),
{
    let m = two_levels(p, q, r, s);
    lemma_one(p, q, is_bid, lo, hi);
    assert(m.dom() =~= set![p, r]);
    if is_bid {
        assert(ordered::is_max_key(m, p));
        ordered::lemma_last_key(m, p);
    } else {
        assert(ordered::is_min_key(m, p));
        ordered::lemma_first_key(m, p);
    }
    mini_book::lemma_band_insert(one_level(p, q), lo, hi, r, s);
}

/// The top before the third order: the touch alone.
pub open spec fn touch(base: u64, e: SequencedEvent) -> TopSnapshot {
    TopSnapshot {
        seq: e.seq,
        ts: e.event.ts,
        mid: base,
        best_bid: (base - 1) as u64,
        best_ask: (base + 1) as u64,
        depth_in_band: 8_000,
    }
}

/// The top was remembered since the touch was laid, and some sold into it.
pub open spec fn shaken(
    m: CrashModel,
    bids: Map<u64, u64>,
    asks: Map<u64, u64>,
    snaps: int,
    sells: int,
    next_oid: u64,
) -> bool {
    &&& m.book.bids == bids
    &&& m.book.asks == asks
    &&& m.snaps.len() == snaps
    &&& m.trades.len() == sells
    &&& m.quiet_until == 0
    &&& forall|x: u64| #[trigger] m.orders.contains_key(x) ==> x < next_oid
}

/// All trades sold, none of them before an event.
pub open spec fn sold_since(trades: Seq<Aggression>, seq: int) -> bool {
    forall|k: int|
        0 <= k < trades.len() ==> (#[trigger] trades[k]).side == AggressorSide::Sell && trades[k].seq >= seq
}

/// Then all of them push, as long as the window reaches back to that event.
proof fn lemma_all_push(l: CrashLimits, trades: Seq<Aggression>, seq: u64, from: int)
    requires
        sold_since(trades, from),
        seq - from <= l.gap_window_events,
    ensures
        flash_crash::pushing(l, trades, seq, AggressorSide::Sell) == trades.len(),
        flash_crash::pushing(l, trades, seq, AggressorSide::Buy) == 0,
    decreases trades.len(),
{
    if trades.len() > 0 {
        let d = trades.drop_last();
        assert(sold_since(d, from)) by {
            assert forall|k: int| 0 <= k < d.len() implies (#[trigger] d[k]).side == AggressorSide::Sell
                && d[k].seq >= from by {
                assert(d[k] == trades[k]);
            }
        }
        lemma_all_push(l, d, seq, from);
        assert(trades.last() == trades[trades.len() - 1]);
    }
}

/// Without enough trades there is no flag, whatever the book does.
proof fn lemma_unflagged(m: CrashModel, l: CrashLimits, base: u64, e: SequencedEvent)
    requires
        crash_reach(l, base),
        1 <= e.event.event_type <= 4,
        m.quiet_until == 0,
        m.snaps.len() <= 6,
        ({
            let n = flash_crash::crash_mutated(m, l, e);
            n.trades.len() < l.min_aggr_trades
        }),
    ensures
        ({
            let n = flash_crash::crash_mutated(m, l, e);
            let r = flash_crash::crash_step(m, l, e);
            &&& r.1 is None
            &&& r.0.book == n.book
            &&& r.0.orders == n.orders
            &&& r.0.trades == n.trades
            &&& r.0.quiet_until == 0
            &&& r.0.snaps == flash_crash::with_snapshot(m, l, e)
            &&& m.book.mid() is None ==> r.0.snaps == m.snaps
            &&& m.book.mid() is Some ==> {
                &&& r.0.snaps.len() == m.snaps.len() + 1
                &&& r.0.snaps.drop_last() == m.snaps
            }
        }),
{
    let s = CrashModel { snaps: flash_crash::with_snapshot(m, l, e), ..m };
    let n = flash_crash::crash_mutated(s, l, e);
    assert(n == CrashModel { snaps: s.snaps, ..flash_crash::crash_mutated(m, l, e) });
    flash_crash::lemma_pushing(l, n.trades, e.seq, AggressorSide::Buy);
    flash_crash::lemma_pushing(l, n.trades, e.seq, AggressorSide::Sell);
    if m.book.mid() is Some {
        assert(s.snaps.drop_last() =~= m.snaps);
    }
}

/// What an order of the touch is remembered as.
pub open spec fn resting(price: u64, qty: u64, side: u8) -> OrderMeta {
    OrderMeta { price, qty, side }
}

proof fn lemma_sent(t: TapeModel, kind: EventType, side: Side, price: u64, qty: u64, id: u64)
    ensures
        ({
            let u = t.sent(kind, side, price, qty, id);
            &&& u.out.last() == tape::event_of(t.seq as u64, t.ts, kind, side, price, qty, id)
            &&& u.out.drop_last() == t.out
            &&& u.out.len() == t.out.len() + 1
        }),
{
    let u = t.sent(kind, side, price, qty, id);
    assert(u.out.drop_last() =~= t.out);
}

/// The four orders of the touch and behind it.
proof fn lemma_laid(l: CrashLimits, g: crash::CrashModel, t: TapeModel)
    requires
        crash_reach(l, g.base_price),
        t.out.len() == 0,
        0 <= t.seq,
        t.seq + 20 < u64::MAX,
        0 < t.next_oid,
        t.next_oid + 20 < u64::MAX,
    ensures
        ({
            let b = g.base_price;
            let u = crash::crash_seed(g, t);
            let m = closure::watched(crash_detector(l), undisturbed(), u.out).0;
            let id = t.next_oid;
            &&& u.seq == t.seq + 4
            &&& u.next_oid == t.next_oid + 4
            &&& u.out.len() == 4
            &&& shaken(
                m,
                two_levels((b - 1) as u64, 5_000, (b - 200) as u64, 200),
                two_levels((b + 1) as u64, 3_000, (b + 200) as u64, 200),
                2,
                0,
                u.next_oid,
            )
            &&& m.snaps[0] == touch(b, u.out[2])
            &&& u.out[2].seq == t.seq + 2
            &&& m.orders.contains_key(id)
            &&& m.orders[id] == resting((b - 1) as u64, 5_000, 0)
            &&& m.orders.contains_key((id + 1) as u64)
            &&& m.orders[(id + 1) as u64] == resting((b + 1) as u64, 3_000, 1)
        }),
{
    let d = crash_detector(l);
    let b = g.base_price;
    let (p, q, x, y) = ((b - 1) as u64, (b + 1) as u64, (b - 200) as u64, (b + 200) as u64);
    let cap = l.max_book_levels as nat;
    let ticks = l.depth_band_ticks;
    let (lo, hi) = (momentum_ignition::since(p, ticks), momentum_ignition::later(q, ticks));
    let none = Map::<u64, u64>::empty();
    assert(none.dom() =~= Set::<u64>::empty());
    let a0 = t.sent_fresh(EventType::OrderAdd, Side::Bid, p, 5_000);
    let a1 = a0.sent_fresh(EventType::OrderAdd, Side::Ask, q, 3_000);
    let a2 = a1.sent_fresh(EventType::OrderAdd, Side::Bid, x, 200);
    let a3 = a2.sent_fresh(EventType::OrderAdd, Side::Ask, y, 200);
    assert(a3 == crash::crash_seed(g, t));
    lemma_sent(t, EventType::OrderAdd, Side::Bid, p, 5_000, t.next_oid);
    lemma_sent(a0, EventType::OrderAdd, Side::Ask, q, 3_000, a0.next_oid);
    lemma_sent(a1, EventType::OrderAdd, Side::Bid, x, 200, a1.next_oid);
    lemma_sent(a2, EventType::OrderAdd, Side::Ask, y, 200, a2.next_oid);
    assert(t.out =~= Seq::<SequencedEvent>::empty());
    lemma_one(p, 5_000, true, lo, p);
    lemma_one(q, 3_000, false, q, hi);
    lemma_two(p, 5_000, x, 200, true, lo, p);
    lemma_two(q, 3_000, y, 200, false, q, hi);
    assert(mini_book::piled(none, p, 5_000) =~= one_level(p, 5_000));
    assert(mini_book::piled(none, q, 3_000) =~= one_level(q, 3_000));
    assert(mini_book::piled(one_level(p, 5_000), x, 200) =~= two_levels(p, 5_000, x, 200));
    assert(mini_book::piled(one_level(q, 3_000), y, 200) =~= two_levels(q, 3_000, y, 200));
    let m0 = undisturbed();
    assert(closure::watched(d, m0, t.out).0 == m0);
    assert(m0.book.mid() is None);
    lemma_unflagged(m0, l, b, a0.out.last());
    let m1 = closure::watched(d, undisturbed(), a0.out).0;
    assert(m1 == flash_crash::crash_step(m0, l, a0.out.last()).0);
    assert(m1.book == MiniModel { bids: one_level(p, 5_000), asks: none });
    assert(m1.book.mid() is None);
    lemma_unflagged(m1, l, b, a1.out.last());
    let m2 = closure::watched(d, undisturbed(), a1.out).0;
    assert(m2 == flash_crash::crash_step(m1, l, a1.out.last()).0);
    assert(m2.book == MiniModel { bids: one_level(p, 5_000), asks: one_level(q, 3_000) });
    assert(m2.book.mid() == Some(b));
    assert(m2.snaps =~= Seq::<TopSnapshot>::empty());
    lemma_unflagged(m2, l, b, a2.out.last());
    let m3 = closure::watched(d, undisturbed(), a2.out).0;
    assert(m3 == flash_crash::crash_step(m2, l, a2.out.last()).0);
    assert(m3.book == MiniModel { bids: two_levels(p, 5_000, x, 200), asks: one_level(q, 3_000) });
    assert(m3.snaps[0] == touch(b, a2.out.last()));
    assert(m3.book.mid() == Some(b));
    lemma_unflagged(m3, l, b, a3.out.last());
    let m4 = closure::watched(d, undisturbed(), a3.out).0;
    assert(m4 == flash_crash::crash_step(m3, l, a3.out.last()).0);
    assert(m4.snaps[0] == m4.snaps.drop_last()[0]);
    assert(a3.out[2] == a2.out.last()) by {
        assert(a3.out.drop_last()[2] == a3.out[2]);
    }
    let id = t.next_oid;
    assert(m4.orders.dom() =~= set![id, (id + 1) as u64, (id + 2) as u64, (id + 3) as u64]);
}

/// The touch is taken away: the bid in full, the ask in part.
proof fn lemma_bared(l: CrashLimits, g: crash::CrashModel, t: TapeModel)
    requires
        crash_reach(l, g.base_price),
        5_200 <= g.want_drop <= 7_600,
        t.out.len() == 0,
        0 <= t.seq,
        t.seq + 20 < u64::MAX,
        0 < t.next_oid,
        t.next_oid + 20 < u64::MAX,
    ensures
        ({
            let b = g.base_price;
            let u = crash_bare(g, crash::crash_seed(g, t).later(1_000), t.next_oid, (t.next_oid + 1) as u64);
            let m = closure::watched(crash_detector(l), undisturbed(), u.out).0;
            &&& u.seq == t.seq + 6
            &&& u.next_oid == t.next_oid + 4
            &&& u.out.len() == 6
            &&& shaken(
                m,
                one_level((b - 200) as u64, 200),
                two_levels((b + 1) as u64, (8_000 - g.want_drop) as u64, (b + 200) as u64, 200),
                4,
                0,
                u.next_oid,
            )
            &&& m.snaps[0] == touch(b, u.out[2])
            &&& u.out[2].seq == t.seq + 2
        }),
{
    let d = crash_detector(l);
    let b = g.base_price;
    let (p, q, x, y) = ((b - 1) as u64, (b + 1) as u64, (b - 200) as u64, (b + 200) as u64);
    let seeded = crash::crash_seed(g, t);
    let a = seeded.later(1_000);
    let id = t.next_oid;
    let id1 = (id + 1) as u64;
    let cut = crash::ask_cut(g);
    assert(cut == g.want_drop - 5_000);
    lemma_laid(l, g, t);
    let m0 = closure::watched(d, undisturbed(), a.out).0;
    let c0 = a.sent(EventType::OrderCancel, Side::Bid, p, 5_000, id);
    let c1 = c0.later(20_000).sent(EventType::OrderCancel, Side::Ask, q, cut, id1);
    lemma_sent(a, EventType::OrderCancel, Side::Bid, p, 5_000, id);
    lemma_sent(c0.later(20_000), EventType::OrderCancel, Side::Ask, q, cut, id1);
    lemma_two(p, 5_000, x, 200, true, 0, 0);
    lemma_two(q, 3_000, y, 200, false, 0, 0);
    lemma_one(x, 200, true, 0, 0);
    assert(two_levels(p, 5_000, x, 200)[p] == 5_000);
    assert(mini_book::taken(two_levels(p, 5_000, x, 200), p, 5_000) =~= one_level(x, 200));
    assert(two_levels(q, 3_000, y, 200)[q] == 3_000);
    assert(mini_book::taken(two_levels(q, 3_000, y, 200), q, cut) =~= two_levels(
        q,
        (3_000 - cut) as u64,
        y,
        200,
    ));
    assert(m0.book.mid() == Some(b));
    lemma_unflagged(m0, l, b, c0.out.last());
    let m1 = closure::watched(d, undisturbed(), c0.out).0;
    assert(m1 == flash_crash::crash_step(m0, l, c0.out.last()).0);
    assert(m1.book == MiniModel { bids: one_level(x, 200), asks: two_levels(q, 3_000, y, 200) });
    assert(m1.snaps[0] == m1.snaps.drop_last()[0]);
    assert(m1.book.mid() is Some);
    assert(m1.orders.contains_key(id1) && m1.orders[id1] == resting(q, 3_000, 1));
    lemma_unflagged(m1, l, b, c1.out.last());
    let m2 = closure::watched(d, undisturbed(), c1.out).0;
    assert(m2 == flash_crash::crash_step(m1, l, c1.out.last()).0);
    assert(m2.snaps[0] == m2.snaps.drop_last()[0]);
    assert(c1.out[2] == seeded.out[2]) by {
        assert(c1.out.drop_last()[2] == c1.out[2]);
        assert(c0.out.drop_last()[2] == c0.out[2]);
    }
    assert forall|k: u64| #[trigger] m2.orders.contains_key(k) implies k < c1.next_oid by {
        assert(m1.orders.contains_key(k));
        assert(m0.orders.contains_key(k));
    }
}

/// The two cancels of a burst.
pub open spec fn crash_bare(g: crash::CrashModel, t: TapeModel, bid_id: u64, ask_id: u64) -> TapeModel {
    let bare = t.sent(
        EventType::OrderCancel,
        Side::Bid,
        tape::away(Side::Bid, g.base_price, 1),
        crash::TOUCH_BID,
        bid_id,
    ).later(20_000);
    if crash::ask_cut(g) > 0 {
        bare.sent(
            EventType::OrderCancel,
            Side::Ask,
            tape::away(Side::Ask, g.base_price, 1),
            crash::ask_cut(g),
            ask_id,
        ).later(20_000)
    } else {
        bare
    }
}

/// One trade behind the touch: a flag once there are enough, else one more.
proof fn lemma_sold(l: CrashLimits, g: crash::CrashModel, m: CrashModel, t: TapeModel, first: int, e2: SequencedEvent, i: int)
    requires
        crash_reach(l, g.base_price),
        5_200 <= g.want_drop <= 7_600,
        0 <= i < l.min_aggr_trades,
        shaken(
            m,
            one_level((g.base_price - 200) as u64, (200 - 50 * i) as u64),
            two_levels(
                (g.base_price + 1) as u64,
                (8_000 - g.want_drop) as u64,
                (g.base_price + 200) as u64,
                200,
            ),
            4 + i,
            i,
            t.next_oid,
        ),
        m.snaps[0] == touch(g.base_price, e2),
        sold_since(m.trades, first + 6),
        e2.seq == first + 2,
        0 <= first,
        t.seq == first + 6 + i,
        t.seq + 10 < u64::MAX,
        0 < t.next_oid < u64::MAX,
    ensures
        ({
            let b = g.base_price;
            let u = t.sent_fresh(EventType::Trade, Side::Bid, (b - 200) as u64, 50);
            let r = flash_crash::crash_step(m, l, u.out.last());
            if i + 1 == l.min_aggr_trades {
                r.1 matches Some(f) && closure::telling(f, ChaosKind::FlashCrash)
            } else {
                &&& r.1 is None
                &&& shaken(
                    r.0,
                    one_level((b - 200) as u64, (150 - 50 * i) as u64),
                    two_levels((b + 1) as u64, (8_000 - g.want_drop) as u64, (b + 200) as u64, 200),
                    5 + i,
                    i + 1,
                    u.next_oid,
                )
                &&& r.0.snaps[0] == touch(b, e2)
                &&& sold_since(r.0.trades, first + 6)
            }
        }),
{
    let b = g.base_price;
    let (p, q, x, y) = ((b - 1) as u64, (b + 1) as u64, (b - 200) as u64, (b + 200) as u64);
    let u = t.sent_fresh(EventType::Trade, Side::Bid, x, 50);
    lemma_sent(t, EventType::Trade, Side::Bid, x, 50, t.next_oid);
    let e = u.out.last();
    let ticks = l.depth_band_ticks;
    let (lo, hi) = (momentum_ignition::since(p, ticks), momentum_ignition::later(q, ticks));
    let have = (200 - 50 * i) as u64;
    let left = (150 - 50 * i) as u64;
    let rest = (8_000 - g.want_drop) as u64;
    assert(!m.orders.contains_key(t.next_oid));
    assert(one_level(x, have)[x] == have);
    assert(mini_book::taken(one_level(x, have), x, 50) =~= one_level(x, left));
    lemma_one(x, have, true, lo, p);
    lemma_one(x, left, true, lo, p);
    lemma_two(q, rest, y, 200, false, q, hi);
    assert(m.book.mid() == Some((b - 100) as u64));
    let n = flash_crash::crash_mutated(m, l, e);
    assert(n.book == MiniModel { bids: one_level(x, left), asks: two_levels(q, rest, y, 200) });
    assert(n.trades =~= m.trades.push(Aggression { seq: e.seq, side: AggressorSide::Sell }));
    assert(sold_since(n.trades, first + 6)) by {
        assert forall|k: int| 0 <= k < n.trades.len() implies (#[trigger] n.trades[k]).side
            == AggressorSide::Sell && n.trades[k].seq >= first + 6 by {
            if k < m.trades.len() {
                assert(n.trades[k] == m.trades[k]);
            }
        }
    }
    lemma_all_push(l, n.trades, e.seq, first + 6);
    if i + 1 < l.min_aggr_trades {
        lemma_unflagged(m, l, b, e);
        let r = flash_crash::crash_step(m, l, e).0;
        assert(r.snaps[0] == r.snaps.drop_last()[0]);
    } else {
        let s = CrashModel { snaps: flash_crash::with_snapshot(m, l, e), ..m };
        let z = flash_crash::crash_mutated(s, l, e);
        assert(z == CrashModel { snaps: s.snaps, ..n });
        assert(s.snaps[0] == m.snaps[0]);
        let mid = (b - 100) as u64;
        assert(z.book.mid() == Some(mid));
        let bps = momentum_ignition::bps_of(b, mid);
        assert(1_000_000int / (b as int) >= l.min_gap_bps) by (nonlinear_arith)
            requires
                l.min_gap_bps * b <= 1_000_000,
                b > 0,
        ;
        assert(1_000_000int / (b as int) <= 1_000_000) by (nonlinear_arith)
            requires
                b > 0,
        ;
        assert(bps >= l.min_gap_bps);
        assert(flash_crash::is_gap(l, z.snaps[0], e.seq, mid));
        assert(flash_crash::first_gap(l, z.snaps, e.seq, mid) == Some(z.snaps[0]));
        let now = flash_crash::depth_around(z.book, p, q, ticks);
        assert(now == rest);
        assert(flash_crash::vanished(8_000, now) == g.want_drop);
        assert(flash_crash::collapsed(l, 8_000, now)) by {
            let (wd, dn, dd) = (g.want_drop as int, l.depth_drop.num as int, l.depth_drop.den as int);
            assert(wd * dd >= dn * 8_000) by (nonlinear_arith)
                requires
                    wd >= 5_200,
                    100 * dn <= 65 * dd,
                    dd > 0,
            ;
        }
        if l.min_gap_bps > 0 {
            assert(bps > 0);
        }
    }
}

proof fn lemma_trades_extend(t: TapeModel, side: Side, price: u64, k: nat, n: nat)
    requires
        k <= n,
    ensures
        ({
            let a = crash::crash_trades(t, side, price, k).out;
            let b = crash::crash_trades(t, side, price, n).out;
            a.len() <= b.len() && b.take(a.len() as int) == a
        }),
    decreases n,
{
    let a = crash::crash_trades(t, side, price, k).out;
    let b = crash::crash_trades(t, side, price, n).out;
    if k < n {
        lemma_trades_extend(t, side, price, k, (n - 1) as nat);
        let c = crash::crash_trades(t, side, price, (n - 1) as nat).out;
        assert(b.take(a.len() as int) =~= c.take(a.len() as int));
    } else {
        assert(a.take(a.len() as int) =~= a);
    }
}

/// Some trades behind the touch.
proof fn lemma_selling(l: CrashLimits, g: crash::CrashModel, t: TapeModel, first: int, e2: SequencedEvent, n: nat)
    requires
        crash_reach(l, g.base_price),
        5_200 <= g.want_drop <= 7_600,
        n <= l.min_aggr_trades,
        ({
            let b = g.base_price;
            let m = closure::watched(crash_detector(l), undisturbed(), t.out).0;
            &&& shaken(
                m,
                one_level((b - 200) as u64, 200),
                two_levels((b + 1) as u64, (8_000 - g.want_drop) as u64, (b + 200) as u64, 200),
                4,
                0,
                t.next_oid,
            )
            &&& m.snaps[0] == touch(b, e2)
        }),
        e2.seq == first + 2,
        0 <= first,
        t.seq == first + 6,
        t.seq + 20 < u64::MAX,
        0 < t.next_oid,
        t.next_oid + 10 < u64::MAX,
    ensures
        ({
            let b = g.base_price;
            let u = crash::crash_trades(t, Side::Bid, (b - 200) as u64, n);
            let r = closure::watched(crash_detector(l), undisturbed(), u.out);
            &&& u.seq == t.seq + n
            &&& u.next_oid == t.next_oid + n
            &&& if n == l.min_aggr_trades {
                closure::told(r.1, ChaosKind::FlashCrash)
            } else {
                &&& shaken(
                    r.0,
                    one_level((b - 200) as u64, (200 - 50 * n) as u64),
                    two_levels((b + 1) as u64, (8_000 - g.want_drop) as u64, (b + 200) as u64, 200),
                    4 + (n as int),
                    n as int,
                    u.next_oid,
                )
                &&& r.0.snaps[0] == touch(b, e2)
                &&& sold_since(r.0.trades, first + 6)
            }
        }),
    decreases n,
{
    if n > 0 {
        let d = crash_detector(l);
        let x = (g.base_price - 200) as u64;
        lemma_selling(l, g, t, first, e2, (n - 1) as nat);
        let a = crash::crash_trades(t, Side::Bid, x, (n - 1) as nat);
        let c = a.sent_fresh(EventType::Trade, Side::Bid, x, 50);
        lemma_sent(a, EventType::Trade, Side::Bid, x, 50, a.next_oid);
        let p = closure::watched(d, undisturbed(), a.out);
        lemma_sold(l, g, p.0, a, first, e2, n - 1);
        let u = crash::crash_trades(t, Side::Bid, x, n);
        assert(u.out == c.out);
        let r = closure::watched(d, undisturbed(), u.out);
        if n == l.min_aggr_trades {
            assert(closure::telling(r.1[r.1.len() - 1], ChaosKind::FlashCrash));
        }
    }
}

/// The first burst of a generator that crashes down is flagged by a detector that
/// begins with it, whatever the seed and the severity, as far as its two hundred
/// ticks are a gap at the price.
pub proof fn crashes_are_flagged(l: CrashLimits, g: crash::CrashModel, now_ns: u64, base_seq: u64)
    requires
        crash_reach(l, g.base_price),
        5_200 <= g.want_drop <= 7_600,
        g.crash_down,
        0 < g.next_oid,
        g.next_oid + 20 < u64::MAX,
        base_seq + 40 < u64::MAX,
    ensures
        ({
            let blank = tape::blank(g.rng, g.next_oid, base_seq, now_ns);
            let stream = crash::crash_burst(
                g,
                crash::crash_seed(g, blank).later(1_000),
                g.next_oid,
                g.next_oid.wrapping_add(1),
            ).out;
            closure::told(
                closure::watched(crash_detector(l), undisturbed(), stream).1,
                ChaosKind::FlashCrash,
            )
        }),
{
    let blank = tape::blank(g.rng, g.next_oid, base_seq, now_ns);
    let id1 = (g.next_oid + 1) as u64;
    let seeded = crash::crash_seed(g, blank).later(1_000);
    let t = crash_bare(g, seeded, g.next_oid, id1);
    lemma_bared(l, g, blank);
    let x = (g.base_price - 200) as u64;
    lemma_selling(l, g, t, base_seq as int, t.out[2], l.min_aggr_trades as nat);
    lemma_trades_extend(t, Side::Bid, x, l.min_aggr_trades as nat, 4);
    let early = crash::crash_trades(t, Side::Bid, x, l.min_aggr_trades as nat).out;
    let stream = crash::crash_trades(t, Side::Bid, x, 4).out;
    assert(crash::crash_burst(g, seeded, g.next_oid, g.next_oid.wrapping_add(1)).out == stream);
    closure::lemma_told_early(
        crash_detector(l),
        undisturbed(),
        stream,
        early.len() as int,
        ChaosKind::FlashCrash,
    );
}

} // verus!
