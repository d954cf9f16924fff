//! Momentum ignition.

use crate::book::event::{EventType, SequencedEvent, Side};
#[allow(unused_imports)]
use crate::book::event;
#[allow(unused_imports)]
use crate::chaos::closure;
use crate::chaos::flag::{ChaosEvent, ChaosKind};
use crate::chaos::generators::momentum::MomentumModel;
#[allow(unused_imports)]
use crate::chaos::generators::{momentum, tape};
use crate::chaos::generators::tape::TapeModel;
use crate::chaos::mini_book::MiniModel;
#[allow(unused_imports)]
use crate::chaos::mini_book;
use crate::chaos::momentum_ignition::{Dir, IgnitionLimits, IgnitionModel, MidSample, Run};
#[allow(unused_imports)]
use crate::chaos::momentum_ignition;
#[allow(unused_imports)]
use crate::ordered;
use vstd::prelude::*;

verus! {

/// Detection of ignitions.
pub open spec fn ignition_detector(l: IgnitionLimits) -> spec_fn(IgnitionModel, SequencedEvent) -> (
    IgnitionModel,
    Option<ChaosEvent>,
) {
    |m: IgnitionModel, e: SequencedEvent| momentum_ignition::ignition_step(m, l, e)
}

/// A detector that has seen nothing.
pub open spec fn calm() -> IgnitionModel {
    IgnitionModel {
        book: MiniModel::empty(),
        orders: Map::empty(),
        mids: Seq::empty(),
        buys: 0,
        sells: 0,
        run: Run { dir: None, len: 0, start: MidSample { seq: 0, ts: 0, mid: 0 } },
        quiet_until: 0,
    }
}

/// Limits that sixteen stairs of a ten-thousandth each come to.
pub open spec fn ignition_reach(l: IgnitionLimits) -> bool {
    &&& l.seq_window == 0 || l.seq_window >= 50
    &&& l.time_window_ns == 0
    &&& l.max_book_levels >= 2
    &&& l.min_move_bps <= 8
    &&& l.min_trades <= 8
    &&& l.min_consecutive <= 9
}

/// The way a generator goes.
pub open spec fn heading(up: bool) -> Dir {
    if up {
        Dir::Up
    } else {
        Dir::Down
    }
}

/// `q` is not behind `p`.
pub open spec fn ahead(up: bool, p: u64, q: u64) -> bool {
    if up {
        q >= p
    } else {
        q <= p
    }
}

/// The samples since `first` rise, or fall, from `base` to `mid`, in at least
/// `len` of them.
pub open spec fn running(m: IgnitionModel, up: bool, base: u64, mid: u64, first: int, len: int) -> bool {
    &&& m.mids.len() >= 1
    &&& m.mids[0].seq >= first
    &&& m.mids.last().seq >= first
    &&& m.mids.last().mid == mid
    &&& m.run.start.seq >= first
    &&& m.run.start.mid == base
    &&& len <= m.run.len <= 1_000
    &&& m.run.dir == Some(heading(up)) || (m.run.dir is None && m.run.len == 1 && mid == base)
}

/// A sample that is not behind goes on with the run.
proof fn lemma_sample(
    m: IgnitionModel,
    l: IgnitionLimits,
    up: bool,
    base: u64,
    mid: u64,
    next: u64,
    e: SequencedEvent,
    first: int,
    len: int,
)
    requires
        ignition_reach(l),
        running(m, up, base, mid, first, len),
        m.run.len < 1_000,
        ahead(up, mid, next),
        0 <= first <= e.seq,
        e.seq - first <= 50,
    ensures
        ({
            let s = momentum_ignition::ignition_sampled(m, l, next, e);
            &&& running(
                s,
                up,
                base,
                next,
                first,
                if next != mid {
                    len + 1
                } else {
                    len
                },
            )
            &&& s.run.len <= m.run.len + 1
            &&& s.book == m.book
            &&& s.orders == m.orders
            &&& s.buys == m.buys
            &&& s.sells == m.sells
            &&& s.quiet_until == m.quiet_until
        }),
{
    let sample = MidSample { seq: e.seq, ts: e.event.ts, mid: next };
    let more = if next != mid {
        m.mids.push(sample)
    } else {
        m.mids
    };
    assert(more[0].seq >= first) by {
        assert(more[0] == m.mids[0]);
    }
    assert(momentum_ignition::since(e.seq, more[0].seq) <= 50);
    assert(momentum_ignition::unexpired(more, e.seq, e.event.ts, l) == more);
    if next != mid {
        assert(more.last() == sample);
        assert(more[more.len() - 2] == m.mids.last());
    }
}

/// One event after which the mid is not behind: a flag, or the run goes on.
proof fn lemma_moved(
    m: IgnitionModel,
    l: IgnitionLimits,
    up: bool,
    base: u64,
    mid: u64,
    next: u64,
    e: SequencedEvent,
    first: int,
    len: int,
)
    requires
        ignition_reach(l),
        1 <= e.event.event_type <= 4,
        running(m, up, base, mid, first, len),
        m.run.len < 1_000,
        m.quiet_until == 0,
        ahead(up, mid, next),
        0 <= first <= e.seq,
        e.seq - first <= 50,
        ({
            let n = momentum_ignition::ignition_mutated(m, l, e.event);
            n.book.mid() == Some(next)
        }),
    ensures
        ({
            let n = momentum_ignition::ignition_mutated(m, l, e.event);
            let r = momentum_ignition::ignition_step(m, l, e);
            match r.1 {
                Some(f) => closure::telling(f, ChaosKind::MomentumIgnition),
                None => {
                    &&& running(
                        r.0,
                        up,
                        base,
                        next,
                        first,
                        if next != mid {
                            len + 1
                        } else {
                            len
                        },
                    )
                    &&& r.0.run.len <= m.run.len + 1
                    &&& r.0.book == n.book
                    &&& r.0.orders == n.orders
                    &&& r.0.buys == n.buys
                    &&& r.0.sells == n.sells
                    &&& r.0.quiet_until == 0
                    &&& !momentum_ignition::ignited(r.0, l, next)
                },
            }
        }),
{
    let n = momentum_ignition::ignition_mutated(m, l, e.event);
    assert(running(n, up, base, mid, first, len));
    lemma_sample(n, l, up, base, mid, next, e, first, len);
}

/// The mid of a generator's quotes.
pub open spec fn mid_now(g: MomentumModel) -> u64 {
    ((g.bid + g.ask) / 2) as u64
}

/// The quote that is traded through.
pub open spec fn lead(g: MomentumModel) -> u64 {
    if g.up {
        g.ask
    } else {
        g.bid
    }
}

/// The quote that comes after.
pub open spec fn follower(g: MomentumModel) -> u64 {
    if g.up {
        g.bid
    } else {
        g.ask
    }
}

/// One level.
pub open spec fn alone(price: u64) -> Map<u64, u64> {
    Map::<u64, u64>::empty().insert(price, 500)
}

/// The detector after `k` stairs that brought the quotes `d` ticks.
pub open spec fn climbing(
    m: IgnitionModel,
    l: IgnitionLimits,
    g: MomentumModel,
    next_oid: u64,
    first: int,
    k: int,
) -> bool {
    &&& m.book.side(!g.up) == alone(lead(g))
    &&& m.book.side(g.up).dom().finite()
    &&& m.book.side(g.up).len() <= l.max_book_levels
    &&& mini_book::top(m.book.side(g.up), g.up) == Some(follower(g))
    &&& forall|x: u64| #[trigger] m.orders.contains_key(x) ==> x < next_oid
    &&& running(m, g.up, g.initial_mid, mid_now(g), first, k + 1)
    &&& m.run.len <= 2 * k + 1
    &&& m.buys == (if g.up {
        k
    } else {
        0
    })
    &&& m.sells == (if g.up {
        0
    } else {
        k
    })
    &&& m.quiet_until == 0
    &&& !momentum_ignition::ignited(m, l, mid_now(g))
}

/// The quotes lie one tick each side of the mid, `d` ticks from where they began.
pub open spec fn quoted(g: MomentumModel, d: int) -> bool {
    let mid = if g.up {
        g.initial_mid + d
    } else {
        g.initial_mid - d
    };
    &&& 0 <= d
    &&& g.bid == mid - 1
    &&& g.ask == mid + 1
    &&& mid - 1 >= 1
    &&& 2 * mid + 2 <= u64::MAX
}

proof fn lemma_alone_top(price: u64, is_bid: bool)
    ensures
        mini_book::top(alone(price), is_bid) == Some(price),
        alone(price).dom().finite(),
        alone(price).len() == 1,
{
    let m = alone(price);
    assert(m.dom() =~= set![price]);
    if is_bid {
        assert(ordered::is_max_key(m, price));
        ordered::lemma_last_key(m, price);
    } else {
        assert(ordered::is_min_key(m, price));
        ordered::lemma_first_key(m, price);
    }
}

/// The event that a send writes.
proof fn lemma_written(t: TapeModel, kind: EventType, side: Side, price: u64, qty: u64)
    ensures
        ({
            let u = t.sent_fresh(kind, side, price, qty);
            &&& u.out.last() == tape::event_of(t.seq as u64, t.ts, kind, side, price, qty, t.next_oid)
            &&& u.out.drop_last() == t.out
            &&& u.out.len() == t.out.len() + 1
        }),
{
    let u = t.sent_fresh(kind, side, price, qty);
    assert(u.out.drop_last() =~= t.out);
}

/// The first event of a stair: the level behind the lead. The mid stays.
proof fn lemma_behind(
    m: IgnitionModel,
    l: IgnitionLimits,
    g: MomentumModel,
    t: TapeModel,
    first: int,
    k: int,
    d: int,
    j: u64,
)
    requires
        ignition_reach(l),
        climbing(m, l, g, t.next_oid, first, k),
        quoted(g, d),
        j >= 1,
        0 <= k <= 16,
        0 <= first <= t.seq,
        t.seq - first <= 50,
        t.seq < u64::MAX,
        0 < t.next_oid < u64::MAX,
        g.up ==> g.ask + j <= u64::MAX,
        !g.up ==> g.bid - j >= 0,
    ensures
        ({
            let far = if g.up {
                (g.ask + j) as u64
            } else {
                (g.bid - j) as u64
            };
            let side = if g.up {
                Side::Ask
            } else {
                Side::Bid
            };
            let u = t.sent_fresh(EventType::OrderAdd, side, far, 500);
            let r = momentum_ignition::ignition_step(m, l, u.out.last());
            &&& r.1 is None
            &&& r.0.book == m.book.with_side(!g.up, alone(lead(g)).insert(far, 500))
            &&& forall|x: u64| #[trigger] r.0.orders.contains_key(x) ==> x < u.next_oid
            &&& running(r.0, g.up, g.initial_mid, mid_now(g), first, k + 1)
            &&& r.0.run.len <= 2 * k + 1
            &&& r.0.buys == m.buys
            &&& r.0.sells == m.sells
            &&& r.0.quiet_until == 0
        }),
{
    let far = if g.up {
        (g.ask + j) as u64
    } else {
        (g.bid - j) as u64
    };
    let side = if g.up {
        Side::Ask
    } else {
        Side::Bid
    };
    let u = t.sent_fresh(EventType::OrderAdd, side, far, 500);
    lemma_written(t, EventType::OrderAdd, side, far, 500);
    let e = u.out.last();
    let is_bid = !g.up;
    let cap = l.max_book_levels as nat;
    let one = alone(lead(g));
    lemma_alone_top(lead(g), is_bid);
    let p = mini_book::piled(one, far, 500);
    assert(p =~= one.insert(far, 500));
    assert(p.dom() =~= one.dom().insert(far));
    assert(p.len() <= 2);
    assert(mini_book::trimmed(p, is_bid, cap) == p);
    mini_book::lemma_top_after_add(one, is_bid, far, 500, cap);
    let n = momentum_ignition::ignition_mutated(m, l, e.event);
    assert(n.book == m.book.with_side(is_bid, p));
    assert(n.orders.dom() =~= m.orders.dom().insert(t.next_oid));
    assert(n.book.mid() == Some(mid_now(g)));
    lemma_moved(m, l, g.up, g.initial_mid, mid_now(g), mid_now(g), e, first, k + 1);
    let s = momentum_ignition::ignition_sampled(n, l, mid_now(g), e);
    assert(s.run == m.run);
    assert(!momentum_ignition::ignited(s, l, mid_now(g)));
    let r = momentum_ignition::ignition_step(m, l, e);
    assert forall|x: u64| #[trigger] r.0.orders.contains_key(x) implies x < u.next_oid by {
        if x != t.next_oid {
            assert(m.orders.contains_key(x));
        }
    }
}

/// The second event of a stair: the trade through the lead.
proof fn lemma_through(
    m: IgnitionModel,
    l: IgnitionLimits,
    g: MomentumModel,
    t: TapeModel,
    follow: Map<u64, u64>,
    first: int,
    k: int,
    d: int,
    j: u64,
)
    requires
        ignition_reach(l),
        quoted(g, d),
        j >= 1,
        0 <= k <= 16,
        0 <= first <= t.seq,
        t.seq - first <= 50,
        t.seq < u64::MAX,
        0 < t.next_oid < u64::MAX,
        g.up ==> g.bid + g.ask + j <= u64::MAX,
        !g.up ==> g.bid - j >= 0,
        ({
            let far = if g.up {
                (g.ask + j) as u64
            } else {
                (g.bid - j) as u64
            };
            m.book.side(!g.up) == alone(lead(g)).insert(far, 500)
        }),
        m.book.side(g.up) == follow,
        follow.dom().finite(),
        mini_book::top(follow, g.up) == Some(follower(g)),
        forall|x: u64| #[trigger] m.orders.contains_key(x) ==> x < t.next_oid,
        running(m, g.up, g.initial_mid, mid_now(g), first, k + 1),
        m.run.len <= 2 * k + 1,
        m.quiet_until == 0,
        m.buys == (if g.up {
            k
        } else {
            0
        }),
        m.sells == (if g.up {
            0
        } else {
            k
        }),
    ensures
        ({
            let far = if g.up {
                (g.ask + j) as u64
            } else {
                (g.bid - j) as u64
            };
            let side = if g.up {
                Side::Ask
            } else {
                Side::Bid
            };
            let half = ((follower(g) + far) / 2) as u64;
            let u = t.sent_fresh(EventType::Trade, side, lead(g), 500);
            let r = momentum_ignition::ignition_step(m, l, u.out.last());
            match r.1 {
                Some(f) => closure::telling(f, ChaosKind::MomentumIgnition),
                None => {
                    &&& r.0.book.side(!g.up) == alone(far)
                    &&& r.0.book.side(g.up) == follow
                    &&& forall|x: u64| #[trigger] r.0.orders.contains_key(x) ==> x < t.next_oid
                    &&& running(
                        r.0,
                        g.up,
                        g.initial_mid,
                        half,
                        first,
                        if half != mid_now(g) {
                            k + 2
                        } else {
                            k + 1
                        },
                    )
                    &&& r.0.run.len <= 2 * k + 2
                    &&& r.0.quiet_until == 0
                    &&& r.0.buys == (if g.up {
                        k + 1
                    } else {
                        0
                    })
                    &&& r.0.sells == (if g.up {
                        0
                    } else {
                        k + 1
                    })
                },
            }
        }),
{
    let far = if g.up {
        (g.ask + j) as u64
    } else {
        (g.bid - j) as u64
    };
    let side = if g.up {
        Side::Ask
    } else {
        Side::Bid
    };
    let half = ((follower(g) + far) / 2) as u64;
    let u = t.sent_fresh(EventType::Trade, side, lead(g), 500);
    lemma_written(t, EventType::Trade, side, lead(g), 500);
    let e = u.out.last();
    let is_bid = !g.up;
    assert(!m.orders.contains_key(t.next_oid));
    let p = alone(lead(g)).insert(far, 500);
    assert(p[lead(g)] == 500);
    assert(mini_book::taken(p, lead(g), 500) =~= alone(far));
    assert(p.dom() =~= set![lead(g), far]);
    if is_bid {
        assert(ordered::is_max_key(p, lead(g)));
        ordered::lemma_last_key(p, lead(g));
    } else {
        assert(ordered::is_min_key(p, lead(g)));
        ordered::lemma_first_key(p, lead(g));
    }
    assert(m.book.mid() == Some(mid_now(g)));
    lemma_alone_top(far, is_bid);
    let n = momentum_ignition::ignition_mutated(m, l, e.event);
    assert(n.book == m.book.with_side(is_bid, alone(far)));
    assert(n.book.mid() == Some(half));
    assert(ahead(g.up, mid_now(g), half));
    lemma_moved(m, l, g.up, g.initial_mid, mid_now(g), half, e, first, k + 1);
}

/// The third event of a stair: the other side comes after.
proof fn lemma_after(
    m: IgnitionModel,
    l: IgnitionLimits,
    g: MomentumModel,
    c: MomentumModel,
    t: TapeModel,
    half: u64,
    first: int,
    k: int,
    d: int,
    j: u64,
)
    requires
        ignition_reach(l),
        quoted(g, d),
        quoted(c, d + j),
        c.up == g.up,
        c.initial_mid == g.initial_mid,
        j >= 1,
        0 <= k <= 16,
        0 <= first <= t.seq,
        t.seq - first <= 50,
        t.seq < u64::MAX,
        0 < t.next_oid < u64::MAX,
        half == (follower(g) + lead(c)) / 2,
        m.book.side(!g.up) == alone(lead(c)),
        m.book.side(g.up).dom().finite(),
        m.book.side(g.up).len() <= l.max_book_levels,
        mini_book::top(m.book.side(g.up), g.up) == Some(follower(g)),
        forall|x: u64| #[trigger] m.orders.contains_key(x) ==> x < t.next_oid,
        running(
            m,
            g.up,
            g.initial_mid,
            half,
            first,
            if half != mid_now(g) {
                k + 2
            } else {
                k + 1
            },
        ),
        m.run.len <= 2 * k + 2,
        m.quiet_until == 0,
        m.buys == (if g.up {
            k + 1
        } else {
            0
        }),
        m.sells == (if g.up {
            0
        } else {
            k + 1
        }),
    ensures
        ({
            let side = if g.up {
                Side::Bid
            } else {
                Side::Ask
            };
            let u = t.sent_fresh(EventType::OrderAdd, side, follower(c), 500);
            let r = momentum_ignition::ignition_step(m, l, u.out.last());
            match r.1 {
                Some(f) => closure::telling(f, ChaosKind::MomentumIgnition),
                None => climbing(r.0, l, c, u.next_oid, first, k + 1),
            }
        }),
{
    let side = if g.up {
        Side::Bid
    } else {
        Side::Ask
    };
    let u = t.sent_fresh(EventType::OrderAdd, side, follower(c), 500);
    lemma_written(t, EventType::OrderAdd, side, follower(c), 500);
    let e = u.out.last();
    let cap = l.max_book_levels as nat;
    let s = m.book.side(g.up);
    mini_book::lemma_top_after_add(s, g.up, follower(c), 500, cap);
    let p = mini_book::piled(s, follower(c), 500);
    assert(p.dom() =~= s.dom().insert(follower(c)));
    mini_book::pruning_keeps_the_best(p, g.up, cap);
    lemma_alone_top(lead(c), !g.up);
    let n = momentum_ignition::ignition_mutated(m, l, e.event);
    assert(n.book == m.book.with_side(g.up, mini_book::trimmed(p, g.up, cap)));
    assert(n.orders.dom() =~= m.orders.dom().insert(t.next_oid));
    assert(n.book.mid() == Some(mid_now(c)));
    assert(ahead(g.up, half, mid_now(c)));
    assert(mid_now(c) != mid_now(g));
    lemma_moved(
        m,
        l,
        g.up,
        g.initial_mid,
        half,
        mid_now(c),
        e,
        first,
        if half != mid_now(g) {
            k + 2
        } else {
            k + 1
        },
    );
    let r = momentum_ignition::ignition_step(m, l, e);
    assert forall|x: u64| #[trigger] r.0.orders.contains_key(x) implies x < u.next_oid by {
        if x != t.next_oid {
            assert(m.orders.contains_key(x));
        }
    }
    assert(mini_book::trimmed(p, g.up, cap).dom().finite());
}

/// One more event on the tape.
proof fn lemma_watch_one(
    l: IgnitionLimits,
    t: TapeModel,
    kind: EventType,
    side: Side,
    price: u64,
    qty: u64,
)
    ensures
        ({
            let d = ignition_detector(l);
            let u = t.sent_fresh(kind, side, price, qty);
            let before = closure::watched(d, calm(), t.out);
            let step = momentum_ignition::ignition_step(before.0, l, u.out.last());
            let after = closure::watched(d, calm(), u.out);
            &&& after.0 == step.0
            &&& step.1 matches Some(f) ==> (closure::telling(f, ChaosKind::MomentumIgnition) ==> closure::told(
                after.1,
                ChaosKind::MomentumIgnition,
            ))
        }),
{
    let d = ignition_detector(l);
    let u = t.sent_fresh(kind, side, price, qty);
    lemma_written(t, kind, side, price, qty);
    let before = closure::watched(d, calm(), t.out);
    let step = momentum_ignition::ignition_step(before.0, l, u.out.last());
    let after = closure::watched(d, calm(), u.out);
    if let Some(f) = step.1 {
        assert(after.1[after.1.len() - 1] == f);
    }
}

/// One stair: a flag, or one stair more.
proof fn lemma_stair(l: IgnitionLimits, g: MomentumModel, t: TapeModel, first: int, k: int, d: int)
    requires
        ignition_reach(l),
        climbing(closure::watched(ignition_detector(l), calm(), t.out).0, l, g, t.next_oid, first, k),
        quoted(g, d),
        quoted(momentum::climbed(g), d + momentum::stair(g)),
        0 <= k <= 16,
        0 <= first <= t.seq,
        t.seq - first <= 47,
        t.seq + 3 < u64::MAX,
        0 < t.next_oid,
        t.next_oid + 3 < u64::MAX,
    ensures
        ({
            let u = momentum::stair_events(g, t);
            let r = closure::watched(ignition_detector(l), calm(), u.out);
            ||| closure::told(r.1, ChaosKind::MomentumIgnition)
            ||| climbing(r.0, l, momentum::climbed(g), u.next_oid, first, k + 1)
        }),
        momentum::stair_events(g, t).seq == t.seq + 3,
        momentum::stair_events(g, t).next_oid == t.next_oid + 3,
        momentum::stair_events(g, t).out.len() == t.out.len() + 3,
        momentum::stair_events(g, t).out.take(t.out.len() as int) == t.out,
{
    let w = ignition_detector(l);
    let j = momentum::stair(g);
    let c = momentum::climbed(g);
    let (near, back) = if g.up {
        (Side::Ask, Side::Bid)
    } else {
        (Side::Bid, Side::Ask)
    };
    let m0 = closure::watched(w, calm(), t.out).0;
    let follow = m0.book.side(g.up);
    let a = t.sent_fresh(EventType::OrderAdd, near, lead(c), 500);
    let a1 = a.later(20_000);
    let b = a1.sent_fresh(EventType::Trade, near, lead(g), 500);
    let b1 = b.later(20_000);
    let x = b1.sent_fresh(EventType::OrderAdd, back, follower(c), 500);
    let u = momentum::stair_events(g, t);
    assert(u == x.later(50_000));
    lemma_written(t, EventType::OrderAdd, near, lead(c), 500);
    lemma_written(a1, EventType::Trade, near, lead(g), 500);
    lemma_written(b1, EventType::OrderAdd, back, follower(c), 500);
    assert(u.out.take(t.out.len() as int) =~= t.out);
    assert(u.out.take(b.out.len() as int) =~= b.out);
    lemma_watch_one(l, t, EventType::OrderAdd, near, lead(c), 500);
    lemma_watch_one(l, a1, EventType::Trade, near, lead(g), 500);
    lemma_watch_one(l, b1, EventType::OrderAdd, back, follower(c), 500);
    lemma_behind(m0, l, g, t, first, k, d, j);
    let m1 = closure::watched(w, calm(), a1.out).0;
    assert(m1.book.side(g.up) == follow);
    lemma_through(m1, l, g, a1, follow, first, k, d, j);
    let m2 = closure::watched(w, calm(), b1.out).0;
    let step = momentum_ignition::ignition_step(m1, l, b.out.last());
    if step.1 is Some {
        closure::lemma_told_early(w, calm(), u.out, b.out.len() as int, ChaosKind::MomentumIgnition);
    } else {
        let half = ((follower(g) + lead(c)) / 2) as u64;
        lemma_after(m2, l, g, c, b1, half, first, k, d, j);
    }
}

proof fn lemma_stairs_extend(g: MomentumModel, t: TapeModel, n: nat)
    ensures
        ({
            let u = momentum::stairs(g, t, n).1;
            t.out.len() <= u.out.len() && u.out.take(t.out.len() as int) == t.out
        }),
    decreases n,
{
    let u = momentum::stairs(g, t, n).1;
    if n > 0 && momentum::come_bps(g) < g.target_bps {
        let c = momentum::climbed(g);
        let v = momentum::stair_events(g, t);
        lemma_stairs_extend(c, v, (n - 1) as nat);
        assert(v.out.len() == t.out.len() + 3);
        assert(v.out.take(t.out.len() as int) =~= t.out);
        assert(u.out.take(t.out.len() as int) =~= v.out.take(t.out.len() as int));
    } else {
        assert(u.out.take(t.out.len() as int) =~= t.out);
    }
}

/// Ticks that `k` stairs of `j` come to, in ten-thousandths of `base`.
proof fn lemma_way(base: int, j: int, k: int)
    requires
        base >= 10_000,
        j == base / 10_000,
        0 <= k <= 16,
    ensures
        j >= 1,
        0 <= k * j,
        16 * j + 3 <= base,
        k * j <= 16 * j,
        (k * j) * 10_000 / base <= k,
        k == 16 ==> (k * j) * 10_000 / base >= 8,
        k * j + j == (k + 1) * j,
{
    assert(j * 10_000 <= base < (j + 1) * 10_000);
    assert(j >= 1);
    let d = k * j;
    assert(0 <= d <= 16 * j && d + j == (k + 1) * j) by (nonlinear_arith)
        requires
            d == k * j,
            0 <= k <= 16,
            j >= 1,
    ;
    assert(d * 10_000 <= k * base) by (nonlinear_arith)
        requires
            d == k * j,
            j * 10_000 <= base,
            k >= 0,
    ;
    assert(d * 10_000 / base <= k) by (nonlinear_arith)
        requires
            d * 10_000 <= k * base,
            base > 0,
    ;
    if k == 16 {
        assert(d * 10_000 >= 8 * base) by {
            assert(d == 16 * j);
            assert(2 * (j * 10_000) >= base);
        }
        assert(d * 10_000 / base >= 8) by (nonlinear_arith)
            requires
                d * 10_000 >= 8 * base,
                base > 0,
        ;
    }
}

/// From any stair on: a flag by the sixteenth.
proof fn lemma_climbs(l: IgnitionLimits, g: MomentumModel, t: TapeModel, first: int, k: int, n: nat)
    requires
        ignition_reach(l),
        g.target_bps >= 8,
        g.initial_mid >= 10_000,
        2 * g.initial_mid + 2 * (16 * momentum::stair(g)) + 2 <= u64::MAX,
        closure::told(
            closure::watched(ignition_detector(l), calm(), t.out).1,
            ChaosKind::MomentumIgnition,
        ) || climbing(closure::watched(ignition_detector(l), calm(), t.out).0, l, g, t.next_oid, first, k),
        quoted(g, k * momentum::stair(g)),
        0 <= k <= 16,
        n >= 16 - k,
        0 <= first,
        t.seq == first + 2 + 3 * k,
        first + 60 < u64::MAX,
        0 < t.next_oid,
        t.next_oid + 3 * (17 - k) < u64::MAX,
    ensures
        closure::told(
            closure::watched(ignition_detector(l), calm(), momentum::stairs(g, t, n).1.out).1,
            ChaosKind::MomentumIgnition,
        ),
    decreases 16 - k,
{
    let w = ignition_detector(l);
    let base = g.initial_mid as int;
    let j = momentum::stair(g) as int;
    let d = k * j;
    lemma_way(base, j, k);
    if closure::told(closure::watched(w, calm(), t.out).1, ChaosKind::MomentumIgnition) {
        lemma_stairs_extend(g, t, n);
        closure::lemma_told_early(
            w,
            calm(),
            momentum::stairs(g, t, n).1.out,
            t.out.len() as int,
            ChaosKind::MomentumIgnition,
        );
    } else {
        let m = closure::watched(w, calm(), t.out).0;
        let mid = mid_now(g);
        let bps = d * 10_000 / base;
        assert(mid == if g.up {
            base + d
        } else {
            base - d
        });
        assert(momentum_ignition::bps_of(g.initial_mid, mid) == bps);
        assert(momentum::come_bps(g) == bps);
        assert(k < 8 || bps < l.min_move_bps);
        assert(k < 16);
        lemma_way(base, j, k + 1);
        let c = momentum::climbed(g);
        assert(quoted(c, d + j));
        lemma_stair(l, g, t, first, k, d);
        assert(momentum::stair(c) == j);
        lemma_climbs(l, c, momentum::stair_events(g, t), first, k + 1, (n - 1) as nat);
    }
}

/// The first two orders give a mid to begin from.
proof fn lemma_quoted_first(l: IgnitionLimits, g: MomentumModel, t: TapeModel)
    requires
        ignition_reach(l),
        quoted(g, 0),
        t.out.len() == 0,
        0 <= t.seq,
        t.seq + 2 < u64::MAX,
        0 < t.next_oid,
        t.next_oid + 2 < u64::MAX,
    ensures
        ({
            let u = momentum::momentum_seed(g, t);
            climbing(closure::watched(ignition_detector(l), calm(), u.out).0, l, g, u.next_oid, t.seq, 0)
        }),
{
    let w = ignition_detector(l);
    let cap = l.max_book_levels as nat;
    let a = t.sent_fresh(EventType::OrderAdd, Side::Bid, g.bid, 500);
    let b = a.sent_fresh(EventType::OrderAdd, Side::Ask, g.ask, 500);
    assert(t.out =~= Seq::<SequencedEvent>::empty());
    lemma_written(t, EventType::OrderAdd, Side::Bid, g.bid, 500);
    lemma_written(a, EventType::OrderAdd, Side::Ask, g.ask, 500);
    lemma_watch_one(l, t, EventType::OrderAdd, Side::Bid, g.bid, 500);
    lemma_watch_one(l, a, EventType::OrderAdd, Side::Ask, g.ask, 500);
    lemma_alone_top(g.bid, true);
    lemma_alone_top(g.ask, false);
    let none = Map::<u64, u64>::empty();
    assert(none.dom() =~= Set::<u64>::empty());
    assert(mini_book::piled(none, g.bid, 500) =~= alone(g.bid));
    assert(mini_book::piled(none, g.ask, 500) =~= alone(g.ask));
    let m1 = closure::watched(w, calm(), a.out).0;
    assert(m1.book == MiniModel { bids: alone(g.bid), asks: none });
    assert(m1.book.mid() is None);
    assert(m1.mids == Seq::<MidSample>::empty());
    let e = b.out.last();
    let n = momentum_ignition::ignition_mutated(m1, l, e.event);
    assert(n.book == MiniModel { bids: alone(g.bid), asks: alone(g.ask) });
    assert(n.book.mid() == Some(mid_now(g)));
    let sample = MidSample { seq: e.seq, ts: e.event.ts, mid: mid_now(g) };
    let mids = m1.mids.push(sample);
    assert(mids[0] == sample);
    assert(momentum_ignition::unexpired(mids, e.seq, e.event.ts, l) == mids);
    let m2 = closure::watched(w, calm(), b.out).0;
    assert(m2.run == Run { dir: None, len: 1, start: sample });
    assert(m2.mids == mids);
    assert forall|x: u64| #[trigger] m2.orders.contains_key(x) implies x < b.next_oid by {
        assert(x == t.next_oid || x == a.next_oid);
    }
}

/// The stairs of a momentum generator are flagged by a detector that begins with
/// them, by the sixteenth at the latest: whatever the seed and the severity, up or
/// down, from prices of ten thousand on, where a stair is no more than a
/// ten-thousandth.
pub proof fn ignitions_are_flagged(l: IgnitionLimits, g: MomentumModel, t: TapeModel, n: nat)
    requires
        ignition_reach(l),
        g.target_bps >= 8,
        g.initial_mid >= 10_000,
        2 * g.initial_mid + 2 * (16 * momentum::stair(g)) + 2 <= u64::MAX,
        g.bid == g.initial_mid - 1,
        g.ask == g.initial_mid + 1,
        n >= 16,
        t.out.len() == 0,
        0 <= t.seq,
        t.seq + 60 < u64::MAX,
        0 < t.next_oid,
        t.next_oid + 60 < u64::MAX,
    ensures
        closure::told(
            closure::watched(
                ignition_detector(l),
                calm(),
                momentum::stairs(g, momentum::momentum_seed(g, t), n).1.out,
            ).1,
            ChaosKind::MomentumIgnition,
        ),
{
    lemma_quoted_first(l, g, t);
    let j = momentum::stair(g) as int;
    assert(0 * j == 0) by (nonlinear_arith);
    lemma_climbs(l, g, momentum::momentum_seed(g, t), t.seq, 0, n);
}

} // verus!
