//! Streams with the shape of a real market: prices crowd around the mid, and
//! cancels and trades name orders that are live.

use crate::bench::xorshift::XorShift64;
#[allow(unused_imports)]
use crate::bench::xorshift;
use crate::book::event::{Event, EventType, SequencedEvent};
#[allow(unused_imports)]
use crate::book::event;
use crate::chaos::generators::tape::NO_PAD;
use vstd::prelude::*;

verus! {

/// The market that is played.
#[derive(Debug, Clone, Copy)]
pub struct MarketConfig {
    pub mid_price: u64,
    pub tick_size: u64,
    pub max_levels: u64,
    /// How often, in a hundred, an order joins the level that it is at.
    pub top_concentration: u64,
    pub seed: u64,
}

impl Default for MarketConfig {
    fn default() -> (c: Self)
        ensures
            c == (MarketConfig {
                mid_price: 10_000,
                tick_size: 1,
                max_levels: 50,
                top_concentration: 40,
                seed: 0xDEAD_BEEF_CAFE_BABE,
            }),
    {
        MarketConfig {
            mid_price: 10_000,
            tick_size: 1,
            max_levels: 50,
            top_concentration: 40,
            seed: 0xDEAD_BEEF_CAFE_BABE,
        }
    }
}

/// The furthest level from the mid.
pub open spec fn last_level(cfg: MarketConfig) -> int {
    if cfg.max_levels - 1 < xorshift::MAX_FAILURES {
        cfg.max_levels - 1
    } else {
        xorshift::MAX_FAILURES as int
    }
}

/// There is a level, and every price is a number.
pub open spec fn market_fits(cfg: MarketConfig) -> bool {
    &&& cfg.max_levels > 0
    &&& cfg.mid_price + (last_level(cfg) + 1) * cfg.tick_size <= u64::MAX
}

/// Every timestamp is a number.
pub open spec fn times_fit(n: nat) -> bool {
    n * 1_000 <= u64::MAX
}

/// A live order: id, price, quantity left, side.
pub type Resting = (u64, u64, u64, u8);

/// How a stream mixes its events.
#[derive(Debug, Clone, Copy, PartialEq, Eq, Structural)]
pub struct Mix {
    /// Rolls below this, of a hundred, add.
    pub add_below: u64,
    /// Rolls from there to below this cancel, the others trade.
    pub cancel_below: u64,
    /// One add in twenty is many times as large, most cancels hit the newest
    /// orders, and some trades fill in full.
    pub rich: bool,
}

/// Sixty adds, twenty-five cancels and fifteen trades in a hundred.
pub open spec fn realistic_mix() -> Mix {
    Mix { add_below: 60, cancel_below: 85, rich: true }
}

/// Thirty-five adds, fifty-five cancels and ten trades in a hundred.
pub open spec fn bursty_mix() -> Mix {
    Mix { add_below: 35, cancel_below: 90, rich: false }
}

/// The source, the live orders and the next order id.
#[verifier::ext_equal]
pub struct Market {
    pub rng: u64,
    pub live: Seq<Resting>,
    pub next_id: u64,
}

/// One event of a workload.
pub open spec fn bench_event(ts: u64, kind: EventType, side: u8, price: u64, qty: u64, order_id: u64) -> Event {
    Event {
        ts,
        price,
        qty,
        order_id,
        instrument_id: 1,
        event_type: event::event_code(kind),
        side,
        _pad: NO_PAD,
    }
}

/// One event of a workload.
pub(crate) fn mk_event(ts: u64, kind: EventType, side: u8, price: u64, qty: u64, order_id: u64) -> (e: Event)
    ensures
        e == bench_event(ts, kind, side, price, qty, order_id),
{
    Event { ts, price, qty, order_id, instrument_id: 1, event_type: kind.code(), side, _pad: NO_PAD }
}

/// A sequence number and an event.
pub(crate) fn mk_sequenced(seq: u64, event: Event) -> (e: SequencedEvent)
    ensures
        e == (SequencedEvent { seq, channel_id: 0, event }),
{
    SequencedEvent { seq, channel_id: 0, event }
}

/// The place of an order: its side, its price, and the source afterwards.
pub struct Quote {
    pub side: u8,
    pub price: u64,
    pub rng: u64,
}

/// Where an order goes: a few levels from the mid, on a side that a coin picks.
/// Bids lie at or below the mid, asks above it.
pub open spec fn quote_of(cfg: MarketConfig, s: u64) -> Quote {
    let (k, s1) = xorshift::failures(s, cfg.top_concentration, 100, 0);
    let level = if k < cfg.max_levels - 1 {
        k as int
    } else {
        cfg.max_levels - 1
    };
    let s2 = xorshift::next_state(s1);
    let side = (s2 & 1) as u8;
    let below = cfg.mid_price - level * cfg.tick_size;
    Quote {
        side,
        price: if side == 0 {
            (if below < 1 {
                1
            } else {
                below
            }) as u64
        } else {
            (cfg.mid_price + (level + 1) * cfg.tick_size) as u64
        },
        rng: s2,
    }
}

/// An add: its event and the market afterwards.
pub open spec fn market_add(cfg: MarketConfig, rich: bool, m: Market, ts: u64) -> (Market, Event) {
    let q = quote_of(cfg, m.rng);
    let base = (10 + xorshift::bounded(q.rng, 90)) as u64;
    let s1 = xorshift::next_state(q.rng);
    let s2 = xorshift::next_state(s1);
    let large = rich && xorshift::bounded(s1, 100) < 5;
    let qty = if large {
        (base * (10 + xorshift::bounded(s2, 50))) as u64
    } else {
        base
    };
    (
        Market {
            rng: if large {
                xorshift::next_state(s2)
            } else if rich {
                s2
            } else {
                s1
            },
            live: m.live.push((m.next_id, q.price, qty, q.side)),
            next_id: (m.next_id + 1) as u64,
        },
        bench_event(ts, EventType::OrderAdd, q.side, q.price, qty, m.next_id),
    )
}

/// The live orders without one; the last takes its place.
pub open spec fn taken_out(s: Seq<Resting>, i: int) -> Seq<Resting> {
    s.update(i, s.last()).drop_last()
}

/// A cancel of a live order: its event and the market afterwards.
pub open spec fn market_cancel(rich: bool, m: Market, ts: u64) -> (Market, Event) {
    let n = m.live.len();
    let s1 = xorshift::next_state(m.rng);
    let newest = rich && xorshift::bounded(m.rng, 100) < 70 && n > 4;
    let from = if rich {
        s1
    } else {
        m.rng
    };
    let i = if newest {
        n - 1 - xorshift::bounded(from, 4)
    } else {
        xorshift::bounded(from, n as u64) as int
    };
    let o = m.live[i];
    (
        Market { rng: xorshift::next_state(from), live: taken_out(m.live, i), ..m },
        bench_event(ts, EventType::OrderCancel, o.3, o.1, o.2, o.0),
    )
}

/// A trade of a live order: its event and the market afterwards. It fills the
/// whole order or half of it.
pub open spec fn market_trade(rich: bool, m: Market, ts: u64) -> (Market, Event) {
    let i = xorshift::bounded(m.rng, m.live.len() as u64) as int;
    let s1 = xorshift::next_state(m.rng);
    let o = m.live[i];
    let half = if o.2 / 2 < 1 {
        1
    } else {
        o.2 / 2
    };
    let fill = if rich && xorshift::bounded(s1, 100) < 30 {
        o.2
    } else {
        half
    };
    (
        Market {
            rng: if rich {
                xorshift::next_state(s1)
            } else {
                s1
            },
            live: if fill >= o.2 {
                taken_out(m.live, i)
            } else {
                m.live.update(i, (o.0, o.1, (o.2 - fill) as u64, o.3))
            },
            ..m
        },
        bench_event(ts, EventType::Trade, o.3, o.1, fill, o.0),
    )
}

/// One event and the market afterwards. With nothing live, it adds.
pub open spec fn market_event(cfg: MarketConfig, mix: Mix, m: Market, ts: u64) -> (Market, Event) {
    let roll = xorshift::bounded(m.rng, 100);
    let n = Market { rng: xorshift::next_state(m.rng), ..m };
    if roll < mix.add_below || m.live.len() == 0 {
        market_add(cfg, mix.rich, n, ts)
    } else if roll < mix.cancel_below {
        market_cancel(mix.rich, n, ts)
    } else {
        market_trade(mix.rich, n, ts)
    }
}

/// A market that has not begun.
pub open spec fn fresh_market(seed: u64) -> Market {
    Market { rng: seed, live: Seq::empty(), next_id: 1 }
}

/// The first `n` events and the market afterwards. One event per microsecond,
/// numbered from one.
pub open spec fn market_stream(cfg: MarketConfig, mix: Mix, seed: u64, n: nat) -> (Market, Seq<SequencedEvent>)
    decreases n,
{
    if n == 0 {
        (fresh_market(seed), Seq::empty())
    } else {
        let (m, s) = market_stream(cfg, mix, seed, (n - 1) as nat);
        let (o, e) = market_event(cfg, mix, m, ((n - 1) * 1_000) as u64);
        (o, s.push(SequencedEvent { seq: n as u64, channel_id: 0, event: e }))
    }
}

/// The source, the live orders and the next order id, as they are kept.
struct Desk {
    rng: XorShift64,
    live: Vec<Resting>,
    next_id: u64,
}

impl View for Desk {
    type V = Market;

    closed spec fn view(&self) -> Market {
        Market { rng: self.rng.0, live: self.live@, next_id: self.next_id }
    }
}

/// The side and price of an order.
fn draw_quote(cfg: &MarketConfig, rng: &mut XorShift64) -> (q: (u8, u64))
    requires
        market_fits(*cfg),
    ensures
        ({
            let x = quote_of(*cfg, old(rng).0);
            q == (x.side, x.price) && final(rng).0 == x.rng
        }),
{
    let k: u64 = rng.geometric(cfg.top_concentration, 100);
    let level: u64 = if k < cfg.max_levels - 1 {
        k
    } else {
        cfg.max_levels - 1
    };
    let x: u64 = rng.next_u64();
    let side: u8 = (x & 1) as u8;
    proof {
        assert((x & 1) <= 1) by (bit_vector);
        let (l, t) = (level as int, cfg.tick_size as int);
        let last = last_level(*cfg);
        assert(0 <= l * t <= (l + 1) * t <= (last + 1) * t) by (nonlinear_arith)
            requires
                0 <= l <= last,
                0 <= t,
        ;
    }
    let off: u64 = level * cfg.tick_size;
    let price: u64 = if side == 0 {
        let p: u64 = cfg.mid_price.saturating_sub(off);
        if p < 1 {
            1
        } else {
            p
        }
    } else {
        cfg.mid_price + (level + 1) * cfg.tick_size
    };
    (side, price)
}

impl Desk {
    fn open(seed: u64) -> (d: Self)
        ensures
            d@ == fresh_market(seed),
    {
        let d = Desk { rng: XorShift64(seed), live: Vec::new(), next_id: 1 };
        assert(d@ =~= fresh_market(seed));
        d
    }

    fn add_order(&mut self, cfg: &MarketConfig, rich: bool, ts: u64) -> (e: Event)
        requires
            market_fits(*cfg),
            old(self)@.next_id < u64::MAX,
        ensures
            (final(self)@, e) == market_add(*cfg, rich, old(self)@, ts),
            final(self)@.live.len() == old(self)@.live.len() + 1,
    {
        let (side, price): (u8, u64) = draw_quote(cfg, &mut self.rng);
        let base: u64 = 10 + self.rng.next_bounded(90);
        let mut qty: u64 = base;
        if rich && self.rng.next_bounded(100) < 5 {
            let times: u64 = 10 + self.rng.next_bounded(50);
            assert(base * times <= 99 * 59) by (nonlinear_arith)
                requires
                    0 <= base <= 99,
                    0 <= times <= 59,
            ;
            qty = base * times;
        }
        let id: u64 = self.next_id;
        self.next_id = id + 1;
        self.live.push((id, price, qty, side));
        mk_event(ts, EventType::OrderAdd, side, price, qty, id)
    }

    fn cancel_order(&mut self, rich: bool, ts: u64) -> (e: Event)
        requires
            0 < old(self)@.live.len() <= u64::MAX,
        ensures
            (final(self)@, e) == market_cancel(rich, old(self)@, ts),
    {
        let bias: bool = rich && self.rng.next_bounded(100) < 70;
        let i: usize = if bias && self.live.len() > 4 {
            self.live.len() - 1 - self.rng.next_bounded(4) as usize
        } else {
            self.rng.next_bounded(self.live.len() as u64) as usize
        };
        let (id, price, qty, side): Resting = self.live.swap_remove(i);
        mk_event(ts, EventType::OrderCancel, side, price, qty, id)
    }

    fn trade_order(&mut self, rich: bool, ts: u64) -> (e: Event)
        requires
            0 < old(self)@.live.len() <= u64::MAX,
        ensures
            (final(self)@, e) == market_trade(rich, old(self)@, ts),
    {
        let i: usize = self.rng.next_bounded(self.live.len() as u64) as usize;
        let (id, price, qty, side): Resting = self.live[i];
        let half: u64 = if qty / 2 < 1 {
            1
        } else {
            qty / 2
        };
        let fill: u64 = if rich && self.rng.next_bounded(100) < 30 {
            qty
        } else {
            half
        };
        if fill >= qty {
            self.live.swap_remove(i);
        } else {
            self.live.set(i, (id, price, qty - fill, side));
        }
        mk_event(ts, EventType::Trade, side, price, fill, id)
    }

    fn event(&mut self, cfg: &MarketConfig, mix: Mix, ts: u64) -> (e: Event)
        requires
            market_fits(*cfg),
            old(self)@.next_id < u64::MAX,
            old(self)@.live.len() < u64::MAX,
        ensures
            (final(self)@, e) == market_event(*cfg, mix, old(self)@, ts),
    {
        let roll: u64 = self.rng.next_bounded(100);
        if roll < mix.add_below || self.live.len() == 0 {
            self.add_order(cfg, mix.rich, ts)
        } else if roll < mix.cancel_below {
            self.cancel_order(mix.rich, ts)
        } else {
            self.trade_order(mix.rich, ts)
        }
    }
}

proof fn lemma_stream_size(cfg: MarketConfig, mix: Mix, seed: u64, n: nat)
    requires
        n < u64::MAX,
    ensures
        ({
            let (m, s) = market_stream(cfg, mix, seed, n);
            s.len() == n && m.live.len() <= n && 1 <= m.next_id <= n + 1
        }),
    decreases n,
{
    if n > 0 {
        lemma_stream_size(cfg, mix, seed, (n - 1) as nat);
    }
}

/// The first `n` events of a mix.
fn mixed_events(n: usize, cfg: &MarketConfig, mix: Mix, seed: u64) -> (out: Vec<SequencedEvent>)
    requires
        market_fits(*cfg),
        times_fit(n as nat),
    ensures
        out@ == market_stream(*cfg, mix, seed, n as nat).1,
{
    let mut out: Vec<SequencedEvent> = Vec::new();
    let mut desk: Desk = Desk::open(seed);
    let mut i: usize = 0;
    while i < n
        invariant
            market_fits(*cfg),
            times_fit(n as nat),
            i <= n,
            (desk@, out@) == market_stream(*cfg, mix, seed, i as nat),
        decreases n - i,
    {
        proof {
            lemma_stream_size(*cfg, mix, seed, i as nat);
        }
        let event: Event = desk.event(cfg, mix, i as u64 * 1_000);
        out.push(mk_sequenced(i as u64 + 1, event));
        i += 1;
    }
    out
}

/// A stream of sixty adds, twenty-five cancels and fifteen trades in a hundred.
pub fn realistic_events(n: usize, cfg: &MarketConfig) -> (out: Vec<SequencedEvent>)
    requires
        market_fits(*cfg),
        times_fit(n as nat),
    ensures
        out@ == market_stream(*cfg, realistic_mix(), cfg.seed, n as nat).1,
{
    mixed_events(n, cfg, Mix { add_below: 60, cancel_below: 85, rich: true }, cfg.seed)
}

/// A stream of mostly cancels.
pub fn bursty_events(n: usize, cfg: &MarketConfig) -> (out: Vec<SequencedEvent>)
    requires
        market_fits(*cfg),
        times_fit(n as nat),
    ensures
        out@ == market_stream(*cfg, bursty_mix(), cfg.seed.wrapping_add(0x42), n as nat).1,
{
    mixed_events(n, cfg, Mix { add_below: 35, cancel_below: 90, rich: false }, cfg.seed.wrapping_add(0x42))
}

/// The first `n` adds of a warm-up and the source afterwards.
pub open spec fn warmup_stream(cfg: MarketConfig, n: nat) -> (u64, Seq<SequencedEvent>)
    decreases n,
{
    if n == 0 {
        (cfg.seed.wrapping_add(1), Seq::empty())
    } else {
        let (rng, s) = warmup_stream(cfg, (n - 1) as nat);
        let q = quote_of(cfg, rng);
        let qty = (10 + xorshift::bounded(q.rng, 90)) as u64;
        (
            xorshift::next_state(q.rng),
            s.push(
                SequencedEvent {
                    seq: n as u64,
                    channel_id: 0,
                    event: bench_event(
                        ((n - 1) * 1_000) as u64,
                        EventType::OrderAdd,
                        q.side,
                        q.price,
                        qty,
                        n as u64,
                    ),
                },
            ),
        )
    }
}

/// A stream of adds, to fill a book before it is measured.
pub fn warmup_events(n: usize, cfg: &MarketConfig) -> (out: Vec<SequencedEvent>)
    requires
        market_fits(*cfg),
        times_fit(n as nat),
    ensures
        out@ == warmup_stream(*cfg, n as nat).1,
{
    let mut rng: XorShift64 = XorShift64(cfg.seed.wrapping_add(1));
    let mut out: Vec<SequencedEvent> = Vec::new();
    let mut i: usize = 0;
    while i < n
        invariant
            market_fits(*cfg),
            times_fit(n as nat),
            i <= n,
            (rng.0, out@) == warmup_stream(*cfg, i as nat),
        decreases n - i,
    {
        let (side, price): (u8, u64) = draw_quote(cfg, &mut rng);
        let qty: u64 = 10 + rng.next_bounded(90);
        let id: u64 = i as u64 + 1;
        out.push(mk_sequenced(id, mk_event(i as u64 * 1_000, EventType::OrderAdd, side, price, qty, id)));
        i += 1;
    }
    out
}

/// How many events lie between two sweeps.
pub const CRASH_EVERY: u64 = 5_000;

/// Cancels of one sweep.
pub const SWEEP: u64 = 50;

/// Trades that close a sweep.
pub const SWEEP_TRADES: u64 = 8;

/// The first order id of the sweeps.
pub const SWEEP_FIRST_ID: u64 = 10_000_000;

/// A stream that is being re-numbered and interrupted.
#[verifier::ext_equal]
pub struct Crashy {
    pub rng: u64,
    pub seq: int,
    pub ts: u64,
    pub next_id: int,
    pub out: Seq<SequencedEvent>,
}

/// One more event at a given time.
pub open spec fn crashy_push(t: Crashy, e: Event) -> Crashy {
    Crashy {
        seq: t.seq + 1,
        out: t.out.push(SequencedEvent { seq: t.seq as u64, channel_id: 0, event: e }),
        ..t
    }
}

/// A price `off` away from the mid.
pub open spec fn swept_price(mid: u64, side: u8, off: u64) -> u64 {
    if side == 0 {
        mid.saturating_sub(off)
    } else {
        mid.saturating_add(off)
    }
}

/// The first `n` cancels of a sweep, from the mid outwards.
pub open spec fn sweep(t: Crashy, mid: u64, side: u8, n: nat) -> Crashy
    decreases n,
{
    if n == 0 {
        t
    } else {
        let u = sweep(t, mid, side, (n - 1) as nat);
        let ts = u.ts.wrapping_add(1_000);
        let e = bench_event(
            ts,
            EventType::OrderCancel,
            side,
            swept_price(mid, side, n as u64),
            100,
            u.next_id as u64,
        );
        crashy_push(Crashy { ts, next_id: u.next_id + 1, ..u }, e)
    }
}

/// The first `n` trades that close a sweep.
pub open spec fn sweep_trades(t: Crashy, mid: u64, side: u8, n: nat) -> Crashy
    decreases n,
{
    if n == 0 {
        t
    } else {
        let u = sweep_trades(t, mid, side, (n - 1) as nat);
        let ts = u.ts.wrapping_add(1_000);
        let e = bench_event(ts, EventType::Trade, side, swept_price(mid, side, (SWEEP + 1) as u64), 50, 0);
        crashy_push(Crashy { ts, ..u }, e)
    }
}

/// The event at place `i`, and a sweep behind every so many.
pub open spec fn crashy_step(t: Crashy, cfg: MarketConfig, i: int, e: Event) -> Crashy {
    let u = crashy_push(t, Event { ts: t.ts, ..e });
    let v = Crashy { ts: t.ts.wrapping_add(1_000), ..u };
    if i > 0 && i % (CRASH_EVERY as int) == 0 {
        let x = xorshift::next_state(v.rng);
        let side = (x & 1) as u8;
        let w = Crashy { rng: x, ..v };
        sweep_trades(
            sweep(w, cfg.mid_price, side, SWEEP as nat),
            cfg.mid_price,
            side,
            SWEEP_TRADES as nat,
        )
    } else {
        v
    }
}

/// A stream of which `n` events were taken over.
pub open spec fn crashy_stream(base: Seq<SequencedEvent>, cfg: MarketConfig, n: nat) -> Crashy
    decreases n,
{
    if n == 0 {
        Crashy {
            rng: cfg.seed.wrapping_add(0xC0DE),
            seq: 1,
            ts: 0,
            next_id: SWEEP_FIRST_ID as int,
            out: Seq::empty(),
        }
    } else {
        crashy_step(crashy_stream(base, cfg, (n - 1) as nat), cfg, n - 1, base[n - 1].event)
    }
}

/// The interrupted stream, as it is kept.
struct CrashyTape {
    rng: XorShift64,
    seq: u64,
    ts: u64,
    next_id: u64,
    out: Vec<SequencedEvent>,
}

impl View for CrashyTape {
    type V = Crashy;

    closed spec fn view(&self) -> Crashy {
        Crashy {
            rng: self.rng.0,
            seq: self.seq as int,
            ts: self.ts,
            next_id: self.next_id as int,
            out: self.out@,
        }
    }
}

fn price_swept(mid: u64, side: u8, off: u64) -> (p: u64)
    ensures
        p == swept_price(mid, side, off),
{
    if side == 0 {
        mid.saturating_sub(off)
    } else {
        mid.saturating_add(off)
    }
}

impl CrashyTape {
    fn push(&mut self, e: Event)
        requires
            old(self)@.seq < u64::MAX,
        ensures
            final(self)@ == crashy_push(old(self)@, e),
    {
        self.out.push(mk_sequenced(self.seq, e));
        self.seq = self.seq + 1;
    }

    fn sweep(&mut self, mid: u64, side: u8)
        requires
            old(self)@.seq + SWEEP + SWEEP_TRADES <= u64::MAX,
            old(self)@.next_id + SWEEP <= u64::MAX,
        ensures
            final(self)@ == sweep_trades(
                sweep(old(self)@, mid, side, SWEEP as nat),
                mid,
                side,
                SWEEP_TRADES as nat,
            ),
            final(self)@.seq == old(self)@.seq + SWEEP + SWEEP_TRADES,
            final(self)@.next_id == old(self)@.next_id + SWEEP,
    {
        let ghost t = self@;
        let mut k: u64 = 0;
        while k < SWEEP
            invariant
                k <= SWEEP,
                t.seq + SWEEP + SWEEP_TRADES <= u64::MAX,
                t.next_id + SWEEP <= u64::MAX,
                self@ == sweep(t, mid, side, k as nat),
                self@.seq == t.seq + k,
                self@.next_id == t.next_id + k,
            decreases SWEEP - k,
        {
            let id: u64 = self.next_id;
            self.next_id = id + 1;
            self.ts = self.ts.wrapping_add(1_000);
            let price: u64 = price_swept(mid, side, k + 1);
            self.push(mk_event(self.ts, EventType::OrderCancel, side, price, 100, id));
            k += 1;
        }
        let ghost u = self@;
        let price: u64 = price_swept(mid, side, SWEEP + 1);
        let mut k: u64 = 0;
        while k < SWEEP_TRADES
            invariant
                k <= SWEEP_TRADES,
                u.seq + SWEEP_TRADES <= u64::MAX,
                price == swept_price(mid, side, (SWEEP + 1) as u64),
                self@ == sweep_trades(u, mid, side, k as nat),
                self@.seq == u.seq + k,
                self@.next_id == u.next_id,
            decreases SWEEP_TRADES - k,
        {
            self.ts = self.ts.wrapping_add(1_000);
            self.push(mk_event(self.ts, EventType::Trade, side, price, 50, 0));
            k += 1;
        }
    }

    fn step(&mut self, cfg: &MarketConfig, i: usize, e: Event)
        requires
            old(self)@.seq + 1 + SWEEP + SWEEP_TRADES <= u64::MAX,
            old(self)@.next_id + SWEEP <= u64::MAX,
        ensures
            final(self)@ == crashy_step(old(self)@, *cfg, i as int, e),
            final(self)@.seq <= old(self)@.seq + 1 + SWEEP + SWEEP_TRADES,
            final(self)@.next_id <= old(self)@.next_id + SWEEP,
    {
        let ts: u64 = self.ts;
        self.push(
            Event {
                ts,
                price: e.price,
                qty: e.qty,
                order_id: e.order_id,
                instrument_id: e.instrument_id,
                event_type: e.event_type,
                side: e.side,
                _pad: e._pad,
            },
        );
        self.ts = ts.wrapping_add(1_000);
        if i > 0 && i as u64 % CRASH_EVERY == 0 {
            let side: u8 = (self.rng.next_u64() & 1) as u8;
            self.sweep(cfg.mid_price, side);
        }
    }
}

/// A realistic stream, interrupted by sweeps that wipe the top of one side and
/// close with trades.
pub fn crashy_events(n: usize, cfg: &MarketConfig) -> (out: Vec<SequencedEvent>)
    requires
        market_fits(*cfg),
        times_fit(n as nat),
    ensures
        out@ == crashy_stream(
            market_stream(*cfg, realistic_mix(), cfg.seed, n as nat).1,
            *cfg,
            n as nat,
        ).out,
{
    let base: Vec<SequencedEvent> = realistic_events(n, cfg);
    proof {
        lemma_stream_size(*cfg, realistic_mix(), cfg.seed, n as nat);
    }
    let mut tape: CrashyTape = CrashyTape {
        rng: XorShift64(cfg.seed.wrapping_add(0xC0DE)),
        seq: 1,
        ts: 0,
        next_id: SWEEP_FIRST_ID,
        out: Vec::new(),
    };
    assert(tape@ =~= crashy_stream(base@, *cfg, 0));
    let mut i: usize = 0;
    while i < n
        invariant
            times_fit(n as nat),
            i <= n,
            base@.len() == n,
            tape@ == crashy_stream(base@, *cfg, i as nat),
            tape@.seq <= 1 + 59 * i,
            tape@.next_id <= SWEEP_FIRST_ID + 50 * i,
        decreases n - i,
    {
        tape.step(cfg, i, base[i].event);
        i += 1;
    }
    tape.out
}

// ─── Laws ───────────────────────────────────────────────────────────

/// What a stream says of each order that it has not finished: its price, the
/// quantity left and its side. Nothing, if it contradicts itself: an id added
/// twice while live, a cancel or trade of an order that is not live or that
/// names another price, side or more than is left.
pub open spec fn orders_told(s: Seq<SequencedEvent>) -> Option<Map<u64, (u64, u64, u8)>>
    decreases s.len(),
{
    if s.len() == 0 {
        Some(Map::empty())
    } else {
        match orders_told(s.drop_last()) {
            None => None,
            Some(m) => {
                let e = s.last().event;
                let o = m[e.order_id];
                if e.event_type == event::event_code(EventType::OrderAdd) {
                    if m.contains_key(e.order_id) {
                        None
                    } else {
                        Some(m.insert(e.order_id, (e.price, e.qty, e.side)))
                    }
                } else if !m.contains_key(e.order_id) || o.0 != e.price || o.2 != e.side {
                    None
                } else if e.event_type == event::event_code(EventType::OrderCancel) {
                    if e.qty == o.1 {
                        Some(m.remove(e.order_id))
                    } else {
                        None
                    }
                } else if e.qty == 0 || e.qty > o.1 {
                    None
                } else if e.qty == o.1 {
                    Some(m.remove(e.order_id))
                } else {
                    Some(m.insert(e.order_id, (o.0, (o.1 - e.qty) as u64, o.2)))
                }
            },
        }
    }
}

/// The live orders are those of the map, each once, with something left.
pub open spec fn live_as_told(m: Market, t: Map<u64, (u64, u64, u8)>) -> bool {
    &&& forall|i: int|
        #![trigger m.live[i]]
        0 <= i < m.live.len() ==> {
            let o = m.live[i];
            &&& t.contains_key(o.0)
            &&& t[o.0] == (o.1, o.2, o.3)
            &&& o.0 < m.next_id
            &&& o.2 > 0
        }
    &&& forall|i: int, j: int| 0 <= i < j < m.live.len() ==> (#[trigger] m.live[i]).0 != (#[trigger] m.live[j]).0
    &&& forall|k: u64| #[trigger] t.contains_key(k) ==> exists|i: int| 0 <= i < m.live.len() && (#[trigger] m.live[i]).0 == k
}

proof fn lemma_taken_out(m: Market, t: Map<u64, (u64, u64, u8)>, i: int)
    requires
        live_as_told(m, t),
        0 <= i < m.live.len(),
    ensures
        live_as_told(Market { live: taken_out(m.live, i), ..m }, t.remove(m.live[i].0)),
{
    let a = m.live;
    let b = taken_out(a, i);
    let gone = a[i].0;
    let u = t.remove(gone);
    let n = Market { live: b, ..m };
    let last = a.len() - 1;
    assert forall|j: int|
        #![trigger n.live[j]]
        0 <= j < n.live.len() implies {
        let o = n.live[j];
        &&& u.contains_key(o.0)
        &&& u[o.0] == (o.1, o.2, o.3)
        &&& o.0 < m.next_id
        &&& o.2 > 0
    } by {
        let k = if j == i {
            last
        } else {
            j
        };
        assert(n.live[j] == a[k]);
        if k < i {
            assert(a[k].0 != a[i].0);
        } else {
            assert(a[i].0 != a[k].0);
        }
    }
    assert forall|x: int, y: int| 0 <= x < y < n.live.len() implies (#[trigger] n.live[x]).0 != (#[trigger] n.live[y]).0 by {
        let (p, q) = (if x == i {
            last
        } else {
            x
        }, if y == i {
            last
        } else {
            y
        });
        assert(n.live[x] == a[p] && n.live[y] == a[q]);
        if p < q {
            assert(a[p].0 != a[q].0);
        } else {
            assert(a[q].0 != a[p].0);
        }
    }
    assert forall|k: u64| #[trigger] u.contains_key(k) implies exists|j: int|
        0 <= j < n.live.len() && (#[trigger] n.live[j]).0 == k by {
        assert(t.contains_key(k));
        let w = choose|w: int| 0 <= w < a.len() && (#[trigger] a[w]).0 == k;
        let j = if w == last {
            i
        } else {
            w
        };
        assert(n.live[j] == a[w]);
    }
}

/// A stream never contradicts itself: every cancel and trade is of a live order,
/// at its price and on its side, and no trade takes more than is left. The
/// orders that are live are those that the stream has not finished.
pub proof fn streams_track_their_orders(cfg: MarketConfig, mix: Mix, seed: u64, n: nat)
    requires
        n < u64::MAX,
    ensures
        ({
            let (m, s) = market_stream(cfg, mix, seed, n);
            orders_told(s) matches Some(t) && live_as_told(m, t)
        }),
    decreases n,
{
    let (o, s) = market_stream(cfg, mix, seed, n);
    if n == 0 {
        assert(s =~= Seq::<SequencedEvent>::empty());
    } else {
        streams_track_their_orders(cfg, mix, seed, (n - 1) as nat);
        lemma_stream_size(cfg, mix, seed, (n - 1) as nat);
        let (m, r) = market_stream(cfg, mix, seed, (n - 1) as nat);
        let t = orders_told(r)->0;
        assert(s.drop_last() =~= r);
        let d = Market { rng: xorshift::next_state(m.rng), ..m };
        let ts = ((n - 1) * 1_000) as u64;
        let roll = xorshift::bounded(m.rng, 100);
        let e = s.last().event;
        if roll < mix.add_below || m.live.len() == 0 {
            let q = quote_of(cfg, d.rng);
            assert(!t.contains_key(m.next_id));
            let u = orders_told(s)->0;
            assert(e.qty >= 10) by {
                let base = (10 + xorshift::bounded(q.rng, 90)) as u64;
                let k = 10 + xorshift::bounded(xorshift::next_state(xorshift::next_state(q.rng)), 50);
                assert(10 <= base * k <= 99 * 59) by (nonlinear_arith)
                    requires
                        10 <= base <= 99,
                        10 <= k <= 59,
                ;
            }
            assert forall|k: u64| #[trigger] u.contains_key(k) implies exists|i: int|
                0 <= i < o.live.len() && (#[trigger] o.live[i]).0 == k by {
                if k == m.next_id {
                    assert(o.live[m.live.len() as int].0 == k);
                } else {
                    assert(t.contains_key(k));
                    let i = choose|i: int| 0 <= i < m.live.len() && (#[trigger] m.live[i]).0 == k;
                    assert(o.live[i] == m.live[i]);
                }
            }
        } else if roll < mix.cancel_below {
            let len = m.live.len();
            let from = if mix.rich {
                xorshift::next_state(d.rng)
            } else {
                d.rng
            };
            let i = if mix.rich && xorshift::bounded(d.rng, 100) < 70 && len > 4 {
                len - 1 - xorshift::bounded(from, 4)
            } else {
                xorshift::bounded(from, len as u64) as int
            };
            assert(0 <= i < len);
            assert(m.live[i].0 < m.next_id);
            lemma_taken_out(d, t, i);
            assert(o.live == taken_out(m.live, i));
        } else {
            let i = xorshift::bounded(d.rng, m.live.len() as u64) as int;
            let x = m.live[i];
            assert(t.contains_key(x.0) && x.2 > 0);
            if e.qty >= x.2 {
                lemma_taken_out(d, t, i);
            } else {
                let u = orders_told(s)->0;
                assert forall|k: u64| #[trigger] u.contains_key(k) implies exists|j: int|
                    0 <= j < o.live.len() && (#[trigger] o.live[j]).0 == k by {
                    assert(t.contains_key(k));
                    let j = choose|j: int| 0 <= j < m.live.len() && (#[trigger] m.live[j]).0 == k;
                    assert(o.live[j].0 == k);
                }
                assert forall|a: int, b: int| 0 <= a < b < o.live.len() implies (#[trigger] o.live[a]).0 != (
                #[trigger] o.live[b]).0 by {
                    assert(m.live[a].0 != m.live[b].0);
                }
                assert forall|j: int|
                    #![trigger o.live[j]]
                    0 <= j < o.live.len() implies {
                    let y = o.live[j];
                    &&& u.contains_key(y.0)
                    &&& u[y.0] == (y.1, y.2, y.3)
                    &&& y.0 < o.next_id
                    &&& y.2 > 0
                } by {
                    if j < i {
                        assert(m.live[j].0 != m.live[i].0);
                    } else if i < j {
                        assert(m.live[i].0 != m.live[j].0);
                    }
                }
            }
        }
    }
}

/// Orders never cross: a bid lies at or below the mid, an ask above it.
pub proof fn quotes_never_cross(cfg: MarketConfig, s: u64)
    requires
        market_fits(cfg),
        cfg.mid_price > 0,
        cfg.tick_size > 0,
    ensures
        ({
            let q = quote_of(cfg, s);
            if q.side == 0 {
                1 <= q.price <= cfg.mid_price
            } else {
                q.side == 1 && q.price > cfg.mid_price
            }
        }),
{
    let (k, s1) = xorshift::failures(s, cfg.top_concentration, 100, 0);
    lemma_failures_bounded(s, cfg.top_concentration, 100, 0);
    let level = if k < cfg.max_levels - 1 {
        k as int
    } else {
        cfg.max_levels - 1
    };
    let x = xorshift::next_state(s1);
    assert((x & 1) <= 1) by (bit_vector);
    let (l, t) = (level, cfg.tick_size as int);
    let last = last_level(cfg);
    assert(0 <= l * t && 0 < (l + 1) * t <= (last + 1) * t) by (nonlinear_arith)
        requires
            0 <= l <= last,
            0 < t,
    ;
}

proof fn lemma_failures_bounded(s: u64, p_num: u64, p_den: u64, k: u64)
    requires
        k <= xorshift::MAX_FAILURES,
    ensures
        xorshift::failures(s, p_num, p_den, k).0 <= xorshift::MAX_FAILURES,
    decreases xorshift::MAX_FAILURES - k,
{
    if k < xorshift::MAX_FAILURES && xorshift::bounded(s, p_den) >= p_num {
        lemma_failures_bounded(xorshift::next_state(s), p_num, p_den, (k + 1) as u64);
    }
}

/// An event of a workload: on channel zero, of the one instrument, an add, a cancel
/// or a trade, of a bid or an ask.
pub open spec fn workload_event(e: SequencedEvent) -> bool {
    &&& e.channel_id == 0
    &&& e.event.instrument_id == 1
    &&& e.event.event_type == event::event_code(EventType::OrderAdd) || e.event.event_type
        == event::event_code(EventType::OrderCancel) || e.event.event_type == event::event_code(
        EventType::Trade,
    )
    &&& e.event.side <= 1
    &&& e.event._pad == NO_PAD
}

/// A stream is numbered from one on, without a gap, its events are those of a
/// workload, and its times never fall.
pub open spec fn steady(s: Seq<SequencedEvent>) -> bool {
    &&& forall|i: int|
        #![trigger s[i]]
        0 <= i < s.len() ==> s[i].seq == i + 1 && workload_event(s[i])
    &&& forall|i: int, j: int|
        #![trigger s[i], s[j]]
        0 <= i <= j < s.len() ==> s[i].event.ts <= s[j].event.ts
}

/// Every live order is on a side.
proof fn lemma_live_sides(cfg: MarketConfig, mix: Mix, seed: u64, n: nat)
    requires
        times_fit(n),
    ensures
        ({
            let m = market_stream(cfg, mix, seed, n).0;
            forall|i: int| 0 <= i < m.live.len() ==> (#[trigger] m.live[i]).3 <= 1
        }),
    decreases n,
{
    if n > 0 {
        lemma_live_sides(cfg, mix, seed, (n - 1) as nat);
        lemma_stream_size(cfg, mix, seed, (n - 1) as nat);
        let (m, s) = market_stream(cfg, mix, seed, (n - 1) as nat);
        lemma_market_step(cfg, mix, m, ((n - 1) * 1_000) as u64);
    }
}

proof fn lemma_market_step(cfg: MarketConfig, mix: Mix, m: Market, ts: u64)
    requires
        forall|i: int| 0 <= i < m.live.len() ==> (#[trigger] m.live[i]).3 <= 1,
        m.live.len() <= u64::MAX,
    ensures
        ({
            let (o, e) = market_event(cfg, mix, m, ts);
            &&& forall|i: int| 0 <= i < o.live.len() ==> (#[trigger] o.live[i]).3 <= 1
            &&& o.live.len() <= m.live.len() + 1
            &&& e.ts == ts
            &&& workload_event(SequencedEvent { seq: 0, channel_id: 0, event: e })
        }),
{
    let n = Market { rng: xorshift::next_state(m.rng), ..m };
    let roll = xorshift::bounded(m.rng, 100);
    let (o, e) = market_event(cfg, mix, m, ts);
    if roll < mix.add_below || m.live.len() == 0 {
        let (k, s1) = xorshift::failures(n.rng, cfg.top_concentration, 100, 0);
        let x = xorshift::next_state(s1);
        assert((x & 1) <= 1) by (bit_vector);
        assert(quote_of(cfg, n.rng).side <= 1);
    } else if roll < mix.cancel_below {
        let size = n.live.len();
        let from = if mix.rich {
            xorshift::next_state(n.rng)
        } else {
            n.rng
        };
        let i = if mix.rich && xorshift::bounded(n.rng, 100) < 70 && size > 4 {
            size - 1 - xorshift::bounded(from, 4)
        } else {
            xorshift::bounded(from, size as u64) as int
        };
        assert(0 <= i < size);
        assert(n.live[i] == m.live[i]);
        assert forall|k: int| 0 <= k < o.live.len() implies (#[trigger] o.live[k]).3 <= 1 by {
            let j = if k == i {
                size - 1
            } else {
                k
            };
            assert(o.live[k] == m.live[j]);
        }
    } else {
        let i = xorshift::bounded(n.rng, n.live.len() as u64) as int;
        assert(0 <= i < n.live.len());
        assert(n.live[i] == m.live[i]);
        assert forall|k: int| 0 <= k < o.live.len() implies (#[trigger] o.live[k]).3 <= 1 by {
            let j = if k == i && o.live.len() < m.live.len() {
                m.live.len() - 1
            } else {
                k
            };
            assert(o.live[k].3 == m.live[j].3);
        }
    }
}

/// Every mixed stream is numbered from one on, without a gap, with one event a
/// microsecond, all of them of a workload.
pub proof fn streams_are_steady(cfg: MarketConfig, mix: Mix, seed: u64, n: nat)
    requires
        times_fit(n),
    ensures
        ({
            let s = market_stream(cfg, mix, seed, n).1;
            &&& s.len() == n
            &&& steady(s)
            &&& forall|i: int| 0 <= i < n ==> (#[trigger] s[i]).event.ts == i * 1_000
        }),
    decreases n,
{
    if n > 0 {
        streams_are_steady(cfg, mix, seed, (n - 1) as nat);
        lemma_live_sides(cfg, mix, seed, (n - 1) as nat);
        lemma_stream_size(cfg, mix, seed, (n - 1) as nat);
        let (m, s) = market_stream(cfg, mix, seed, (n - 1) as nat);
        lemma_market_step(cfg, mix, m, ((n - 1) * 1_000) as u64);
    }
}

/// A warm-up is numbered from one on, without a gap, with one add a microsecond.
pub proof fn warmups_are_steady(cfg: MarketConfig, n: nat)
    requires
        times_fit(n),
    ensures
        ({
            let s = warmup_stream(cfg, n).1;
            &&& s.len() == n
            &&& steady(s)
            &&& forall|i: int|
                #![trigger s[i]]
                0 <= i < n ==> s[i].event.ts == i * 1_000 && s[i].event.event_type == event::event_code(
                    EventType::OrderAdd,
                ) && s[i].event.order_id == i + 1
        }),
    decreases n,
{
    if n > 0 {
        warmups_are_steady(cfg, (n - 1) as nat);
        let rng = warmup_stream(cfg, (n - 1) as nat).0;
        let (k, s1) = xorshift::failures(rng, cfg.top_concentration, 100, 0);
        let x = xorshift::next_state(s1);
        assert((x & 1) <= 1) by (bit_vector);
    }
}

/// An interrupted stream so far: its next number and its time follow from how long
/// it is, and as long as that time is a number it is steady.
spec fn crashy_told(t: Crashy) -> bool {
    &&& t.seq == t.out.len() + 1
    &&& times_fit(t.out.len()) ==> {
        &&& t.ts == t.out.len() * 1_000
        &&& steady(t.out)
        &&& forall|i: int| 0 <= i < t.out.len() ==> (#[trigger] t.out[i]).event.ts <= t.ts
    }
}

proof fn lemma_sweep_told(t: Crashy, mid: u64, side: u8, n: nat)
    requires
        crashy_told(t),
        side <= 1,
    ensures
        crashy_told(sweep(t, mid, side, n)),
        sweep(t, mid, side, n).out.len() == t.out.len() + n,
    decreases n,
{
    if n > 0 {
        lemma_sweep_told(t, mid, side, (n - 1) as nat);
    }
}

proof fn lemma_trades_told(t: Crashy, mid: u64, side: u8, n: nat)
    requires
        crashy_told(t),
        side <= 1,
    ensures
        crashy_told(sweep_trades(t, mid, side, n)),
        sweep_trades(t, mid, side, n).out.len() == t.out.len() + n,
    decreases n,
{
    if n > 0 {
        lemma_trades_told(t, mid, side, (n - 1) as nat);
    }
}

proof fn lemma_crashy_told(base: Seq<SequencedEvent>, cfg: MarketConfig, n: nat)
    requires
        n <= base.len(),
        forall|i: int| 0 <= i < base.len() ==> workload_event(#[trigger] base[i]),
    ensures
        crashy_told(crashy_stream(base, cfg, n)),
        crashy_stream(base, cfg, n).out.len() >= n,
    decreases n,
{
    if n > 0 {
        let t = crashy_stream(base, cfg, (n - 1) as nat);
        lemma_crashy_told(base, cfg, (n - 1) as nat);
        let e = base[n - 1].event;
        assert(workload_event(base[n - 1]));
        let u = crashy_push(t, Event { ts: t.ts, ..e });
        let v = Crashy { ts: t.ts.wrapping_add(1_000), ..u };
        assert(crashy_told(v));
        let x = xorshift::next_state(v.rng);
        assert((x & 1) <= 1) by (bit_vector);
        let side = (x & 1) as u8;
        let w = Crashy { rng: x, ..v };
        lemma_sweep_told(w, cfg.mid_price, side, SWEEP as nat);
        lemma_trades_told(
            sweep(w, cfg.mid_price, side, SWEEP as nat),
            cfg.mid_price,
            side,
            SWEEP_TRADES as nat,
        );
    }
}

/// A stream with sweeps is numbered from one on, without a gap, its events are
/// those of a workload, and its times never fall while they are numbers.
pub proof fn crashy_streams_are_steady(cfg: MarketConfig, n: nat)
    requires
        times_fit(n),
        times_fit(
            crashy_stream(market_stream(cfg, realistic_mix(), cfg.seed, n).1, cfg, n).out.len(),
        ),
    ensures
        steady(crashy_stream(market_stream(cfg, realistic_mix(), cfg.seed, n).1, cfg, n).out),
        crashy_stream(market_stream(cfg, realistic_mix(), cfg.seed, n).1, cfg, n).out.len() >= n,
{
    streams_are_steady(cfg, realistic_mix(), cfg.seed, n);
    lemma_crashy_told(market_stream(cfg, realistic_mix(), cfg.seed, n).1, cfg, n);
}

/// The mixes of a hundred events: sixty adds, twenty-five cancels and fifteen trades, or
/// thirty-five, fifty-five and ten.
pub proof fn mixes_are_of_a_hundred()
    ensures
        realistic_mix().add_below == 60 && realistic_mix().cancel_below == 60 + 25 && realistic_mix().rich,
        bursty_mix().add_below == 35 && bursty_mix().cancel_below == 35 + 55 && !bursty_mix().rich,
{
}

/// What an event does goes by its roll: adds below the share of adds or with nothing live,
/// then cancels, then trades.
pub proof fn events_go_by_the_roll(cfg: MarketConfig, mix: Mix, m: Market, ts: u64)
    ensures
        ({
            let e = market_event(cfg, mix, m, ts).1;
            let roll = xorshift::next_state(m.rng) % 100;
            let adds = roll < mix.add_below || m.live.len() == 0;
            &&& adds <==> e.event_type == 1
            &&& !adds && roll < mix.cancel_below <==> e.event_type == 2
            &&& !adds && roll >= mix.cancel_below <==> e.event_type == 4
            &&& e.ts == ts
            &&& e.instrument_id == 1
        }),
        fresh_market(m.rng).next_id == 1 && fresh_market(m.rng).live.len() == 0 && fresh_market(m.rng).rng == m.rng,
{
}

/// An add is of ten to ninety-nine, or of ten to fifty-nine times that where the mix is
/// rich, has the next id and becomes the newest live order.
pub proof fn adds_become_live(cfg: MarketConfig, rich: bool, m: Market, ts: u64)
    requires
        m.next_id < u64::MAX,
    ensures
        ({
            let (n, e) = market_add(cfg, rich, m, ts);
            let q = quote_of(cfg, m.rng);
            let base = 10 + xorshift::next_state(q.rng) % 90;
            &&& e.event_type == 1 && e.order_id == m.next_id && e.side == q.side && e.price == q.price
            &&& n.next_id == m.next_id + 1
            &&& n.live == m.live.push((e.order_id, e.price, e.qty, e.side))
            &&& !rich ==> e.qty == base
            &&& rich ==> e.qty == base || 10 * base <= e.qty <= 59 * base
            &&& rich ==> (e.qty == base <==> xorshift::next_state(xorshift::next_state(q.rng)) % 100 >= 5)
        }),
{
    let q = quote_of(cfg, m.rng);
    let base = 10 + xorshift::bounded(q.rng, 90);
    let s1 = xorshift::next_state(q.rng);
    let s2 = xorshift::next_state(s1);
    let k = 10 + xorshift::bounded(s2, 50);
    assert(10 * base <= base * k <= 59 * base && base * k <= 99 * 59) by (nonlinear_arith)
        requires
            10 <= base <= 99,
            10 <= k <= 59,
    ;
}

/// A cancel is of a live order, with its price, side and all that is left of it, and that
/// order alone is no longer live. In a rich mix most cancels are of one of the four newest.
pub proof fn cancels_are_of_live_orders(rich: bool, m: Market, ts: u64, j: int) -> (i: int)
    requires
        0 < m.live.len() <= u64::MAX,
        0 <= j < m.live.len(),
    ensures
        0 <= i < m.live.len(),
        ({
            let (n, e) = market_cancel(rich, m, ts);
            let o = m.live[i];
            &&& e.event_type == 2 && e.order_id == o.0 && e.price == o.1 && e.qty == o.2 && e.side == o.3
            &&& n.live.len() == m.live.len() - 1
            &&& j != i ==> n.live.contains(m.live[j])
            &&& n.next_id == m.next_id
        }),
        rich && m.live.len() > 4 && xorshift::next_state(m.rng) % 100 < 70 ==> m.live.len() - i <= 4,
{
    let n = m.live.len();
    let s1 = xorshift::next_state(m.rng);
    let newest = rich && xorshift::bounded(m.rng, 100) < 70 && n > 4;
    let from = if rich {
        s1
    } else {
        m.rng
    };
    let i = if newest {
        n - 1 - xorshift::bounded(from, 4)
    } else {
        xorshift::bounded(from, n as u64) as int
    };
    let r = taken_out(m.live, i);
    if j != i {
        if j == n - 1 {
            assert(r[i] == m.live[j]);
        } else {
            assert(r[j] == m.live[j]);
        }
    }
    i
}

/// A trade is of a live order, at its price and on its side, of half of what is left,
/// rounded down but at least one, or in a rich mix of all of it in three cases of ten. What
/// it leaves stays live, and the order goes with the last of it.
pub proof fn trades_are_of_live_orders(rich: bool, m: Market, ts: u64) -> (i: int)
    requires
        0 < m.live.len() <= u64::MAX,
    ensures
        0 <= i < m.live.len(),
        ({
            let (n, e) = market_trade(rich, m, ts);
            let o = m.live[i];
            let whole = rich && xorshift::next_state(xorshift::next_state(m.rng)) % 100 < 30;
            &&& e.event_type == 4 && e.order_id == o.0 && e.price == o.1 && e.side == o.3
            &&& whole ==> e.qty == o.2
            &&& !whole && o.2 >= 2 ==> 2 * e.qty == o.2 || 2 * e.qty + 1 == o.2
            &&& !whole && o.2 < 2 ==> e.qty == 1
            &&& e.qty >= o.2 ==> n.live.len() == m.live.len() - 1
            &&& e.qty < o.2 ==> n.live == m.live.update(i, (o.0, o.1, (o.2 - e.qty) as u64, o.3))
            &&& n.next_id == m.next_id
        }),
{
    xorshift::bounded(m.rng, m.live.len() as u64) as int
}

/// A warm-up adds ten to ninety-nine each, every one where an order goes and under its own
/// number.
pub proof fn warmups_add_where_orders_go(cfg: MarketConfig, n: nat)
    requires
        0 < n,
        n * 1_000 <= u64::MAX,
    ensures
        ({
            let (r, s) = warmup_stream(cfg, n);
            let (rng, before) = warmup_stream(cfg, (n - 1) as nat);
            let q = quote_of(cfg, rng);
            let x = s.last();
            &&& s.len() > 0 && s.drop_last() == before
            &&& x.seq == n && x.event.order_id == n && x.event.ts == 1_000 * (n - 1)
            &&& x.event.event_type == 1 && x.event.side == q.side && x.event.price == q.price
            &&& x.event.qty == 10 + xorshift::next_state(q.rng) % 90
        }),
{
    assert(warmup_stream(cfg, n).1.drop_last() =~= warmup_stream(cfg, (n - 1) as nat).1);
}

/// The cancels of a sweep go outwards tick by tick from the mid on one side, a hundred each
/// and under ids of their own, and each comes a microsecond after the one before it.
pub proof fn sweeps_go_outwards(t: Crashy, mid: u64, side: u8, n: nat)
    requires
        0 < n,
        64 <= mid <= u64::MAX - 64,
        n <= 64,
        side <= 1,
        sweep(t, mid, side, (n - 1) as nat).ts <= u64::MAX - 1_000,
        0 <= sweep(t, mid, side, (n - 1) as nat).seq <= u64::MAX,
        0 <= sweep(t, mid, side, (n - 1) as nat).next_id <= u64::MAX,
    ensures
        ({
            let u = sweep(t, mid, side, (n - 1) as nat);
            let w = sweep(t, mid, side, n);
            let x = w.out.last();
            &&& w.out.len() == u.out.len() + 1 && w.out.drop_last() == u.out
            &&& x.seq == u.seq && w.seq == u.seq + 1
            &&& x.event.event_type == 2 && x.event.qty == 100 && x.event.side == side
            &&& x.event.order_id == u.next_id && w.next_id == u.next_id + 1
            &&& x.event.ts == u.ts + 1_000 && w.ts == u.ts + 1_000
            &&& side == 0 ==> x.event.price + n == mid
            &&& side == 1 ==> x.event.price == mid + n
        }),
        sweep(t, mid, side, 0) == t,
{
    assert(sweep(t, mid, side, n).out.drop_last() =~= sweep(t, mid, side, (n - 1) as nat).out);
}

/// The trades that close a sweep lie just beyond it, fifty each and of no order, a
/// microsecond apart.
pub proof fn sweeps_close_with_trades(t: Crashy, mid: u64, side: u8, n: nat)
    requires
        0 < n,
        64 <= mid <= u64::MAX - 64,
        side <= 1,
        sweep_trades(t, mid, side, (n - 1) as nat).ts <= u64::MAX - 1_000,
        0 <= sweep_trades(t, mid, side, (n - 1) as nat).seq <= u64::MAX,
    ensures
        ({
            let u = sweep_trades(t, mid, side, (n - 1) as nat);
            let w = sweep_trades(t, mid, side, n);
            let x = w.out.last();
            &&& w.out.len() == u.out.len() + 1 && w.out.drop_last() == u.out
            &&& x.seq == u.seq && w.seq == u.seq + 1 && w.next_id == u.next_id
            &&& x.event.event_type == 4 && x.event.qty == 50 && x.event.side == side && x.event.order_id == 0
            &&& x.event.ts == u.ts + 1_000 && w.ts == u.ts + 1_000
            &&& side == 0 ==> x.event.price + 51 == mid
            &&& side == 1 ==> x.event.price == mid + 51
        }),
        sweep_trades(t, mid, side, 0) == t,
{
    assert(sweep_trades(t, mid, side, n).out.drop_last() =~= sweep_trades(t, mid, side, (n - 1) as nat).out);
}

proof fn lemma_sweep_count(t: Crashy, mid: u64, side: u8, n: nat)
    ensures
        sweep(t, mid, side, n).out.len() == t.out.len() + n,
        sweep_trades(t, mid, side, n).out.len() == t.out.len() + n,
        forall|i: int|
            0 <= i < t.out.len() ==> sweep(t, mid, side, n).out[i] == #[trigger] t.out[i] && sweep_trades(
                t,
                mid,
                side,
                n,
            ).out[i] == t.out[i],
    decreases n,
{
    if n > 0 {
        lemma_sweep_count(t, mid, side, (n - 1) as nat);
    }
}

/// Every event is taken over as it is but for its number and time, and behind each five
/// thousandth one but the first come fifty cancels and eight trades.
pub proof fn crashes_come_every_so_often(t: Crashy, cfg: MarketConfig, i: int, e: Event)
    requires
        0 <= i,
        0 <= t.seq <= u64::MAX,
    ensures
        ({
            let n = crashy_step(t, cfg, i, e);
            let k = t.out.len() as int;
            let x = n.out[k];
            &&& i > 0 && i % 5_000 == 0 ==> n.out.len() == k + 1 + 50 + 8
            &&& i == 0 || i % 5_000 != 0 ==> n.out.len() == k + 1
            &&& x.seq == t.seq && x.event.ts == t.ts
            &&& x.event.event_type == e.event_type && x.event.side == e.side && x.event.price == e.price
                && x.event.qty == e.qty && x.event.order_id == e.order_id && x.event.instrument_id == e.instrument_id
            &&& (i == 0 || i % 5_000 != 0) && t.ts <= u64::MAX - 1_000 ==> n.ts == t.ts + 1_000
        }),
        crashy_stream(Seq::empty(), cfg, 0).seq == 1 && crashy_stream(Seq::empty(), cfg, 0).ts == 0 && crashy_stream(
            Seq::empty(),
            cfg,
            0,
        ).next_id == 10_000_000,
{
    let u = crashy_push(t, Event { ts: t.ts, ..e });
    let v = Crashy { ts: t.ts.wrapping_add(1_000), ..u };
    let x = xorshift::next_state(v.rng);
    let side = (x & 1) as u8;
    let w = Crashy { rng: x, ..v };
    lemma_sweep_count(w, cfg.mid_price, side, SWEEP as nat);
    let y = sweep(w, cfg.mid_price, side, SWEEP as nat);
    lemma_sweep_count(y, cfg.mid_price, side, SWEEP_TRADES as nat);
    assert(w.out[t.out.len() as int] == u.out[t.out.len() as int]);
    assert(y.out[t.out.len() as int] == w.out[t.out.len() as int]);
}

} // verus!
