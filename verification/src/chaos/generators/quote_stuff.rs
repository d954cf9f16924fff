//! Bursts of cancels around a few trades.

use crate::book::event::{EventType, SequencedEvent, Side};
use crate::chaos::generators::dial::{lerp, lerp_round};
#[allow(unused_imports)]
use crate::chaos::generators::{dial, rng, tape};
use crate::chaos::generators::rng::DetRng;
use crate::chaos::generators::tape::{price_away, Tape, TapeModel};
use crate::chaos::generators::StormGenerator;
use crate::ratio::Ratio;
use vstd::prelude::*;

verus! {

/// Separates this generator's random source from the others'.
pub const STUFF_SALT: u64 = 0xB1B1_B1B1_B1B1_B1B1;

/// The first order id.
pub const STUFF_FIRST_ID: u64 = 1_500_000;

/// What the generator is.
pub struct StuffModel {
    pub rng: u64,
    pub base_price: u64,
    pub next_oid: u64,
    pub bursts_remaining: u32,
    pub trades_per_step: u32,
    pub cancels_per_trade: u32,
    pub step_period_ns: u64,
    pub next_due: u64,
}

/// Writes a few trades, each followed by many cancels on the other side.
#[derive(Debug)]
pub struct QuoteStuffGenerator {
    rng: u64,
    base_price: u64,
    next_oid: u64,
    bursts_remaining: u32,
    trades_per_step: u32,
    cancels_per_trade: u32,
    step_period_ns: u64,
    next_due: u64,
}

impl View for QuoteStuffGenerator {
    type V = StuffModel;

    closed spec fn view(&self) -> StuffModel {
        StuffModel {
            rng: self.rng,
            base_price: self.base_price,
            next_oid: self.next_oid,
            bursts_remaining: self.bursts_remaining,
            trades_per_step: self.trades_per_step,
            cancels_per_trade: self.cancels_per_trade,
            step_period_ns: self.step_period_ns,
            next_due: self.next_due,
        }
    }
}

/// The generator of a seed and a severity.
pub open spec fn new_stuff(seed: u64, severity: Ratio, base_price: u64, bursts: u32) -> StuffModel {
    StuffModel {
        rng: rng::first_state(seed ^ STUFF_SALT),
        base_price,
        next_oid: STUFF_FIRST_ID,
        bursts_remaining: bursts,
        trades_per_step: dial::dial_near(severity, 4, 6) as u32,
        cancels_per_trade: dial::dial_near(severity, 8, 16) as u32,
        step_period_ns: dial::dial_down(severity, 20_000_000, 5_000_000) as u64,
        next_due: 0,
    }
}

/// Events of one step.
pub open spec fn stuff_total(m: StuffModel) -> int {
    m.trades_per_step * (m.cancels_per_trade + 1)
}

/// Time between two events of one step.
pub open spec fn stuff_pause(m: StuffModel) -> u64 {
    (m.step_period_ns as int / stuff_total(m)) as u64
}

/// Side of the trade at place `i`.
pub open spec fn stuff_side(i: int) -> Side {
    if i % 2 == 0 {
        Side::Ask
    } else {
        Side::Bid
    }
}

/// The other side.
pub open spec fn facing(s: Side) -> Side {
    match s {
        Side::Bid => Side::Ask,
        Side::Ask => Side::Bid,
    }
}

/// Some cancels in a row, one to four ticks from the base.
pub open spec fn stuff_cancels(m: StuffModel, t: TapeModel, side: Side, n: nat) -> TapeModel
    decreases n,
{
    if n == 0 {
        t
    } else {
        let u = stuff_cancels(m, t, side, (n - 1) as nat);
        let price = tape::away(side, m.base_price, (1 + u.peek() % 4) as u64);
        u.drawn().sent_fresh(EventType::OrderCancel, side, price, 100).later(stuff_pause(m))
    }
}

/// One trade and its cancels.
pub open spec fn stuff_round(m: StuffModel, t: TapeModel, i: int) -> TapeModel {
    let side = stuff_side(i);
    let u = t.sent_fresh(EventType::Trade, side, tape::away(side, m.base_price, 1), 100).later(stuff_pause(m));
    stuff_cancels(m, u, facing(side), m.cancels_per_trade as nat)
}

/// Some trades in a row.
pub open spec fn stuff_rounds(m: StuffModel, t: TapeModel, n: nat) -> TapeModel
    decreases n,
{
    if n == 0 {
        t
    } else {
        stuff_round(m, stuff_rounds(m, t, (n - 1) as nat), n - 1)
    }
}

proof fn lemma_cancels_len(m: StuffModel, t: TapeModel, side: Side, n: nat)
    ensures
        stuff_cancels(m, t, side, n).seq == t.seq + n,
        forall|from: int| #[trigger] tape::told(t, from) ==> tape::told(stuff_cancels(m, t, side, n), from),
    decreases n,
{
    if n > 0 {
        lemma_cancels_len(m, t, side, (n - 1) as nat);
    }
}

proof fn lemma_rounds_len(m: StuffModel, t: TapeModel, n: nat)
    ensures
        stuff_rounds(m, t, n).seq == t.seq + n * (m.cancels_per_trade + 1),
        forall|from: int| #[trigger] tape::told(t, from) ==> tape::told(stuff_rounds(m, t, n), from),
    decreases n,
{
    let k = m.cancels_per_trade + 1;
    if n > 0 {
        lemma_rounds_len(m, t, (n - 1) as nat);
        let u = stuff_rounds(m, t, (n - 1) as nat);
        let side = stuff_side(n - 1);
        let v = u.sent_fresh(EventType::Trade, side, tape::away(side, m.base_price, 1), 100).later(stuff_pause(m));
        lemma_cancels_len(m, v, facing(side), m.cancels_per_trade as nat);
        assert forall|from: int| #[trigger] tape::told(t, from) implies tape::told(stuff_rounds(m, t, n), from) by {
            assert(tape::told(u, from));
            tape::lemma_sent(u, from, EventType::Trade, side, tape::away(side, m.base_price, 1), 100, 0);
            assert(tape::told(v, from));
        }
        assert((n - 1) * k + k == n * k) by (nonlinear_arith);
    } else {
        assert(0 * k == 0) by (nonlinear_arith);
    }
}

impl QuoteStuffGenerator {
    /// A generator of `bursts` bursts. A higher severity makes them larger and
    /// come faster.
    pub fn new(seed: u64, severity: Ratio, base_price: u64, bursts: u32) -> (g: Self)
        ensures
            g@ == new_stuff(seed, severity, base_price, bursts),
            QuoteStuffGenerator::wf(g@),
    {
        QuoteStuffGenerator {
            rng: DetRng::new(seed ^ STUFF_SALT).state(),
            base_price,
            next_oid: STUFF_FIRST_ID,
            bursts_remaining: bursts,
            trades_per_step: lerp_round(severity, 4, 6) as u32,
            cancels_per_trade: lerp_round(severity, 8, 16) as u32,
            step_period_ns: lerp(severity, 20_000_000, 5_000_000),
            next_due: 0,
        }
    }

    fn round(&self, t: &mut Tape, i: u32, pause: u64)
        requires
            old(t).wf(),
            old(t)@.seq + self@.cancels_per_trade + 1 <= u64::MAX,
            pause == stuff_pause(self@),
        ensures
            final(t).wf(),
            final(t).from() == old(t).from(),
            final(t)@ == stuff_round(self@, old(t)@, i as int),
    {
        let ghost m = self@;
        let side: Side = if i % 2 == 0 {
            Side::Ask
        } else {
            Side::Bid
        };
        t.send_fresh(EventType::Trade, side, price_away(side, self.base_price, 1), 100);
        t.wait(pause);
        let other: Side = match side {
            Side::Bid => Side::Ask,
            Side::Ask => Side::Bid,
        };
        let ghost u = t@;
        let mut k: u32 = 0;
        while k < self.cancels_per_trade
            invariant
                m == self@,
                pause == stuff_pause(m),
                k <= self.cancels_per_trade,
                u.seq + self@.cancels_per_trade <= u64::MAX,
                t.wf(),
                t.from() == old(t).from(),
                t@ == stuff_cancels(m, u, other, k as nat),
            decreases self.cancels_per_trade - k,
        {
            proof {
                lemma_cancels_len(m, u, other, k as nat);
            }
            let off: u64 = 1 + t.draw() % 4;
            let price: u64 = price_away(other, self.base_price, off);
            t.send_fresh(EventType::OrderCancel, other, price, 100);
            t.wait(pause);
            k += 1;
        }
    }
}

impl StormGenerator for QuoteStuffGenerator {
    open spec fn wf(m: StuffModel) -> bool {
        &&& 4 <= m.trades_per_step <= 6
        &&& 8 <= m.cancels_per_trade <= 16
    }

    open spec fn span(m: StuffModel) -> nat {
        stuff_total(m) as nat
    }

    open spec fn stepped(m: StuffModel, now_ns: u64, base_seq: u64) -> (StuffModel, Seq<SequencedEvent>) {
        let t = stuff_rounds(m, tape::blank(m.rng, m.next_oid, base_seq, now_ns), m.trades_per_step as nat);
        (
            StuffModel {
                rng: t.rng,
                next_oid: t.next_oid,
                next_due: now_ns.saturating_add(m.step_period_ns),
                bursts_remaining: m.bursts_remaining.saturating_sub(1),
                ..m
            },
            t.out,
        )
    }

    open spec fn due(m: StuffModel) -> u64 {
        m.next_due
    }

    open spec fn done(m: StuffModel) -> bool {
        m.bursts_remaining == 0
    }

    open spec fn label(m: StuffModel) -> Seq<char> {
        "quote_stuff"@
    }

    proof fn steps_are_numbered(m: StuffModel, now_ns: u64, base_seq: u64) {
        let blank = tape::blank(m.rng, m.next_oid, base_seq, now_ns);
        assert(tape::told(blank, base_seq as int));
        lemma_rounds_len(m, blank, m.trades_per_step as nat);
    }

    fn step(&mut self, now_ns: u64, base_seq: u64) -> (out: Vec<SequencedEvent>) {
        let ghost m = self@;
        let ghost blank = tape::blank(m.rng, m.next_oid, base_seq, now_ns);
        let mut t: Tape = Tape::start(self.rng, self.next_oid, base_seq, now_ns);
        let trades: u32 = self.trades_per_step;
        let ghost k = m.cancels_per_trade + 1;
        assert(36 <= trades * k <= 102) by (nonlinear_arith)
            requires
                4 <= trades <= 6,
                9 <= k <= 17,
        ;
        let total: u32 = trades * (self.cancels_per_trade + 1);
        let pause: u64 = self.step_period_ns / total as u64;
        let mut i: u32 = 0;
        while i < trades
            invariant
                m == self@,
                i <= trades,
                trades == m.trades_per_step,
                k == m.cancels_per_trade + 1,
                pause == stuff_pause(m),
                base_seq + trades * k <= u64::MAX,
                t.wf(),
                t.from() == base_seq,
                blank.seq == base_seq,
                t@ == stuff_rounds(m, blank, i as nat),
            decreases trades - i,
        {
            proof {
                lemma_rounds_len(m, blank, i as nat);
                assert(i * k + k <= trades * k) by (nonlinear_arith)
                    requires
                        i + 1 <= trades,
                        k >= 0,
                ;
            }
            self.round(&mut t, i, pause);
            i += 1;
        }
        proof {
            lemma_rounds_len(m, blank, trades as nat);
        }
        self.rng = t.source();
        self.next_oid = t.next_id();
        self.bursts_remaining = self.bursts_remaining.saturating_sub(1);
        self.next_due = now_ns.saturating_add(self.step_period_ns);
        t.finish()
    }

    fn next_due_ns(&self) -> (t: u64) {
        self.next_due
    }

    fn finished(&self) -> (b: bool) {
        self.bursts_remaining == 0
    }

    fn kind_label(&self) -> (s: &'static str) {
        "quote_stuff"
    }
}

// ─── Laws ───────────────────────────────────────────────────────────

/// What a generator is set to: from calm without severity to fierce with all of it.
pub proof fn stuffings_grow_with_severity(seed: u64, severity: Ratio, base_price: u64, bursts: u32)
    ensures
        ({
            let m = new_stuff(seed, severity, base_price, bursts);
            &&& m.base_price == base_price
            &&& m.bursts_remaining == bursts
            &&& m.next_due == 0
            &&& m.next_oid == 1_500_000
            &&& m.rng == rng::first_state(seed ^ STUFF_SALT)
            &&& severity.num == 0 && severity.den > 0 ==> m.trades_per_step == 4 && m.cancels_per_trade == 8 && m.step_period_ns == 20_000_000
            &&& severity.num >= severity.den ==> m.trades_per_step == 6 && m.cancels_per_trade == 16 && m.step_period_ns == 5_000_000
            &&& m.trades_per_step == dial::dial_near(severity, 4, 6)
            &&& m.cancels_per_trade == dial::dial_near(severity, 8, 16)
            &&& m.step_period_ns == dial::dial_down(severity, 20_000_000, 5_000_000)
        }),
{
    dial::dials_go_from_end_to_end(severity, 4, 6);
    dial::lemma_weighted(severity, 4, 6);
    dial::dials_go_from_end_to_end(severity, 8, 16);
    dial::lemma_weighted(severity, 8, 16);
    dial::dials_go_from_end_to_end(severity, 20_000_000, 5_000_000);
    dial::lemma_weighted(severity, 20_000_000, 5_000_000);
}

/// The pauses between the events of a step fill its period, up to less than a nanosecond
/// for each event.
pub proof fn pauses_fill_the_period(m: StuffModel)
    requires
        m.trades_per_step > 0,
    ensures
        ({
            let all = m.trades_per_step * (m.cancels_per_trade + 1);
            stuff_pause(m) * all <= m.step_period_ns < (stuff_pause(m) + 1) * all
        }),
{
    let (x, d) = (m.step_period_ns as int, stuff_total(m));
    let (a, b) = (m.trades_per_step as int, m.cancels_per_trade + 1);
    assert(a * b >= 1) by (nonlinear_arith)
        requires
            a >= 1,
            b >= 1,
    ;
    let q = x / d;
    vstd::arithmetic::div_mod::lemma_fundamental_div_mod(x, d);
    vstd::arithmetic::div_mod::lemma_mod_bound(x, d);
    assert(0 <= q <= x && q * d <= x < (q + 1) * d) by (nonlinear_arith)
        requires
            x == d * q + x % d,
            0 <= x % d < d,
            x >= 0,
            d >= 1,
    ;
}

/// Cancels in a row: each with an id of its own, a hundred, one to four ticks from the
/// base, a pause apart.
pub proof fn cancels_come_in_a_row(m: StuffModel, t: TapeModel, side: Side, n: nat, i: int)
    requires
        0 <= i < n <= 64,
        t.next_oid <= u64::MAX - 200,
        t.ts + 64 * stuff_pause(m) <= u64::MAX,
        64 <= m.base_price <= u64::MAX - 64,
    ensures
        ({
            let out = stuff_cancels(m, t, side, n).out;
            let x = out[t.out.len() + i];
            &&& out.len() == t.out.len() + n
            &&& tape::reads(
                x,
                2,
                x.event.side,
                x.event.price as int,
                100,
                (t.next_oid + i) as u64,
                (t.ts + i * stuff_pause(m)) as u64,
            )
            &&& side == Side::Bid ==> x.event.side == 0 && 1 <= m.base_price - x.event.price <= 4
            &&& side == Side::Ask ==> x.event.side == 1 && 1 <= x.event.price - m.base_price <= 4
        }),
    decreases n,
{
    if i < n - 1 {
        cancels_come_in_a_row(m, t, side, (n - 1) as nat, i);
        lemma_cancels_shape(m, t, side, (n - 1) as nat);
    } else {
        lemma_cancels_shape(m, t, side, (n - 1) as nat);
    }
}

proof fn lemma_cancels_shape(m: StuffModel, t: TapeModel, side: Side, n: nat)
    requires
        n <= 64,
        t.next_oid <= u64::MAX - 200,
        t.ts + 64 * stuff_pause(m) <= u64::MAX,
    ensures
        stuff_cancels(m, t, side, n).out.len() == t.out.len() + n,
        stuff_cancels(m, t, side, n).next_oid == t.next_oid + n,
        stuff_cancels(m, t, side, n).ts == t.ts + n * stuff_pause(m),
        forall|i: int| 0 <= i < t.out.len() ==> stuff_cancels(m, t, side, n).out[i] == #[trigger] t.out[i],
    decreases n,
{
    let p = stuff_pause(m) as int;
    if n > 0 {
        lemma_cancels_shape(m, t, side, (n - 1) as nat);
        let k = n as int;
        assert((k - 1) * p + p == k * p && k * p <= 64 * p) by (nonlinear_arith)
            requires
                0 <= k <= 64,
                p >= 0,
        ;
    } else {
        assert(0 * p == 0) by (nonlinear_arith);
    }
}

/// A round is a trade of a hundred one tick from the base, on the ask first and then on
/// each side in turn, and the cancels on the other side.
pub proof fn rounds_trade_and_cancel(m: StuffModel, t: TapeModel, i: int)
    requires
        i >= 0,
        m.cancels_per_trade <= 16,
        t.next_oid <= u64::MAX - 300,
        t.ts + 80 * stuff_pause(m) <= u64::MAX,
        64 <= m.base_price <= u64::MAX - 64,
    ensures
        ({
            let n = stuff_round(m, t, i);
            let k = t.out.len() as int;
            let x = n.out[k];
            &&& n.out.len() == k + 1 + m.cancels_per_trade
            &&& i % 2 == 0 ==> tape::reads(x, 4, 1, m.base_price + 1, 100, t.next_oid, t.ts)
            &&& i % 2 == 1 ==> tape::reads(x, 4, 0, m.base_price - 1, 100, t.next_oid, t.ts)
            &&& m.cancels_per_trade > 0 ==> n.out[k + 1].event.event_type == 2 && n.out[k + 1].event.side == (if i % 2
                == 0 {
                0u8
            } else {
                1u8
            }) && n.out[k + 1].event.ts == t.ts + stuff_pause(m)
        }),
{
    let side = stuff_side(i);
    let u = t.sent_fresh(EventType::Trade, side, tape::away(side, m.base_price, 1), 100).later(stuff_pause(m));
    let c = m.cancels_per_trade as nat;
    lemma_cancels_shape(m, u, facing(side), c);
    assert(u.out[t.out.len() as int].event.order_id == t.next_oid);
    assert(stuff_cancels(m, u, facing(side), c).out[t.out.len() as int] == u.out[t.out.len() as int]);
    if c > 0 {
        cancels_come_in_a_row(m, u, facing(side), c, 0);
    }
}

/// A step is one burst less, and the next is due a period later.
pub proof fn stuffing_steps_use_up_the_bursts(m: StuffModel, now_ns: u64, base_seq: u64)
    requires
        now_ns + m.step_period_ns <= u64::MAX,
    ensures
        ({
            let n = <QuoteStuffGenerator as StormGenerator>::stepped(m, now_ns, base_seq).0;
            &&& m.bursts_remaining > 0 ==> n.bursts_remaining == m.bursts_remaining - 1
            &&& m.bursts_remaining == 0 ==> n.bursts_remaining == 0
            &&& n.next_due == now_ns + m.step_period_ns
            &&& <QuoteStuffGenerator as StormGenerator>::due(n) == n.next_due
            &&& <QuoteStuffGenerator as StormGenerator>::done(n) <==> n.bursts_remaining == 0
        }),
{
}

} // verus!
