//! A print and the quick reaction on the other side.

use crate::book::event::{EventType, SequencedEvent, Side};
use crate::chaos::generators::dial::{lerp, lerp_round};
#[allow(unused_imports)]
use crate::chaos::generators::{dial, rng, tape};
use crate::chaos::generators::rng::DetRng;
use crate::chaos::generators::tape::{price_away, Tape, TapeModel};
use crate::chaos::generators::StormGenerator;
use crate::ratio::Ratio;
use vstd::prelude::*;

verus! {

/// Separates this generator's random source from the others'.
pub const LATENCY_SALT: u64 = 0xB4B4_B4B4_B4B4_B4B4;

/// The first order id.
pub const LATENCY_FIRST_ID: u64 = 5_000_000;

/// Levels that are laid on each side first.
pub const LATENCY_LEVELS: u64 = 10;

/// What the generator is.
pub struct LatencyModel {
    pub rng: u64,
    pub base_price: u64,
    pub next_oid: u64,
    pub bursts_remaining: u32,
    pub burst_size: u32,
    pub step_period_ns: u64,
    pub next_due: u64,
    pub seeded: bool,
}

/// Writes large prints, each followed by a burst on the other side.
#[derive(Debug)]
pub struct LatencyArbProxyGenerator {
    rng: u64,
    base_price: u64,
    next_oid: u64,
    bursts_remaining: u32,
    burst_size: u32,
    step_period_ns: u64,
    next_due: u64,
    seeded: bool,
}

impl View for LatencyArbProxyGenerator {
    type V = LatencyModel;

    closed spec fn view(&self) -> LatencyModel {
        LatencyModel {
            rng: self.rng,
            base_price: self.base_price,
            next_oid: self.next_oid,
            bursts_remaining: self.bursts_remaining,
            burst_size: self.burst_size,
            step_period_ns: self.step_period_ns,
            next_due: self.next_due,
            seeded: self.seeded,
        }
    }
}

/// The generator of a seed and a severity.
pub open spec fn new_latency(seed: u64, severity: Ratio, base_price: u64, bursts: u32) -> LatencyModel {
    LatencyModel {
        rng: rng::first_state(seed ^ LATENCY_SALT),
        base_price,
        next_oid: LATENCY_FIRST_ID,
        bursts_remaining: bursts,
        burst_size: dial::dial_near(severity, 4, 16) as u32,
        step_period_ns: dial::dial_down(severity, 50_000_000, 10_000_000) as u64,
        next_due: 0,
        seeded: false,
    }
}

/// The first `n` levels of both sides.
pub open spec fn latency_seed(m: LatencyModel, t: TapeModel, n: nat) -> TapeModel
    decreases n,
{
    if n == 0 {
        t
    } else {
        latency_seed(m, t, (n - 1) as nat).sent_fresh(
            EventType::OrderAdd,
            Side::Bid,
            tape::away(Side::Bid, m.base_price, n as u64),
            500,
        ).sent_fresh(EventType::OrderAdd, Side::Ask, tape::away(Side::Ask, m.base_price, n as u64), 500)
    }
}

/// The first `n` events of the reaction to a print: adds and cancels in turn,
/// one to four ticks from it.
pub open spec fn reaction(t: TapeModel, side: Side, print: u64, n: nat) -> TapeModel
    decreases n,
{
    if n == 0 {
        t
    } else {
        let k = n - 1;
        let kind = if k % 2 == 0 {
            EventType::OrderAdd
        } else {
            EventType::OrderCancel
        };
        reaction(t, side, print, (n - 1) as nat).sent_fresh(
            kind,
            side,
            tape::away(side, print, (k % 4 + 1) as u64),
            200,
        ).later(50_000)
    }
}

/// One print and its reaction. A coin decides who prints.
pub open spec fn latency_burst(m: LatencyModel, t: TapeModel) -> TapeModel {
    let other = t.coin();
    let side = match other {
        Side::Bid => Side::Ask,
        Side::Ask => Side::Bid,
    };
    let print = tape::away(side, m.base_price, 1);
    let u = t.drawn().sent_fresh(EventType::Trade, side, print, 400).later(100_000);
    reaction(u, other, print, m.burst_size as nat)
}

proof fn lemma_seed_len(m: LatencyModel, t: TapeModel, n: nat)
    ensures
        latency_seed(m, t, n).seq == t.seq + 2 * n,
        forall|from: int| #[trigger] tape::told(t, from) ==> tape::told(latency_seed(m, t, n), from),
    decreases n,
{
    if n > 0 {
        lemma_seed_len(m, t, (n - 1) as nat);
    }
}

proof fn lemma_reaction_len(t: TapeModel, side: Side, print: u64, n: nat)
    ensures
        reaction(t, side, print, n).seq == t.seq + n,
        forall|from: int| #[trigger] tape::told(t, from) ==> tape::told(reaction(t, side, print, n), from),
    decreases n,
{
    if n > 0 {
        lemma_reaction_len(t, side, print, (n - 1) as nat);
    }
}

impl LatencyArbProxyGenerator {
    /// A generator of `bursts` prints. A higher severity makes the reactions
    /// longer and the prints come faster.
    pub fn new(seed: u64, severity: Ratio, base_price: u64, bursts: u32) -> (g: Self)
        ensures
            g@ == new_latency(seed, severity, base_price, bursts),
            LatencyArbProxyGenerator::wf(g@),
    {
        LatencyArbProxyGenerator {
            rng: DetRng::new(seed ^ LATENCY_SALT).state(),
            base_price,
            next_oid: LATENCY_FIRST_ID,
            bursts_remaining: bursts,
            burst_size: lerp_round(severity, 4, 16) as u32,
            step_period_ns: lerp(severity, 50_000_000, 10_000_000),
            next_due: 0,
            seeded: false,
        }
    }

    fn seed(&self, t: &mut Tape)
        requires
            old(t).wf(),
            old(t)@.seq + 20 <= u64::MAX,
        ensures
            final(t).wf(),
            final(t).from() == old(t).from(),
            final(t)@ == latency_seed(self@, old(t)@, LATENCY_LEVELS as nat),
            final(t)@.seq == old(t)@.seq + 20,
    {
        let ghost u = t@;
        let mut i: u64 = 0;
        while i < LATENCY_LEVELS
            invariant
                i <= LATENCY_LEVELS,
                u.seq + 20 <= u64::MAX,
                t.wf(),
                t.from() == old(t).from(),
                t@ == latency_seed(self@, u, i as nat),
            decreases LATENCY_LEVELS - i,
        {
            proof {
                lemma_seed_len(self@, u, i as nat);
            }
            t.send_fresh(EventType::OrderAdd, Side::Bid, price_away(Side::Bid, self.base_price, i + 1), 500);
            t.send_fresh(EventType::OrderAdd, Side::Ask, price_away(Side::Ask, self.base_price, i + 1), 500);
            i += 1;
        }
        proof {
            lemma_seed_len(self@, u, i as nat);
        }
    }

    fn burst(&self, t: &mut Tape)
        requires
            old(t).wf(),
            old(t)@.seq + 1 + self@.burst_size <= u64::MAX,
        ensures
            final(t).wf(),
            final(t).from() == old(t).from(),
            final(t)@ == latency_burst(self@, old(t)@),
            final(t)@.seq == old(t)@.seq + 1 + self@.burst_size,
    {
        let other: Side = t.toss();
        let side: Side = match other {
            Side::Bid => Side::Ask,
            Side::Ask => Side::Bid,
        };
        let print: u64 = price_away(side, self.base_price, 1);
        t.send_fresh(EventType::Trade, side, print, 400);
        t.wait(100_000);
        let ghost u = t@;
        let mut k: u32 = 0;
        while k < self.burst_size
            invariant
                k <= self.burst_size,
                self.burst_size == self@.burst_size,
                u.seq + self.burst_size <= u64::MAX,
                t.wf(),
                t.from() == old(t).from(),
                t@ == reaction(u, other, print, k as nat),
            decreases self.burst_size - k,
        {
            proof {
                lemma_reaction_len(u, other, print, k as nat);
            }
            let off: u64 = (k % 4) as u64 + 1;
            let kind: EventType = if k % 2 == 0 {
                EventType::OrderAdd
            } else {
                EventType::OrderCancel
            };
            t.send_fresh(kind, other, price_away(other, print, off), 200);
            t.wait(50_000);
            k += 1;
        }
        proof {
            lemma_reaction_len(u, other, print, k as nat);
        }
    }
}

impl StormGenerator for LatencyArbProxyGenerator {
    open spec fn wf(m: LatencyModel) -> bool {
        4 <= m.burst_size <= 16
    }

    open spec fn span(m: LatencyModel) -> nat {
        ((if m.seeded {
            0int
        } else {
            20int
        }) + (if m.bursts_remaining == 0 {
            0int
        } else {
            1 + m.burst_size
        })) as nat
    }

    open spec fn stepped(m: LatencyModel, now_ns: u64, base_seq: u64) -> (LatencyModel, Seq<SequencedEvent>) {
        let blank = tape::blank(m.rng, m.next_oid, base_seq, now_ns);
        let depth = if m.seeded {
            blank
        } else {
            latency_seed(m, blank, LATENCY_LEVELS as nat)
        };
        if m.bursts_remaining == 0 {
            (LatencyModel { next_oid: depth.next_oid, seeded: true, ..m }, depth.out)
        } else {
            let t = latency_burst(m, depth);
            (
                LatencyModel {
                    rng: t.rng,
                    next_oid: t.next_oid,
                    bursts_remaining: (m.bursts_remaining - 1) as u32,
                    next_due: now_ns.saturating_add(m.step_period_ns),
                    seeded: true,
                    ..m
                },
                t.out,
            )
        }
    }

    open spec fn due(m: LatencyModel) -> u64 {
        m.next_due
    }

    open spec fn done(m: LatencyModel) -> bool {
        m.bursts_remaining == 0
    }

    open spec fn label(m: LatencyModel) -> Seq<char> {
        "latency_arb_proxy"@
    }

    proof fn steps_are_numbered(m: LatencyModel, now_ns: u64, base_seq: u64) {
        let from = base_seq as int;
        let blank = tape::blank(m.rng, m.next_oid, base_seq, now_ns);
        assert(tape::told(blank, from));
        lemma_seed_len(m, blank, LATENCY_LEVELS as nat);
        let depth = if m.seeded {
            blank
        } else {
            latency_seed(m, blank, LATENCY_LEVELS as nat)
        };
        assert(tape::told(depth, from));
        if m.bursts_remaining > 0 {
            let other = depth.coin();
            let side = match other {
                Side::Bid => Side::Ask,
                Side::Ask => Side::Bid,
            };
            let print = tape::away(side, m.base_price, 1);
            tape::lemma_sent(depth.drawn(), from, EventType::Trade, side, print, 400, 0);
            let u = depth.drawn().sent_fresh(EventType::Trade, side, print, 400).later(100_000);
            assert(tape::told(u, from));
            lemma_reaction_len(u, other, print, m.burst_size as nat);
            assert(tape::told(latency_burst(m, depth), from));
        }
    }

    fn step(&mut self, now_ns: u64, base_seq: u64) -> (out: Vec<SequencedEvent>) {
        let ghost m = self@;
        let ghost blank = tape::blank(m.rng, m.next_oid, base_seq, now_ns);
        let mut t: Tape = Tape::start(self.rng, self.next_oid, base_seq, now_ns);
        if !self.seeded {
            self.seed(&mut t);
            self.seeded = true;
        }
        proof {
            lemma_seed_rng(m, blank, LATENCY_LEVELS as nat);
        }
        if self.bursts_remaining == 0 {
            self.next_oid = t.next_id();
            return t.finish();
        }
        self.burst(&mut t);
        self.rng = t.source();
        self.next_oid = t.next_id();
        self.bursts_remaining = self.bursts_remaining - 1;
        self.next_due = now_ns.saturating_add(self.step_period_ns);
        t.finish()
    }

    fn next_due_ns(&self) -> (t: u64) {
        self.next_due
    }

    fn finished(&self) -> (b: bool) {
        self.bursts_remaining == 0
    }

    fn kind_label(&self) -> (s: &'static str) {
        "latency_arb_proxy"
    }
}

proof fn lemma_seed_rng(m: LatencyModel, t: TapeModel, n: nat)
    ensures
        latency_seed(m, t, n).rng == t.rng,
    decreases n,
{
    if n > 0 {
        lemma_seed_rng(m, t, (n - 1) as nat);
    }
}

// ─── Laws ───────────────────────────────────────────────────────────

/// What a generator is set to: from calm without severity to fierce with all of it.
pub proof fn latencies_grow_with_severity(seed: u64, severity: Ratio, base_price: u64, bursts: u32)
    ensures
        ({
            let m = new_latency(seed, severity, base_price, bursts);
            &&& m.base_price == base_price
            &&& m.bursts_remaining == bursts
            &&& m.next_due == 0
            &&& m.next_oid == 5_000_000
            &&& !m.seeded
            &&& m.rng == rng::first_state(seed ^ LATENCY_SALT)
            &&& severity.num == 0 && severity.den > 0 ==> m.burst_size == 4 && m.step_period_ns == 50_000_000
            &&& severity.num >= severity.den ==> m.burst_size == 16 && m.step_period_ns == 10_000_000
            &&& m.burst_size == dial::dial_near(severity, 4, 16)
            &&& m.step_period_ns == dial::dial_down(severity, 50_000_000, 10_000_000)
        }),
{
    dial::dials_go_from_end_to_end(severity, 4, 16);
    dial::lemma_weighted(severity, 4, 16);
    dial::dials_go_from_end_to_end(severity, 50_000_000, 10_000_000);
    dial::lemma_weighted(severity, 50_000_000, 10_000_000);
}

/// The seed holds one order of five hundred on each side at every distance up to `n`.
pub proof fn seeds_fill_both_sides(m: LatencyModel, t: TapeModel, n: nat, i: int)
    requires
        n <= 64,
        t.next_oid <= u64::MAX - 200,
        m.base_price >= 64,
        m.base_price <= u64::MAX - 64,
        0 <= i < n,
    ensures
        ({
            let out = latency_seed(m, t, n).out;
            let k = t.out.len() + 2 * i;
            &&& out.len() == t.out.len() + 2 * n
            &&& tape::reads(out[k], 1, 0, m.base_price - (i + 1), 500, (t.next_oid + 2 * i) as u64, t.ts)
            &&& tape::reads(out[k + 1], 1, 1, m.base_price + (i + 1), 500, (t.next_oid + 2 * i + 1) as u64, t.ts)
        }),
        latency_seed(m, t, n).next_oid == t.next_oid + 2 * n,
        latency_seed(m, t, n).ts == t.ts,
        LATENCY_LEVELS == 10,
    decreases n,
{
    if i < n - 1 {
        seeds_fill_both_sides(m, t, (n - 1) as nat, i);
    } else {
        lemma_seed_shape(m, t, (n - 1) as nat);
    }
}

proof fn lemma_seed_shape(m: LatencyModel, t: TapeModel, n: nat)
    requires
        n <= 64,
        t.next_oid <= u64::MAX - 200,
    ensures
        latency_seed(m, t, n).out.len() == t.out.len() + 2 * n,
        latency_seed(m, t, n).next_oid == t.next_oid + 2 * n,
        latency_seed(m, t, n).ts == t.ts,
    decreases n,
{
    if n > 0 {
        lemma_seed_shape(m, t, (n - 1) as nat);
    }
}

/// A reaction is adds and cancels in turn of two hundred, one to four ticks from the print
/// on one side, one every fifty microseconds.
pub proof fn reactions_take_turns(t: TapeModel, side: Side, print: u64, n: nat, i: int)
    requires
        n <= 64,
        t.next_oid <= u64::MAX - 200,
        t.ts <= u64::MAX - 5_000_000,
        64 <= print <= u64::MAX - 64,
        0 <= i < n,
    ensures
        ({
            let out = reaction(t, side, print, n).out;
            let k = t.out.len() + i;
            let off = i % 4 + 1;
            &&& out.len() == t.out.len() + n
            &&& side == Side::Bid ==> tape::reads(
                out[k],
                if i % 2 == 0 { 1 } else { 2 },
                0,
                print - off,
                200,
                (t.next_oid + i) as u64,
                (t.ts + 50_000 * i) as u64,
            )
            &&& side == Side::Ask ==> tape::reads(
                out[k],
                if i % 2 == 0 { 1 } else { 2 },
                1,
                print + off,
                200,
                (t.next_oid + i) as u64,
                (t.ts + 50_000 * i) as u64,
            )
        }),
    decreases n,
{
    if i < n - 1 {
        reactions_take_turns(t, side, print, (n - 1) as nat, i);
    } else {
        lemma_reaction_shape(t, side, print, (n - 1) as nat);
    }
}

proof fn lemma_reaction_shape(t: TapeModel, side: Side, print: u64, n: nat)
    requires
        n <= 64,
        t.next_oid <= u64::MAX - 200,
        t.ts <= u64::MAX - 5_000_000,
    ensures
        reaction(t, side, print, n).out.len() == t.out.len() + n,
        reaction(t, side, print, n).next_oid == t.next_oid + n,
        reaction(t, side, print, n).ts == t.ts + 50_000 * n,
    decreases n,
{
    if n > 0 {
        lemma_reaction_shape(t, side, print, (n - 1) as nat);
    }
}

/// A burst is a print of four hundred one tick from the base, and a tenth of a millisecond
/// later the reaction of the other side to it.
pub proof fn bursts_print_and_react(m: LatencyModel, t: TapeModel)
    requires
        m.burst_size <= 16,
        t.next_oid <= u64::MAX - 300,
        t.ts <= u64::MAX - 6_000_000,
        m.base_price >= 100,
        m.base_price <= u64::MAX - 100,
    ensures
        ({
            let n = latency_burst(m, t);
            let x = n.out[t.out.len() as int];
            let late = (t.ts + 100_000) as u64;
            let sold = 2 * t.peek() < 0x1_0000_0000_0000_0000;
            &&& n.out.len() == t.out.len() + 1 + m.burst_size
            &&& sold ==> tape::reads(x, 4, 1, m.base_price + 1, 400, t.next_oid, t.ts)
            &&& !sold ==> tape::reads(x, 4, 0, m.base_price - 1, 400, t.next_oid, t.ts)
            &&& m.burst_size > 0 ==> {
                let y = n.out[(t.out.len() + 1) as int];
                &&& sold ==> tape::reads(y, 1, 0, m.base_price as int, 200, (t.next_oid + 1) as u64, late)
                &&& !sold ==> tape::reads(y, 1, 1, m.base_price as int, 200, (t.next_oid + 1) as u64, late)
            }
        }),
{
    let other = t.coin();
    let side = match other {
        Side::Bid => Side::Ask,
        Side::Ask => Side::Bid,
    };
    let print = tape::away(side, m.base_price, 1);
    let u = t.drawn().sent_fresh(EventType::Trade, side, print, 400).later(100_000);
    lemma_reaction_shape(u, other, print, m.burst_size as nat);
    lemma_reaction_front(u, other, print, m.burst_size as nat, t.out.len() as int);
    if m.burst_size > 0 {
        reactions_take_turns(u, other, print, m.burst_size as nat, 0);
    }
}

proof fn lemma_reaction_front(t: TapeModel, side: Side, print: u64, n: nat, i: int)
    requires
        0 <= i < t.out.len(),
    ensures
        reaction(t, side, print, n).out.len() == t.out.len() + n,
        reaction(t, side, print, n).out[i] == t.out[i],
    decreases n,
{
    if n > 0 {
        lemma_reaction_front(t, side, print, (n - 1) as nat, i);
    }
}

/// A step seeds once, prints one burst while any is left, and the next is due a period
/// later.
pub proof fn latency_steps_use_up_the_bursts(m: LatencyModel, now_ns: u64, base_seq: u64)
    requires
        now_ns + m.step_period_ns <= u64::MAX,
        m.next_oid <= u64::MAX - 400,
    ensures
        ({
            let (n, out) = <LatencyArbProxyGenerator as StormGenerator>::stepped(m, now_ns, base_seq);
            let seeds = if m.seeded { 0int } else { 20int };
            &&& n.seeded
            &&& m.bursts_remaining > 0 ==> n.bursts_remaining == m.bursts_remaining - 1 && out.len() == seeds + 1
                + m.burst_size && n.next_due == now_ns + m.step_period_ns
            &&& m.bursts_remaining == 0 ==> n.bursts_remaining == 0 && out.len() == seeds
            &&& <LatencyArbProxyGenerator as StormGenerator>::span(m) == out.len()
            &&& <LatencyArbProxyGenerator as StormGenerator>::due(n) == n.next_due
            &&& <LatencyArbProxyGenerator as StormGenerator>::done(n) <==> n.bursts_remaining == 0
        }),
{
    let blank = tape::blank(m.rng, m.next_oid, base_seq, now_ns);
    lemma_seed_shape(m, blank, LATENCY_LEVELS as nat);
    let depth = if m.seeded {
        blank
    } else {
        latency_seed(m, blank, LATENCY_LEVELS as nat)
    };
    let other = depth.coin();
    let side = match other {
        Side::Bid => Side::Ask,
        Side::Ask => Side::Bid,
    };
    let print = tape::away(side, m.base_price, 1);
    let u = depth.drawn().sent_fresh(EventType::Trade, side, print, 400).later(100_000);
    lemma_reaction_front(u, other, print, m.burst_size as nat, depth.out.len() as int);
}

} // verus!
