//! Orders that appear and vanish untraded.

use crate::book::event::{EventType, SequencedEvent, Side};
use crate::chaos::generators::dial::{lerp, lerp_round};
#[allow(unused_imports)]
use crate::chaos::generators::{dial, rng, tape};
use crate::chaos::generators::rng::DetRng;
use crate::chaos::generators::tape::{price_away, Tape, TapeModel};
use crate::chaos::generators::StormGenerator;
use crate::ratio::Ratio;
use vstd::prelude::*;

verus! {

/// How many ticks the orders are spread over.
pub const PHANTOM_BAND: u64 = 32;

/// Separates this generator's random source from the others'.
pub const PHANTOM_SALT: u64 = 0xA1A1_A1A1_A1A1_A1A1;

/// The first order id.
pub const PHANTOM_FIRST_ID: u64 = 1_000_000;

/// What the generator is.
pub struct PhantomModel {
    pub rng: u64,
    pub base_price: u64,
    pub next_oid: u64,
    pub cycles_per_step: u32,
    pub step_period_ns: u64,
    pub next_due: u64,
    pub cycles_remaining: u32,
    pub gap_ns: u64,
}

/// Writes orders that are cancelled right after they were added.
#[derive(Debug)]
pub struct PhantomLiquidityGenerator {
    rng: u64,
    base_price: u64,
    next_oid: u64,
    cycles_per_step: u32,
    step_period_ns: u64,
    next_due: u64,
    cycles_remaining: u32,
    gap_ns: u64,
}

impl View for PhantomLiquidityGenerator {
    type V = PhantomModel;

    closed spec fn view(&self) -> PhantomModel {
        PhantomModel {
            rng: self.rng,
            base_price: self.base_price,
            next_oid: self.next_oid,
            cycles_per_step: self.cycles_per_step,
            step_period_ns: self.step_period_ns,
            next_due: self.next_due,
            cycles_remaining: self.cycles_remaining,
            gap_ns: self.gap_ns,
        }
    }
}

/// The generator of a seed and a severity.
pub open spec fn new_phantom(seed: u64, severity: Ratio, base_price: u64, total_cycles: u32) -> PhantomModel {
    PhantomModel {
        rng: rng::first_state(seed ^ PHANTOM_SALT),
        base_price,
        next_oid: PHANTOM_FIRST_ID,
        cycles_per_step: dial::dial_near(severity, 1, 8) as u32,
        step_period_ns: dial::dial_down(severity, 50_000_000, 5_000_000) as u64,
        next_due: 0,
        cycles_remaining: total_cycles,
        gap_ns: dial::dial_down(severity, 2_000_000, 50_000) as u64,
    }
}

/// One order: added, and cancelled half a gap later.
pub open spec fn phantom_cycle(m: PhantomModel, t: TapeModel) -> TapeModel {
    let side = t.coin();
    let t1 = t.drawn();
    let price = tape::away(side, m.base_price, (2 + t1.peek() % PHANTOM_BAND) as u64);
    let t2 = t1.drawn();
    let qty = (200 + t2.peek() % 800) as u64;
    let t3 = t2.drawn();
    let id = t3.next_oid;
    t3.named().sent(EventType::OrderAdd, side, price, qty, id).later(m.gap_ns / 2).sent(
        EventType::OrderCancel,
        side,
        price,
        qty,
        id,
    ).later(m.gap_ns / 2)
}

/// Some orders in a row.
pub open spec fn phantom_cycles(m: PhantomModel, t: TapeModel, n: nat) -> TapeModel
    decreases n,
{
    if n == 0 {
        t
    } else {
        phantom_cycle(m, phantom_cycles(m, t, (n - 1) as nat))
    }
}

/// How many orders the next step writes.
pub open spec fn phantom_due(m: PhantomModel) -> u32 {
    if m.cycles_per_step < m.cycles_remaining {
        m.cycles_per_step
    } else {
        m.cycles_remaining
    }
}

proof fn lemma_cycles_len(m: PhantomModel, t: TapeModel, n: nat)
    ensures
        phantom_cycles(m, t, n).seq == t.seq + 2 * n,
        forall|from: int| #[trigger] tape::told(t, from) ==> tape::told(phantom_cycles(m, t, n), from),
    decreases n,
{
    if n > 0 {
        lemma_cycles_len(m, t, (n - 1) as nat);
    }
}

impl PhantomLiquidityGenerator {
    /// A generator that writes `total_cycles` orders. A higher severity makes
    /// them come faster, more at a time, and vanish sooner.
    pub fn new(seed: u64, severity: Ratio, base_price: u64, total_cycles: u32) -> (g: Self)
        ensures
            g@ == new_phantom(seed, severity, base_price, total_cycles),
            PhantomLiquidityGenerator::wf(g@),
    {
        PhantomLiquidityGenerator {
            rng: DetRng::new(seed ^ PHANTOM_SALT).state(),
            base_price,
            next_oid: PHANTOM_FIRST_ID,
            cycles_per_step: lerp_round(severity, 1, 8) as u32,
            step_period_ns: lerp(severity, 50_000_000, 5_000_000),
            next_due: 0,
            cycles_remaining: total_cycles,
            gap_ns: lerp(severity, 2_000_000, 50_000),
        }
    }

    fn cycle(&self, t: &mut Tape)
        requires
            old(t).wf(),
            old(t)@.seq + 2 <= u64::MAX,
        ensures
            final(t).wf(),
            final(t).from() == old(t).from(),
            final(t)@ == phantom_cycle(self@, old(t)@),
    {
        let side: Side = t.toss();
        let off: u64 = 2 + t.draw() % PHANTOM_BAND;
        let price: u64 = price_away(side, self.base_price, off);
        let qty: u64 = 200 + t.draw() % 800;
        let id: u64 = t.take_id();
        t.send(EventType::OrderAdd, side, price, qty, id);
        t.wait(self.gap_ns / 2);
        t.send(EventType::OrderCancel, side, price, qty, id);
        t.wait(self.gap_ns / 2);
    }
}

impl StormGenerator for PhantomLiquidityGenerator {
    open spec fn wf(m: PhantomModel) -> bool {
        1 <= m.cycles_per_step <= 8
    }

    open spec fn span(m: PhantomModel) -> nat {
        (2 * phantom_due(m)) as nat
    }

    open spec fn stepped(m: PhantomModel, now_ns: u64, base_seq: u64) -> (PhantomModel, Seq<SequencedEvent>) {
        let t = phantom_cycles(m, tape::blank(m.rng, m.next_oid, base_seq, now_ns), phantom_due(m) as nat);
        (
            PhantomModel {
                rng: t.rng,
                next_oid: t.next_oid,
                next_due: now_ns.saturating_add(m.step_period_ns),
                cycles_remaining: (m.cycles_remaining - phantom_due(m)) as u32,
                ..m
            },
            t.out,
        )
    }

    open spec fn due(m: PhantomModel) -> u64 {
        m.next_due
    }

    open spec fn done(m: PhantomModel) -> bool {
        m.cycles_remaining == 0
    }

    open spec fn label(m: PhantomModel) -> Seq<char> {
        "phantom_liquidity"@
    }

    proof fn steps_are_numbered(m: PhantomModel, now_ns: u64, base_seq: u64) {
        let blank = tape::blank(m.rng, m.next_oid, base_seq, now_ns);
        assert(tape::told(blank, base_seq as int));
        lemma_cycles_len(m, blank, phantom_due(m) as nat);
    }

    fn step(&mut self, now_ns: u64, base_seq: u64) -> (out: Vec<SequencedEvent>) {
        let ghost m = self@;
        let ghost blank = tape::blank(m.rng, m.next_oid, base_seq, now_ns);
        let mut t: Tape = Tape::start(self.rng, self.next_oid, base_seq, now_ns);
        let cycles: u32 = if self.cycles_per_step < self.cycles_remaining {
            self.cycles_per_step
        } else {
            self.cycles_remaining
        };
        let mut i: u32 = 0;
        while i < cycles
            invariant
                m == self@,
                i <= cycles,
                cycles == phantom_due(m),
                base_seq + 2 * cycles <= u64::MAX,
                t.wf(),
                t.from() == base_seq,
                blank.seq == base_seq,
                t@ == phantom_cycles(m, blank, i as nat),
            decreases cycles - i,
        {
            proof {
                lemma_cycles_len(m, blank, i as nat);
            }
            self.cycle(&mut t);
            i += 1;
        }
        proof {
            lemma_cycles_len(m, blank, cycles as nat);
        }
        self.rng = t.source();
        self.next_oid = t.next_id();
        self.cycles_remaining = self.cycles_remaining - cycles;
        self.next_due = now_ns.saturating_add(self.step_period_ns);
        t.finish()
    }

    fn next_due_ns(&self) -> (t: u64) {
        self.next_due
    }

    fn finished(&self) -> (b: bool) {
        self.cycles_remaining == 0
    }

    fn kind_label(&self) -> (s: &'static str) {
        "phantom_liquidity"
    }
}

// ─── Laws ───────────────────────────────────────────────────────────

/// What a generator is set to: from calm without severity to fierce with all of it.
pub proof fn phantoms_grow_with_severity(seed: u64, severity: Ratio, base_price: u64, total: u32)
    ensures
        ({
            let m = new_phantom(seed, severity, base_price, total);
            &&& m.base_price == base_price
            &&& m.cycles_remaining == total
            &&& m.next_due == 0
            &&& m.next_oid == 1_000_000
            &&& m.rng == rng::first_state(seed ^ PHANTOM_SALT)
            &&& severity.num == 0 && severity.den > 0 ==> m.cycles_per_step == 1 && m.step_period_ns == 50_000_000 && m.gap_ns == 2_000_000
            &&& severity.num >= severity.den ==> m.cycles_per_step == 8 && m.step_period_ns == 5_000_000 && m.gap_ns == 50_000
            &&& m.cycles_per_step == dial::dial_near(severity, 1, 8)
            &&& m.step_period_ns == dial::dial_down(severity, 50_000_000, 5_000_000)
            &&& m.gap_ns == dial::dial_down(severity, 2_000_000, 50_000)
        }),
{
    dial::dials_go_from_end_to_end(severity, 1, 8);
    dial::lemma_weighted(severity, 1, 8);
    dial::dials_go_from_end_to_end(severity, 50_000_000, 5_000_000);
    dial::lemma_weighted(severity, 50_000_000, 5_000_000);
    dial::dials_go_from_end_to_end(severity, 2_000_000, 50_000);
    dial::lemma_weighted(severity, 2_000_000, 50_000);
}

/// One cycle writes an order and takes it back half a gap later: the same id, side, price
/// and quantity, a few ticks from the base on its side. The id is used up.
pub proof fn phantom_cycles_place_and_pull(m: PhantomModel, t: TapeModel)
    requires
        t.ts + m.gap_ns <= u64::MAX,
        t.next_oid < u64::MAX,
        m.base_price >= 64,
        m.base_price <= u64::MAX - 64,
    ensures
        ({
            let n = phantom_cycle(m, t);
            let k = t.out.len() as int;
            let a = n.out[k];
            let b = n.out[k + 1];
            let qty = a.event.qty;
            let side = a.event.side;
            let half = (m.gap_ns / 2) as int;
            let off = if side == 0 {
                m.base_price - a.event.price
            } else {
                a.event.price - m.base_price
            };
            &&& n.out.len() == k + 2
            &&& n.out.take(k) == t.out
            &&& tape::reads(a, 1, side, a.event.price as int, qty as int, t.next_oid, t.ts)
            &&& tape::reads(b, 2, side, a.event.price as int, qty as int, t.next_oid, (t.ts + half) as u64)
            &&& side == 0 <==> 2 * t.peek() < 0x1_0000_0000_0000_0000
            &&& side <= 1
            &&& off == 2 + t.drawn().peek() % 32
            &&& qty == 200 + t.drawn().drawn().peek() % 800
            &&& n.next_oid == t.next_oid + 1
            &&& n.seq == t.seq + 2
            &&& n.ts == t.ts + 2 * half
        }),
{
    assert(phantom_cycle(m, t).out.take(t.out.len() as int) =~= t.out);
}

proof fn lemma_phantom_count(m: PhantomModel, t: TapeModel, n: nat)
    ensures
        phantom_cycles(m, t, n).out.len() == t.out.len() + 2 * n,
    decreases n,
{
    if n > 0 {
        lemma_phantom_count(m, t, (n - 1) as nat);
    }
}

/// A step writes as many cycles as it may, two events each, and no more than are left; the
/// next one is due a period later.
pub proof fn phantom_steps_use_up_the_cycles(m: PhantomModel, now_ns: u64, base_seq: u64)
    requires
        now_ns + m.step_period_ns <= u64::MAX,
    ensures
        ({
            let (n, out) = <PhantomLiquidityGenerator as StormGenerator>::stepped(m, now_ns, base_seq);
            let cycles = m.cycles_remaining - n.cycles_remaining;
            &&& out.len() == 2 * cycles
            &&& 0 <= cycles <= m.cycles_per_step
            &&& n.cycles_remaining == 0 || cycles == m.cycles_per_step
            &&& n.next_due == now_ns + m.step_period_ns
            &&& <PhantomLiquidityGenerator as StormGenerator>::due(n) == n.next_due
            &&& <PhantomLiquidityGenerator as StormGenerator>::done(n) <==> n.cycles_remaining == 0
            &&& n.base_price == m.base_price && n.cycles_per_step == m.cycles_per_step && n.step_period_ns
                == m.step_period_ns && n.gap_ns == m.gap_ns
        }),
{
    lemma_phantom_count(m, tape::blank(m.rng, m.next_oid, base_seq, now_ns), phantom_due(m) as nat);
}

} // verus!
