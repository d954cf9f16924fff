//! Large orders that are withdrawn before they can trade.

use crate::book::event::{EventType, SequencedEvent, Side};
use crate::chaos::generators::dial::{lerp, lerp_round};
#[allow(unused_imports)]
use crate::chaos::generators::{dial, rng, tape};
use crate::chaos::generators::rng::DetRng;
use crate::chaos::generators::tape::{price_away, Tape, TapeModel};
use crate::chaos::generators::StormGenerator;
use crate::ratio::Ratio;
use vstd::prelude::*;

verus! {

/// Separates this generator's random source from the others'.
pub const SPOOF_SALT: u64 = 0xD1D1_D1D1_D1D1_D1D1;

/// The first order id.
pub const SPOOF_FIRST_ID: u64 = 1_750_000;

/// What the generator is.
pub struct SpoofModel {
    pub rng: u64,
    pub base_price: u64,
    pub next_oid: u64,
    pub cycles_per_step: u32,
    pub step_period_ns: u64,
    pub next_due: u64,
    pub cycles_remaining: u32,
    pub gap_ns: u64,
    pub qty: u64,
}

/// Writes large orders near the touch and cancels them.
#[derive(Debug)]
pub struct SpoofGenerator {
    rng: u64,
    base_price: u64,
    next_oid: u64,
    cycles_per_step: u32,
    step_period_ns: u64,
    next_due: u64,
    cycles_remaining: u32,
    gap_ns: u64,
    qty: u64,
}

impl View for SpoofGenerator {
    type V = SpoofModel;

    closed spec fn view(&self) -> SpoofModel {
        SpoofModel {
            rng: self.rng,
            base_price: self.base_price,
            next_oid: self.next_oid,
            cycles_per_step: self.cycles_per_step,
            step_period_ns: self.step_period_ns,
            next_due: self.next_due,
            cycles_remaining: self.cycles_remaining,
            gap_ns: self.gap_ns,
            qty: self.qty,
        }
    }
}

/// The generator of a seed and a severity.
pub open spec fn new_spoof(seed: u64, severity: Ratio, base_price: u64, total_cycles: u32) -> SpoofModel {
    SpoofModel {
        rng: rng::first_state(seed ^ SPOOF_SALT),
        base_price,
        next_oid: SPOOF_FIRST_ID,
        cycles_per_step: dial::dial_near(severity, 1, 6) as u32,
        step_period_ns: dial::dial_down(severity, 25_000_000, 5_000_000) as u64,
        next_due: 0,
        cycles_remaining: total_cycles,
        gap_ns: dial::dial_down(severity, 1_000_000, 50_000) as u64,
        qty: dial::dial_down(severity, 2_000, 20_000) as u64,
    }
}

/// One order: added one to four ticks from the base, and cancelled.
pub open spec fn spoof_cycle(m: SpoofModel, t: TapeModel) -> TapeModel {
    let side = t.coin();
    let t1 = t.drawn();
    let price = tape::away(side, m.base_price, (1 + t1.peek() % 4) as u64);
    let t2 = t1.drawn();
    let id = t2.next_oid;
    t2.named().sent(EventType::OrderAdd, side, price, m.qty, id).later(m.gap_ns / 2).sent(
        EventType::OrderCancel,
        side,
        price,
        m.qty,
        id,
    ).later(m.gap_ns / 2)
}

/// Some orders in a row.
pub open spec fn spoof_cycles(m: SpoofModel, t: TapeModel, n: nat) -> TapeModel
    decreases n,
{
    if n == 0 {
        t
    } else {
        spoof_cycle(m, spoof_cycles(m, t, (n - 1) as nat))
    }
}

/// How many orders the next step writes.
pub open spec fn spoof_due(m: SpoofModel) -> u32 {
    if m.cycles_per_step < m.cycles_remaining {
        m.cycles_per_step
    } else {
        m.cycles_remaining
    }
}

proof fn lemma_cycles_len(m: SpoofModel, t: TapeModel, n: nat)
    ensures
        spoof_cycles(m, t, n).seq == t.seq + 2 * n,
        forall|from: int| #[trigger] tape::told(t, from) ==> tape::told(spoof_cycles(m, t, n), from),
    decreases n,
{
    if n > 0 {
        lemma_cycles_len(m, t, (n - 1) as nat);
    }
}

impl SpoofGenerator {
    /// A generator that writes `total_cycles` orders. A higher severity makes
    /// them larger, come faster, more at a time, and vanish sooner.
    pub fn new(seed: u64, severity: Ratio, base_price: u64, total_cycles: u32) -> (g: Self)
        ensures
            g@ == new_spoof(seed, severity, base_price, total_cycles),
            SpoofGenerator::wf(g@),
    {
        SpoofGenerator {
            rng: DetRng::new(seed ^ SPOOF_SALT).state(),
            base_price,
            next_oid: SPOOF_FIRST_ID,
            cycles_per_step: lerp_round(severity, 1, 6) as u32,
            step_period_ns: lerp(severity, 25_000_000, 5_000_000),
            next_due: 0,
            cycles_remaining: total_cycles,
            gap_ns: lerp(severity, 1_000_000, 50_000),
            qty: lerp(severity, 2_000, 20_000),
        }
    }

    fn cycle(&self, t: &mut Tape)
        requires
            old(t).wf(),
            old(t)@.seq + 2 <= u64::MAX,
        ensures
            final(t).wf(),
            final(t).from() == old(t).from(),
            final(t)@ == spoof_cycle(self@, old(t)@),
    {
        let side: Side = t.toss();
        let off: u64 = 1 + t.draw() % 4;
        let price: u64 = price_away(side, self.base_price, off);
        let id: u64 = t.take_id();
        t.send(EventType::OrderAdd, side, price, self.qty, id);
        t.wait(self.gap_ns / 2);
        t.send(EventType::OrderCancel, side, price, self.qty, id);
        t.wait(self.gap_ns / 2);
    }
}

impl StormGenerator for SpoofGenerator {
    open spec fn wf(m: SpoofModel) -> bool {
        &&& 1 <= m.cycles_per_step <= 6
        &&& 2_000 <= m.qty <= 20_000
    }

    open spec fn span(m: SpoofModel) -> nat {
        (2 * spoof_due(m)) as nat
    }

    open spec fn stepped(m: SpoofModel, now_ns: u64, base_seq: u64) -> (SpoofModel, Seq<SequencedEvent>) {
        let t = spoof_cycles(m, tape::blank(m.rng, m.next_oid, base_seq, now_ns), spoof_due(m) as nat);
        (
            SpoofModel {
                rng: t.rng,
                next_oid: t.next_oid,
                next_due: now_ns.saturating_add(m.step_period_ns),
                cycles_remaining: (m.cycles_remaining - spoof_due(m)) as u32,
                ..m
            },
            t.out,
        )
    }

    open spec fn due(m: SpoofModel) -> u64 {
        m.next_due
    }

    open spec fn done(m: SpoofModel) -> bool {
        m.cycles_remaining == 0
    }

    open spec fn label(m: SpoofModel) -> Seq<char> {
        "spoof"@
    }

    proof fn steps_are_numbered(m: SpoofModel, now_ns: u64, base_seq: u64) {
        let blank = tape::blank(m.rng, m.next_oid, base_seq, now_ns);
        assert(tape::told(blank, base_seq as int));
        lemma_cycles_len(m, blank, spoof_due(m) as nat);
    }

    fn step(&mut self, now_ns: u64, base_seq: u64) -> (out: Vec<SequencedEvent>) {
        let ghost m = self@;
        let ghost blank = tape::blank(m.rng, m.next_oid, base_seq, now_ns);
        let mut t: Tape = Tape::start(self.rng, self.next_oid, base_seq, now_ns);
        let cycles: u32 = if self.cycles_per_step < self.cycles_remaining {
            self.cycles_per_step
        } else {
            self.cycles_remaining
        };
        let mut i: u32 = 0;
        while i < cycles
            invariant
                m == self@,
                i <= cycles,
                cycles == spoof_due(m),
                base_seq + 2 * cycles <= u64::MAX,
                t.wf(),
                t.from() == base_seq,
                blank.seq == base_seq,
                t@ == spoof_cycles(m, blank, i as nat),
            decreases cycles - i,
        {
            proof {
                lemma_cycles_len(m, blank, i as nat);
            }
            self.cycle(&mut t);
            i += 1;
        }
        proof {
            lemma_cycles_len(m, blank, cycles as nat);
        }
        self.rng = t.source();
        self.next_oid = t.next_id();
        self.cycles_remaining = self.cycles_remaining - cycles;
        self.next_due = now_ns.saturating_add(self.step_period_ns);
        t.finish()
    }

    fn next_due_ns(&self) -> (t: u64) {
        self.next_due
    }

    fn finished(&self) -> (b: bool) {
        self.cycles_remaining == 0
    }

    fn kind_label(&self) -> (s: &'static str) {
        "spoof"
    }
}

// ─── Laws ───────────────────────────────────────────────────────────

/// What a generator is set to: from calm without severity to fierce with all of it.
pub proof fn spoofs_grow_with_severity(seed: u64, severity: Ratio, base_price: u64, total: u32)
    ensures
        ({
            let m = new_spoof(seed, severity, base_price, total);
            &&& m.base_price == base_price
            &&& m.cycles_remaining == total
            &&& m.next_due == 0
            &&& m.next_oid == 1_750_000
            &&& m.rng == rng::first_state(seed ^ SPOOF_SALT)
            &&& severity.num == 0 && severity.den > 0 ==> m.cycles_per_step == 1 && m.step_period_ns == 25_000_000 && m.gap_ns == 1_000_000 && m.qty == 2_000
            &&& severity.num >= severity.den ==> m.cycles_per_step == 6 && m.step_period_ns == 5_000_000 && m.gap_ns == 50_000 && m.qty == 20_000
            &&& m.cycles_per_step == dial::dial_near(severity, 1, 6)
            &&& m.step_period_ns == dial::dial_down(severity, 25_000_000, 5_000_000)
            &&& m.gap_ns == dial::dial_down(severity, 1_000_000, 50_000)
            &&& m.qty == dial::dial_down(severity, 2_000, 20_000)
        }),
{
    dial::dials_go_from_end_to_end(severity, 1, 6);
    dial::lemma_weighted(severity, 1, 6);
    dial::dials_go_from_end_to_end(severity, 25_000_000, 5_000_000);
    dial::lemma_weighted(severity, 25_000_000, 5_000_000);
    dial::dials_go_from_end_to_end(severity, 1_000_000, 50_000);
    dial::lemma_weighted(severity, 1_000_000, 50_000);
    dial::dials_go_from_end_to_end(severity, 2_000, 20_000);
    dial::lemma_weighted(severity, 2_000, 20_000);
}

/// One cycle writes an order and takes it back half a gap later: the same id, side, price
/// and quantity, a few ticks from the base on its side. The id is used up.
pub proof fn spoof_cycles_place_and_pull(m: SpoofModel, t: TapeModel)
    requires
        t.ts + m.gap_ns <= u64::MAX,
        t.next_oid < u64::MAX,
        m.base_price >= 64,
        m.base_price <= u64::MAX - 64,
    ensures
        ({
            let n = spoof_cycle(m, t);
            let k = t.out.len() as int;
            let a = n.out[k];
            let b = n.out[k + 1];
            let qty = a.event.qty;
            let side = a.event.side;
            let half = (m.gap_ns / 2) as int;
            let off = if side == 0 {
                m.base_price - a.event.price
            } else {
                a.event.price - m.base_price
            };
            &&& n.out.len() == k + 2
            &&& n.out.take(k) == t.out
            &&& tape::reads(a, 1, side, a.event.price as int, qty as int, t.next_oid, t.ts)
            &&& tape::reads(b, 2, side, a.event.price as int, qty as int, t.next_oid, (t.ts + half) as u64)
            &&& side == 0 <==> 2 * t.peek() < 0x1_0000_0000_0000_0000
            &&& side <= 1
            &&& off == 1 + t.drawn().peek() % 4
            &&& qty == m.qty
            &&& n.next_oid == t.next_oid + 1
            &&& n.seq == t.seq + 2
            &&& n.ts == t.ts + 2 * half
        }),
{
    assert(spoof_cycle(m, t).out.take(t.out.len() as int) =~= t.out);
}

proof fn lemma_spoof_count(m: SpoofModel, t: TapeModel, n: nat)
    ensures
        spoof_cycles(m, t, n).out.len() == t.out.len() + 2 * n,
    decreases n,
{
    if n > 0 {
        lemma_spoof_count(m, t, (n - 1) as nat);
    }
}

/// A step writes as many cycles as it may, two events each, and no more than are left; the
/// next one is due a period later.
pub proof fn spoof_steps_use_up_the_cycles(m: SpoofModel, now_ns: u64, base_seq: u64)
    requires
        now_ns + m.step_period_ns <= u64::MAX,
    ensures
        ({
            let (n, out) = <SpoofGenerator as StormGenerator>::stepped(m, now_ns, base_seq);
            let cycles = m.cycles_remaining - n.cycles_remaining;
            &&& out.len() == 2 * cycles
            &&& 0 <= cycles <= m.cycles_per_step
            &&& n.cycles_remaining == 0 || cycles == m.cycles_per_step
            &&& n.next_due == now_ns + m.step_period_ns
            &&& <SpoofGenerator as StormGenerator>::due(n) == n.next_due
            &&& <SpoofGenerator as StormGenerator>::done(n) <==> n.cycles_remaining == 0
            &&& n.base_price == m.base_price && n.cycles_per_step == m.cycles_per_step && n.step_period_ns
                == m.step_period_ns && n.gap_ns == m.gap_ns
        }),
{
    lemma_spoof_count(m, tape::blank(m.rng, m.next_oid, base_seq, now_ns), spoof_due(m) as nat);
}

} // verus!
