//! A calm stretch, followed by a storm of cancels.

use crate::book::event::{EventType, SequencedEvent, Side};
use crate::chaos::generators::dial::{clamp_severity, lerp_round};
#[allow(unused_imports)]
use crate::chaos::generators::{dial, rng, tape};
use crate::chaos::generators::rng::DetRng;
use crate::chaos::generators::tape::{price_away, Tape, TapeModel};
use crate::chaos::generators::StormGenerator;
use crate::ratio::Ratio;
use vstd::prelude::*;

verus! {

/// Separates this generator's random source from the others'.
pub const CANCEL_SALT: u64 = 0xC1C1_C1C1_C1C1_C1C1;

/// The first order id.
pub const CANCEL_FIRST_ID: u64 = 2_000_000;

/// Events of one step.
pub const CANCEL_BATCH: u32 = 128;

/// Time between two steps.
pub const CANCEL_PERIOD_NS: u64 = 1_000_000;

/// Steps of the calm stretch.
pub const CALM_BATCHES: u32 = 16;

/// Sequence numbers left out when the storm breaks, so that a rolling window
/// holds nothing of the calm any more.
pub const ONSET_GAP: u64 = 4_096;

/// A probability.
#[derive(Debug, Clone, Copy, PartialEq, Eq, Structural)]
pub struct Chance {
    pub num: u64,
    pub den: u64,
}

impl Chance {
    /// Between zero and one, on a small enough scale.
    pub open spec fn wf(self) -> bool {
        self.num <= self.den && 0 < self.den <= 100 * 0xffff_ffff
    }
}

/// How often a calm event that is no trade is a cancel.
pub open spec fn calm_chance() -> Chance {
    Chance { num: 30, den: 100 }
}

/// How often a storm event that is no trade is a cancel: from 92 to 99 in a
/// hundred.
pub open spec fn storm_chance(severity: Ratio) -> Chance {
    let c = dial::capped_at_one(severity);
    Chance { num: (92 * c.den + 7 * c.num) as u64, den: (100 * c.den) as u64 }
}

/// What the generator is.
pub struct CancelModel {
    pub rng: u64,
    pub base_price: u64,
    pub next_oid: u64,
    pub cancel_p: Chance,
    pub storm_p: Chance,
    pub warmup_batches_remaining: u32,
    pub storm_batches_remaining: u32,
    pub next_due: u64,
    pub storm_started: bool,
}

/// Writes a calm mix of events and then mostly cancels.
#[derive(Debug)]
pub struct CancellationStormGenerator {
    rng: u64,
    base_price: u64,
    next_oid: u64,
    cancel_p: Chance,
    storm_p: Chance,
    warmup_batches_remaining: u32,
    storm_batches_remaining: u32,
    next_due: u64,
    storm_started: bool,
}

impl View for CancellationStormGenerator {
    type V = CancelModel;

    closed spec fn view(&self) -> CancelModel {
        CancelModel {
            rng: self.rng,
            base_price: self.base_price,
            next_oid: self.next_oid,
            cancel_p: self.cancel_p,
            storm_p: self.storm_p,
            warmup_batches_remaining: self.warmup_batches_remaining,
            storm_batches_remaining: self.storm_batches_remaining,
            next_due: self.next_due,
            storm_started: self.storm_started,
        }
    }
}

/// The generator of a seed and a severity.
pub open spec fn new_cancel(seed: u64, severity: Ratio, base_price: u64) -> CancelModel {
    CancelModel {
        rng: rng::first_state(seed ^ CANCEL_SALT),
        base_price,
        next_oid: CANCEL_FIRST_ID,
        cancel_p: calm_chance(),
        storm_p: storm_chance(severity),
        warmup_batches_remaining: CALM_BATCHES,
        storm_batches_remaining: dial::dial_near(severity, 40, 120) as u32,
        next_due: 0,
        storm_started: false,
    }
}

/// One event in twenty is a trade; of the others a cancel comes up with the
/// given chance. The draw is uniform below two to the sixty-fourth.
pub open spec fn cancel_kind(draw: u64, p: Chance) -> EventType {
    if 20 * draw < 0x1_0000_0000_0000_0000 {
        EventType::Trade
    } else if 20 * p.den * draw < (p.den + 19 * p.num) * 0x1_0000_0000_0000_0000 {
        EventType::OrderCancel
    } else {
        EventType::OrderAdd
    }
}

/// One event, one to eight ticks from the base.
pub open spec fn cancel_event(m: CancelModel, t: TapeModel) -> TapeModel {
    let side = t.coin();
    let t1 = t.drawn();
    let kind = cancel_kind(t1.peek(), m.cancel_p);
    let t2 = t1.drawn();
    let price = tape::away(side, m.base_price, (t2.peek() % 8 + 1) as u64);
    let t3 = t2.drawn();
    let qty = (100 + t3.peek() % 400) as u64;
    t3.drawn().sent_fresh(kind, side, price, qty).later(CANCEL_PERIOD_NS / (CANCEL_BATCH as u64))
}

/// Some events in a row.
pub open spec fn cancel_events(m: CancelModel, t: TapeModel, n: nat) -> TapeModel
    decreases n,
{
    if n == 0 {
        t
    } else {
        cancel_event(m, cancel_events(m, t, (n - 1) as nat))
    }
}

/// The next step is the first of the storm.
pub open spec fn breaks_now(m: CancelModel) -> bool {
    m.warmup_batches_remaining == 0 && m.storm_batches_remaining > 0 && !m.storm_started
}

/// The generator with the phase of the next step set.
pub open spec fn phased(m: CancelModel) -> CancelModel {
    if m.warmup_batches_remaining > 0 {
        CancelModel {
            cancel_p: calm_chance(),
            warmup_batches_remaining: (m.warmup_batches_remaining - 1) as u32,
            ..m
        }
    } else if m.storm_batches_remaining > 0 {
        CancelModel {
            cancel_p: m.storm_p,
            storm_batches_remaining: (m.storm_batches_remaining - 1) as u32,
            storm_started: true,
            ..m
        }
    } else {
        m
    }
}

proof fn lemma_events_len(m: CancelModel, t: TapeModel, n: nat)
    ensures
        cancel_events(m, t, n).seq == t.seq + n,
        forall|from: int| #[trigger] tape::told(t, from) ==> tape::told(cancel_events(m, t, n), from),
    decreases n,
{
    if n > 0 {
        lemma_events_len(m, t, (n - 1) as nat);
    }
}

/// The kind of an event.
fn pick_kind(draw: u64, p: Chance) -> (k: EventType)
    requires
        p.wf(),
    ensures
        k == cancel_kind(draw, p),
{
    let wide: u128 = 0x1_0000_0000_0000_0000;
    let den: u128 = p.den as u128;
    let num: u128 = p.num as u128;
    let x: u128 = draw as u128;
    if 20 * x < wide {
        EventType::Trade
    } else {
        assert(20 * den * x <= 20 * (100 * 0xffff_ffff) * 0xffff_ffff_ffff_ffff) by (nonlinear_arith)
            requires
                0 <= den <= 100 * 0xffff_ffff,
                0 <= x <= 0xffff_ffff_ffff_ffff,
        ;
        assert((den + 19 * num) * wide <= 20 * (100 * 0xffff_ffff) * 0x1_0000_0000_0000_0000) by (nonlinear_arith)
            requires
                0 <= num <= den <= 100 * 0xffff_ffff,
                wide == 0x1_0000_0000_0000_0000,
        ;
        if 20 * den * x < (den + 19 * num) * wide {
            EventType::OrderCancel
        } else {
            EventType::OrderAdd
        }
    }
}

impl CancellationStormGenerator {
    /// A generator of one calm stretch and one storm. A higher severity makes
    /// the storm longer and denser.
    pub fn new(seed: u64, severity: Ratio, base_price: u64) -> (g: Self)
        ensures
            g@ == new_cancel(seed, severity, base_price),
            CancellationStormGenerator::wf(g@),
    {
        let c: Ratio = clamp_severity(severity);
        let storm_p: Chance = Chance {
            num: 92 * c.den as u64 + 7 * c.num as u64,
            den: 100 * c.den as u64,
        };
        CancellationStormGenerator {
            rng: DetRng::new(seed ^ CANCEL_SALT).state(),
            base_price,
            next_oid: CANCEL_FIRST_ID,
            cancel_p: Chance { num: 30, den: 100 },
            storm_p,
            warmup_batches_remaining: CALM_BATCHES,
            storm_batches_remaining: lerp_round(severity, 40, 120) as u32,
            next_due: 0,
            storm_started: false,
        }
    }

    fn one_event(&self, t: &mut Tape)
        requires
            old(t).wf(),
            old(t)@.seq < u64::MAX,
            self@.cancel_p.wf(),
        ensures
            final(t).wf(),
            final(t).from() == old(t).from(),
            final(t)@ == cancel_event(self@, old(t)@),
    {
        let side: Side = t.toss();
        let kind: EventType = pick_kind(t.draw(), self.cancel_p);
        let off: u64 = t.draw() % 8 + 1;
        let price: u64 = price_away(side, self.base_price, off);
        let qty: u64 = 100 + t.draw() % 400;
        t.send_fresh(kind, side, price, qty);
        t.wait(CANCEL_PERIOD_NS / CANCEL_BATCH as u64);
    }
}

impl StormGenerator for CancellationStormGenerator {
    open spec fn wf(m: CancelModel) -> bool {
        &&& m.cancel_p.wf()
        &&& m.storm_p.wf()
    }

    open spec fn span(m: CancelModel) -> nat {
        if breaks_now(m) {
            (ONSET_GAP + CANCEL_BATCH) as nat
        } else {
            CANCEL_BATCH as nat
        }
    }

    open spec fn stepped(m: CancelModel, now_ns: u64, base_seq: u64) -> (CancelModel, Seq<SequencedEvent>) {
        let first = if breaks_now(m) {
            base_seq.saturating_add(ONSET_GAP)
        } else {
            base_seq
        };
        let p = phased(m);
        let t = cancel_events(p, tape::blank(m.rng, m.next_oid, first, now_ns), CANCEL_BATCH as nat);
        (
            CancelModel {
                rng: t.rng,
                next_oid: t.next_oid,
                next_due: now_ns.saturating_add(CANCEL_PERIOD_NS),
                ..p
            },
            t.out,
        )
    }

    open spec fn due(m: CancelModel) -> u64 {
        m.next_due
    }

    open spec fn done(m: CancelModel) -> bool {
        m.warmup_batches_remaining == 0 && m.storm_batches_remaining == 0
    }

    open spec fn label(m: CancelModel) -> Seq<char> {
        "cancellation_storm"@
    }

    proof fn steps_are_numbered(m: CancelModel, now_ns: u64, base_seq: u64) {
        let first = if breaks_now(m) {
            base_seq.saturating_add(ONSET_GAP)
        } else {
            base_seq
        };
        let blank = tape::blank(m.rng, m.next_oid, first, now_ns);
        assert(tape::told(blank, first as int));
        lemma_events_len(phased(m), blank, CANCEL_BATCH as nat);
        assert(tape::told(cancel_events(phased(m), blank, CANCEL_BATCH as nat), first as int));
    }

    fn step(&mut self, now_ns: u64, base_seq: u64) -> (out: Vec<SequencedEvent>) {
        let ghost m = self@;
        let mut first: u64 = base_seq;
        if self.warmup_batches_remaining > 0 {
            self.cancel_p = Chance { num: 30, den: 100 };
            self.warmup_batches_remaining = self.warmup_batches_remaining - 1;
        } else if self.storm_batches_remaining > 0 {
            self.cancel_p = self.storm_p;
            self.storm_batches_remaining = self.storm_batches_remaining - 1;
            if !self.storm_started {
                first = base_seq.saturating_add(ONSET_GAP);
            }
            self.storm_started = true;
        }
        let ghost p = self@;
        assert(p == phased(m));
        let ghost blank = tape::blank(m.rng, m.next_oid, first, now_ns);
        let mut t: Tape = Tape::start(self.rng, self.next_oid, first, now_ns);
        let mut i: u32 = 0;
        while i < CANCEL_BATCH
            invariant
                p == self@,
                p.cancel_p.wf(),
                i <= CANCEL_BATCH,
                first + CANCEL_BATCH <= u64::MAX,
                t.wf(),
                t.from() == first,
                blank.seq == first,
                t@ == cancel_events(p, blank, i as nat),
            decreases CANCEL_BATCH - i,
        {
            proof {
                lemma_events_len(p, blank, i as nat);
            }
            self.one_event(&mut t);
            i += 1;
        }
        proof {
            lemma_events_len(p, blank, CANCEL_BATCH as nat);
        }
        self.rng = t.source();
        self.next_oid = t.next_id();
        self.next_due = now_ns.saturating_add(CANCEL_PERIOD_NS);
        t.finish()
    }

    fn next_due_ns(&self) -> (t: u64) {
        self.next_due
    }

    fn finished(&self) -> (b: bool) {
        self.warmup_batches_remaining == 0 && self.storm_batches_remaining == 0
    }

    fn kind_label(&self) -> (s: &'static str) {
        "cancellation_storm"
    }
}

// ─── Laws ───────────────────────────────────────────────────────────

/// What a generator is set to: from calm without severity to fierce with all of it.
pub proof fn cancel_storms_grow_with_severity(seed: u64, severity: Ratio, base_price: u64)
    ensures
        ({
            let m = new_cancel(seed, severity, base_price);
            &&& m.base_price == base_price
            &&& m.warmup_batches_remaining == 16
            &&& m.next_due == 0
            &&& !m.storm_started
            &&& m.next_oid == 2_000_000
            &&& m.rng == rng::first_state(seed ^ CANCEL_SALT)
            &&& m.cancel_p.num * 10 == m.cancel_p.den * 3
            &&& m.storm_p == storm_chance(severity)
            &&& severity.num == 0 && severity.den > 0 ==> m.storm_batches_remaining == 40
            &&& severity.num >= severity.den ==> m.storm_batches_remaining == 120
            &&& m.storm_batches_remaining == dial::dial_near(severity, 40, 120)
        }),
{
    dial::dials_go_from_end_to_end(severity, 40, 120);
    dial::lemma_weighted(severity, 40, 120);
}

/// In a storm from 92 to 99 of a hundred events that are no trades are cancels, by
/// severity.
pub proof fn storms_cancel_nearly_all(severity: Ratio)
    ensures
        ({
            let p = storm_chance(severity);
            let (n, d) = (severity.num as int, severity.den as int);
            &&& p.den > 0
            &&& n == 0 && d > 0 ==> 100 * p.num == 92 * p.den
            &&& n >= d ==> 100 * p.num == 99 * p.den
            &&& n < d ==> 100 * (p.num * d) == (92 * d + 7 * n) * p.den
        }),
{
    let (n, d) = (severity.num as int, severity.den as int);
    if n < d {
        assert(100 * ((92 * d + 7 * n) * d) == (92 * d + 7 * n) * (100 * d)) by (nonlinear_arith);
    }
}

/// One draw in twenty is a trade. Of the rest, which are nineteen parts of twenty, the
/// lowest share `p` are cancels, and all others adds.
pub proof fn draws_are_shared_out(draw: u64, p: Chance)
    requires
        p.wf(),
    ensures
        ({
            let whole = 0x1_0000_0000_0000_0000int;
            let beyond = 20 * draw - whole;
            &&& beyond < 0 <==> cancel_kind(draw, p) == EventType::Trade
            &&& beyond >= 0 && beyond * p.den < 19 * whole * p.num <==> cancel_kind(draw, p) == EventType::OrderCancel
            &&& beyond >= 0 && beyond * p.den >= 19 * whole * p.num <==> cancel_kind(draw, p) == EventType::OrderAdd
        }),
{
    let whole = 0x1_0000_0000_0000_0000int;
    let (x, d, n) = (draw as int, p.den as int, p.num as int);
    assert((20 * x - whole) * d == 20 * d * x - d * whole) by (nonlinear_arith);
    assert((d + 19 * n) * whole == d * whole + 19 * whole * n) by (nonlinear_arith);
}

/// An event: of the drawn kind and side, one to eight ticks from the base, of a hundred to
/// almost five hundred, with an id of its own, and the batch spread over its period.
#[verifier::rlimit(40)]
pub proof fn events_lie_around_the_base(m: CancelModel, t: TapeModel)
    requires
        t.ts <= u64::MAX - 1_000_000,
        t.next_oid < u64::MAX,
        64 <= m.base_price <= u64::MAX - 64,
    ensures
        ({
            let n = cancel_event(m, t);
            let k = t.out.len() as int;
            let x = n.out[k];
            let off = if x.event.side == 0 {
                m.base_price - x.event.price
            } else {
                x.event.price - m.base_price
            };
            let kind = cancel_kind(t.drawn().peek(), m.cancel_p);
            &&& n.out.len() == k + 1
            &&& n.out.drop_last() == t.out
            &&& kind == EventType::Trade ==> x.event.event_type == 4
            &&& kind == EventType::OrderCancel ==> x.event.event_type == 2
            &&& kind == EventType::OrderAdd ==> x.event.event_type == 1
            &&& x.event.side == 0 <==> 2 * t.peek() < 0x1_0000_0000_0000_0000
            &&& x.event.side <= 1
            &&& off == 1 + t.drawn().drawn().peek() % 8
            &&& x.event.qty == 100 + t.drawn().drawn().drawn().peek() % 400
            &&& x.event.order_id == t.next_oid && n.next_oid == t.next_oid + 1
            &&& x.event.ts == t.ts
            &&& n.ts == t.ts + 7_812
        }),
{
    let side = t.coin();
    let kind = cancel_kind(t.drawn().peek(), m.cancel_p);
    let t2 = t.drawn().drawn();
    let price = tape::away(side, m.base_price, (t2.peek() % 8 + 1) as u64);
    let t3 = t2.drawn();
    lemma_event_written(t, t3.drawn(), kind, side, price, (100 + t3.peek() % 400) as u64);
}

proof fn lemma_event_written(
    t: TapeModel,
    u: TapeModel,
    kind: EventType,
    side: Side,
    price: u64,
    qty: u64,
)
    requires
        u.out == t.out,
        u.ts == t.ts,
        u.next_oid == t.next_oid,
        t.ts <= u64::MAX - 1_000_000,
        t.next_oid < u64::MAX,
    ensures
        ({
            let n = u.sent_fresh(kind, side, price, qty).later(CANCEL_PERIOD_NS / (CANCEL_BATCH as u64));
            let x = n.out[t.out.len() as int];
            &&& n.out.len() == t.out.len() + 1
            &&& n.out.drop_last() == t.out
            &&& x.event.event_type == crate::book::event::event_code(kind)
            &&& x.event.side == crate::book::event::side_code(side)
            &&& x.event.price == price && x.event.qty == qty && x.event.order_id == t.next_oid && x.event.ts == t.ts
            &&& n.next_oid == t.next_oid + 1
            &&& n.ts == t.ts + 7_812
        }),
{
    let (p, b) = (CANCEL_PERIOD_NS, CANCEL_BATCH as u64);
    assert(p / b == 7_812) by (nonlinear_arith)
        requires
            p == 1_000_000,
            b == 128,
    ;
    let n = u.sent_fresh(kind, side, price, qty).later(p / b);
    assert(n.out.drop_last() =~= t.out);
}

/// The calm comes first, with three cancels in ten, and then the storm, with its own
/// share; each step is one batch less of its phase, and one that has none left of either
/// changes nothing.
pub proof fn calm_comes_before_the_storm(m: CancelModel)
    ensures
        ({
            let n = phased(m);
            let (calm, storm) = (m.warmup_batches_remaining, m.storm_batches_remaining);
            &&& calm > 0 ==> n.warmup_batches_remaining == calm - 1 && n.storm_batches_remaining == storm && 10
                * n.cancel_p.num == 3 * n.cancel_p.den && n.cancel_p.den > 0 && n.storm_started == m.storm_started
            &&& calm == 0 && storm > 0 ==> n.warmup_batches_remaining == 0 && n.storm_batches_remaining == storm - 1
                && n.cancel_p == m.storm_p && n.storm_started
            &&& calm == 0 && storm == 0 ==> n == m
            &&& n.storm_p == m.storm_p && n.base_price == m.base_price
        }),
{
}

proof fn lemma_events_count(m: CancelModel, t: TapeModel, n: nat)
    ensures
        cancel_events(m, t, n).out.len() == t.out.len() + n,
    decreases n,
{
    if n > 0 {
        lemma_events_count(m, t, (n - 1) as nat);
    }
}

/// A step writes 128 events, the next is due a millisecond later, and the storm begins with
/// a gap of 4096 in the numbers and nothing else does.
pub proof fn cancel_steps_are_batches(m: CancelModel, now_ns: u64, base_seq: u64)
    requires
        now_ns <= u64::MAX - 1_000_000,
        base_seq <= u64::MAX - 10_000,
    ensures
        ({
            let (n, out) = <CancellationStormGenerator as StormGenerator>::stepped(m, now_ns, base_seq);
            let onset = m.warmup_batches_remaining == 0 && m.storm_batches_remaining > 0 && !m.storm_started;
            &&& out.len() == 128
            &&& n.next_due == now_ns + 1_000_000
            &&& onset ==> out[0].seq == base_seq + 4_096
            &&& !onset ==> out[0].seq == base_seq
            &&& <CancellationStormGenerator as StormGenerator>::due(n) == n.next_due
            &&& <CancellationStormGenerator as StormGenerator>::done(n) <==> n.warmup_batches_remaining == 0
                && n.storm_batches_remaining == 0
        }),
{
    let first = if breaks_now(m) {
        base_seq.saturating_add(ONSET_GAP)
    } else {
        base_seq
    };
    let blank = tape::blank(m.rng, m.next_oid, first, now_ns);
    lemma_events_count(phased(m), blank, CANCEL_BATCH as nat);
    lemma_first_event(phased(m), blank, CANCEL_BATCH as nat);
}

proof fn lemma_first_event(m: CancelModel, t: TapeModel, n: nat)
    requires
        n > 0,
        t.out.len() == 0,
        0 <= t.seq <= u64::MAX,
    ensures
        cancel_events(m, t, n).out.len() == n,
        cancel_events(m, t, n).out[0].seq == t.seq,
    decreases n,
{
    lemma_events_count(m, t, (n - 1) as nat);
    if n > 1 {
        lemma_first_event(m, t, (n - 1) as nat);
    } else {
        assert(cancel_events(m, t, 0) == t);
    }
}

} // verus!
