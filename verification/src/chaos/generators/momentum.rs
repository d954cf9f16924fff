//! A staircase of trades that drags the mid along.

use crate::book::event::{EventType, SequencedEvent, Side};
use crate::chaos::generators::dial::{lerp, lerp_round};
#[allow(unused_imports)]
use crate::chaos::generators::{dial, rng, tape};
use crate::chaos::generators::rng::DetRng;
use crate::chaos::generators::tape::{Tape, TapeModel};
use crate::chaos::generators::StormGenerator;
use crate::ratio::Ratio;
use vstd::prelude::*;

verus! {

/// Separates this generator's random source from the others'.
pub const MOMENTUM_SALT: u64 = 0xE2E2_E2E2_E2E2_E2E2;

/// The first order id.
pub const MOMENTUM_FIRST_ID: u64 = 3_000_000;

/// What the generator is. Nothing is drawn from its random source.
pub struct MomentumModel {
    pub rng: u64,
    pub next_oid: u64,
    pub up: bool,
    pub bid: u64,
    pub ask: u64,
    pub initial_mid: u64,
    pub target_bps: u32,
    pub cycles_per_step: u32,
    pub step_period_ns: u64,
    pub next_due: u64,
    pub cycles_remaining: u32,
    pub seeded: bool,
}

/// Writes trades through ever new best prices in one direction.
#[derive(Debug)]
pub struct MomentumIgnitionGenerator {
    rng: u64,
    next_oid: u64,
    up: bool,
    bid: u64,
    ask: u64,
    initial_mid: u64,
    target_bps: u32,
    cycles_per_step: u32,
    step_period_ns: u64,
    next_due: u64,
    cycles_remaining: u32,
    seeded: bool,
}

impl View for MomentumIgnitionGenerator {
    type V = MomentumModel;

    closed spec fn view(&self) -> MomentumModel {
        MomentumModel {
            rng: self.rng,
            next_oid: self.next_oid,
            up: self.up,
            bid: self.bid,
            ask: self.ask,
            initial_mid: self.initial_mid,
            target_bps: self.target_bps,
            cycles_per_step: self.cycles_per_step,
            step_period_ns: self.step_period_ns,
            next_due: self.next_due,
            cycles_remaining: self.cycles_remaining,
            seeded: self.seeded,
        }
    }
}

/// The generator of a seed and a severity.
pub open spec fn new_momentum(seed: u64, severity: Ratio, base_price: u64, up: bool) -> MomentumModel {
    let target = dial::dial_near(severity, 8, 40);
    MomentumModel {
        rng: rng::first_state(seed ^ MOMENTUM_SALT),
        next_oid: MOMENTUM_FIRST_ID,
        up,
        bid: base_price.saturating_sub(1),
        ask: base_price.saturating_add(1),
        initial_mid: base_price,
        target_bps: target as u32,
        cycles_per_step: dial::dial_near(severity, 1, 6) as u32,
        step_period_ns: dial::dial_down(severity, 5_000_000, 1_000_000) as u64,
        next_due: 0,
        cycles_remaining: (if 4 * target < 40 {
            40
        } else {
            4 * target
        }) as u32,
        seeded: false,
    }
}

/// Ticks of one stair: a ten-thousandth of the first mid, but at least one.
pub open spec fn stair(m: MomentumModel) -> u64 {
    let j = m.initial_mid / 10_000;
    if j < 1 {
        1
    } else {
        j
    }
}

/// How far the mid has come, in ten-thousandths of where it began.
pub open spec fn come_bps(m: MomentumModel) -> int {
    let mid = (m.bid + m.ask) / 2;
    let way = if m.up {
        mid - m.initial_mid
    } else {
        m.initial_mid - mid
    };
    let base = if m.initial_mid < 1 {
        1
    } else {
        m.initial_mid as int
    };
    (if way < 0 {
        0
    } else {
        way
    }) * 10_000 / base
}

/// The best prices fit, and go on fitting for the stairs that are left.
pub open spec fn quotes_fit(m: MomentumModel) -> bool {
    if m.up {
        m.bid + m.ask + 2 * (stair(m) * m.cycles_remaining) <= u64::MAX
    } else {
        m.bid + m.ask <= u64::MAX
    }
}

/// The first two orders.
pub open spec fn momentum_seed(m: MomentumModel, t: TapeModel) -> TapeModel {
    t.sent_fresh(EventType::OrderAdd, Side::Bid, m.bid, 500).sent_fresh(
        EventType::OrderAdd,
        Side::Ask,
        m.ask,
        500,
    )
}

/// The generator after one stair.
pub open spec fn climbed(m: MomentumModel) -> MomentumModel {
    MomentumModel {
        bid: if m.up {
            m.bid.saturating_add(stair(m))
        } else {
            m.bid.saturating_sub(stair(m))
        },
        ask: if m.up {
            m.ask.saturating_add(stair(m))
        } else {
            m.ask.saturating_sub(stair(m))
        },
        cycles_remaining: (m.cycles_remaining - 1) as u32,
        ..m
    }
}

/// The events of one stair: the next level behind the best one, a trade that
/// takes the best one, and the other side moved after it.
pub open spec fn stair_events(m: MomentumModel, t: TapeModel) -> TapeModel {
    let c = climbed(m);
    if m.up {
        t.sent_fresh(EventType::OrderAdd, Side::Ask, c.ask, 500).later(20_000).sent_fresh(
            EventType::Trade,
            Side::Ask,
            m.ask,
            500,
        ).later(20_000).sent_fresh(EventType::OrderAdd, Side::Bid, c.bid, 500).later(50_000)
    } else {
        t.sent_fresh(EventType::OrderAdd, Side::Bid, c.bid, 500).later(20_000).sent_fresh(
            EventType::Trade,
            Side::Bid,
            m.bid,
            500,
        ).later(20_000).sent_fresh(EventType::OrderAdd, Side::Ask, c.ask, 500).later(50_000)
    }
}

/// Up to `n` stairs; the programme ends once the mid has come far enough.
pub open spec fn stairs(m: MomentumModel, t: TapeModel, n: nat) -> (MomentumModel, TapeModel)
    decreases n,
{
    if n == 0 {
        (m, t)
    } else if come_bps(m) >= m.target_bps {
        (MomentumModel { cycles_remaining: 0, ..m }, t)
    } else {
        stairs(climbed(m), stair_events(m, t), (n - 1) as nat)
    }
}

/// How many stairs the next step may climb.
pub open spec fn stairs_due(m: MomentumModel) -> u32 {
    if m.cycles_per_step < m.cycles_remaining {
        m.cycles_per_step
    } else {
        m.cycles_remaining
    }
}

impl MomentumIgnitionGenerator {
    /// A generator that moves the mid up or down. A higher severity goes
    /// further, faster, and more stairs at a time.
    pub fn new(seed: u64, severity: Ratio, base_price: u64, direction_up: bool) -> (g: Self)
        requires
            quotes_fit(new_momentum(seed, severity, base_price, direction_up)),
        ensures
            g@ == new_momentum(seed, severity, base_price, direction_up),
            MomentumIgnitionGenerator::wf(g@),
            !MomentumIgnitionGenerator::done(g@),
    {
        let target: u32 = lerp_round(severity, 8, 40) as u32;
        let cap: u32 = target * 4;
        MomentumIgnitionGenerator {
            rng: DetRng::new(seed ^ MOMENTUM_SALT).state(),
            next_oid: MOMENTUM_FIRST_ID,
            up: direction_up,
            bid: base_price.saturating_sub(1),
            ask: base_price.saturating_add(1),
            initial_mid: base_price,
            target_bps: target,
            cycles_per_step: lerp_round(severity, 1, 6) as u32,
            step_period_ns: lerp(severity, 5_000_000, 1_000_000),
            next_due: 0,
            cycles_remaining: if cap < 40 {
                40
            } else {
                cap
            },
            seeded: false,
        }
    }

    /// Ticks of one stair.
    fn jump(&self) -> (j: u64)
        ensures
            j == stair(self@),
    {
        let j: u64 = self.initial_mid / 10_000;
        if j < 1 {
            1
        } else {
            j
        }
    }

    /// Whether the mid has come far enough.
    fn arrived(&self) -> (b: bool)
        requires
            quotes_fit(self@),
        ensures
            b == (come_bps(self@) >= self@.target_bps),
    {
        proof {
            assert(stair(self@) * self@.cycles_remaining >= 0) by (nonlinear_arith);
        }
        let mid: u64 = (self.bid + self.ask) / 2;
        let way: u64 = if self.up {
            mid.saturating_sub(self.initial_mid)
        } else {
            self.initial_mid.saturating_sub(mid)
        };
        let base: u64 = if self.initial_mid < 1 {
            1
        } else {
            self.initial_mid
        };
        way as u128 * 10_000 / base as u128 >= self.target_bps as u128
    }

    /// One stair.
    fn climb(&mut self, t: &mut Tape)
        requires
            old(t).wf(),
            old(t)@.seq + 3 <= u64::MAX,
            old(self)@.cycles_remaining > 0,
            quotes_fit(old(self)@),
        ensures
            final(t).wf(),
            final(t).from() == old(t).from(),
            final(t)@ == stair_events(old(self)@, old(t)@),
            final(self)@ == climbed(old(self)@),
            quotes_fit(final(self)@),
    {
        let j: u64 = self.jump();
        let ghost m = self@;
        proof {
            lemma_climbed_fits(m);
        }
        if self.up {
            let new_ask: u64 = self.ask.saturating_add(j);
            let new_bid: u64 = self.bid.saturating_add(j);
            t.send_fresh(EventType::OrderAdd, Side::Ask, new_ask, 500);
            t.wait(20_000);
            t.send_fresh(EventType::Trade, Side::Ask, self.ask, 500);
            t.wait(20_000);
            t.send_fresh(EventType::OrderAdd, Side::Bid, new_bid, 500);
            self.ask = new_ask;
            self.bid = new_bid;
        } else {
            let new_bid: u64 = self.bid.saturating_sub(j);
            let new_ask: u64 = self.ask.saturating_sub(j);
            t.send_fresh(EventType::OrderAdd, Side::Bid, new_bid, 500);
            t.wait(20_000);
            t.send_fresh(EventType::Trade, Side::Bid, self.bid, 500);
            t.wait(20_000);
            t.send_fresh(EventType::OrderAdd, Side::Ask, new_ask, 500);
            self.bid = new_bid;
            self.ask = new_ask;
        }
        t.wait(50_000);
        self.cycles_remaining = self.cycles_remaining - 1;
    }

    /// Up to `n` stairs.
    fn climb_up_to(&mut self, t: &mut Tape, n: u32)
        requires
            old(t).wf(),
            old(t)@.seq + 3 * n <= u64::MAX,
            n <= old(self)@.cycles_remaining,
            quotes_fit(old(self)@),
        ensures
            final(t).wf(),
            final(t).from() == old(t).from(),
            (final(self)@, final(t)@) == stairs(old(self)@, old(t)@, n as nat),
            quotes_fit(final(self)@),
            final(t)@.seq <= old(t)@.seq + 3 * n,
            final(self)@.cycles_per_step == old(self)@.cycles_per_step,
        decreases n,
    {
        if n == 0 {
            return;
        }
        if self.arrived() {
            proof {
                assert(stair(self@) * self@.cycles_remaining >= 0) by (nonlinear_arith);
                assert(stair(self@) * 0 == 0) by (nonlinear_arith);
            }
            self.cycles_remaining = 0;
            return;
        }
        self.climb(t);
        self.climb_up_to(t, n - 1);
    }
}

/// A stair leaves room for the others.
proof fn lemma_climbed_fits(m: MomentumModel)
    requires
        m.cycles_remaining > 0,
        quotes_fit(m),
    ensures
        quotes_fit(climbed(m)),
{
    let (s, c) = (stair(m) as int, m.cycles_remaining as int);
    assert(s * c == s * (c - 1) + s) by (nonlinear_arith);
    assert(s * (c - 1) >= 0) by (nonlinear_arith)
        requires
            s >= 1,
            c >= 1,
    ;
}

proof fn lemma_stairs_told(m: MomentumModel, t: TapeModel, n: nat, from: int)
    requires
        tape::told(t, from),
        n <= m.cycles_remaining,
        quotes_fit(m),
    ensures
        tape::told(stairs(m, t, n).1, from),
        stairs(m, t, n).1.seq <= t.seq + 3 * n,
        quotes_fit(stairs(m, t, n).0),
        stairs(m, t, n).0.cycles_per_step == m.cycles_per_step,
    decreases n,
{
    if n > 0 {
        if come_bps(m) >= m.target_bps {
            assert(stair(m) * m.cycles_remaining >= 0) by (nonlinear_arith);
            assert(stair(m) * 0 == 0) by (nonlinear_arith);
        } else {
            let c = climbed(m);
            let (near, far, price, first, last) = if m.up {
                (Side::Ask, Side::Bid, m.ask, c.ask, c.bid)
            } else {
                (Side::Bid, Side::Ask, m.bid, c.bid, c.ask)
            };
            lemma_climbed_fits(m);
            tape::lemma_sent(t, from, EventType::OrderAdd, near, first, 500, 0);
            let a = t.sent_fresh(EventType::OrderAdd, near, first, 500).later(20_000);
            assert(tape::told(a, from));
            tape::lemma_sent(a, from, EventType::Trade, near, price, 500, 0);
            let b = a.sent_fresh(EventType::Trade, near, price, 500).later(20_000);
            assert(tape::told(b, from));
            tape::lemma_sent(b, from, EventType::OrderAdd, far, last, 500, 0);
            assert(stair_events(m, t) == b.sent_fresh(EventType::OrderAdd, far, last, 500).later(50_000));
            lemma_stairs_told(c, stair_events(m, t), (n - 1) as nat, from);
        }
    }
}

impl StormGenerator for MomentumIgnitionGenerator {
    open spec fn wf(m: MomentumModel) -> bool {
        &&& quotes_fit(m)
        &&& 1 <= m.cycles_per_step <= 6
    }

    open spec fn span(m: MomentumModel) -> nat {
        (3 * stairs_due(m) + (if m.seeded {
            0int
        } else {
            2int
        })) as nat
    }

    open spec fn stepped(m: MomentumModel, now_ns: u64, base_seq: u64) -> (MomentumModel, Seq<SequencedEvent>) {
        let blank = tape::blank(m.rng, m.next_oid, base_seq, now_ns);
        let first = if m.seeded {
            blank
        } else {
            momentum_seed(m, blank)
        };
        let (n, t) = stairs(MomentumModel { seeded: true, ..m }, first, stairs_due(m) as nat);
        (
            MomentumModel {
                next_oid: t.next_oid,
                next_due: now_ns.saturating_add(m.step_period_ns),
                ..n
            },
            t.out,
        )
    }

    open spec fn due(m: MomentumModel) -> u64 {
        m.next_due
    }

    open spec fn done(m: MomentumModel) -> bool {
        m.cycles_remaining == 0
    }

    open spec fn label(m: MomentumModel) -> Seq<char> {
        "momentum_ignition"@
    }

    proof fn steps_are_numbered(m: MomentumModel, now_ns: u64, base_seq: u64) {
        let from = base_seq as int;
        let blank = tape::blank(m.rng, m.next_oid, base_seq, now_ns);
        assert(tape::told(blank, from));
        tape::lemma_sent(blank, from, EventType::OrderAdd, Side::Bid, m.bid, 500, 0);
        let one = blank.sent_fresh(EventType::OrderAdd, Side::Bid, m.bid, 500);
        tape::lemma_sent(one, from, EventType::OrderAdd, Side::Ask, m.ask, 500, 0);
        let first = if m.seeded {
            blank
        } else {
            momentum_seed(m, blank)
        };
        assert(tape::told(first, from));
        lemma_stairs_told(MomentumModel { seeded: true, ..m }, first, stairs_due(m) as nat, from);
    }

    fn step(&mut self, now_ns: u64, base_seq: u64) -> (out: Vec<SequencedEvent>) {
        let ghost m = self@;
        let mut t: Tape = Tape::start(self.rng, self.next_oid, base_seq, now_ns);
        if !self.seeded {
            t.send_fresh(EventType::OrderAdd, Side::Bid, self.bid, 500);
            t.send_fresh(EventType::OrderAdd, Side::Ask, self.ask, 500);
            self.seeded = true;
        }
        let n: u32 = if self.cycles_per_step < self.cycles_remaining {
            self.cycles_per_step
        } else {
            self.cycles_remaining
        };
        let ghost before = self@;
        assert(before == MomentumModel { seeded: true, ..m });
        self.climb_up_to(&mut t, n);
        self.next_oid = t.next_id();
        self.next_due = now_ns.saturating_add(self.step_period_ns);
        proof {
            lemma_stairs_keep(before, if m.seeded {
                tape::blank(m.rng, m.next_oid, base_seq, now_ns)
            } else {
                momentum_seed(m, tape::blank(m.rng, m.next_oid, base_seq, now_ns))
            }, n as nat);
        }
        t.finish()
    }

    fn next_due_ns(&self) -> (t: u64) {
        self.next_due
    }

    fn finished(&self) -> (b: bool) {
        self.cycles_remaining == 0
    }

    fn kind_label(&self) -> (s: &'static str) {
        "momentum_ignition"
    }
}

proof fn lemma_stairs_keep(m: MomentumModel, t: TapeModel, n: nat)
    ensures
        stairs(m, t, n).0.step_period_ns == m.step_period_ns,
    decreases n,
{
    if n > 0 && come_bps(m) < m.target_bps {
        lemma_stairs_keep(climbed(m), stair_events(m, t), (n - 1) as nat);
    }
}

// ─── Laws ───────────────────────────────────────────────────────────

/// What a generator is set to: from calm without severity to fierce with all of it.
pub proof fn ignitions_grow_with_severity(seed: u64, severity: Ratio, base_price: u64, up: bool)
    ensures
        ({
            let m = new_momentum(seed, severity, base_price, up);
            &&& m.initial_mid == base_price
            &&& m.up == up
            &&& m.next_due == 0
            &&& m.next_oid == 3_000_000
            &&& !m.seeded
            &&& m.rng == rng::first_state(seed ^ MOMENTUM_SALT)
            &&& 0 < base_price < u64::MAX ==> m.bid + 1 == base_price && m.ask == base_price + 1
            &&& m.target_bps <= 10 ==> m.cycles_remaining == 40
            &&& m.target_bps >= 10 ==> m.cycles_remaining == 4 * m.target_bps
            &&& severity.num == 0 && severity.den > 0 ==> m.target_bps == 8 && m.cycles_per_step == 1 && m.step_period_ns == 5_000_000
            &&& severity.num >= severity.den ==> m.target_bps == 40 && m.cycles_per_step == 6 && m.step_period_ns == 1_000_000
            &&& m.target_bps == dial::dial_near(severity, 8, 40)
            &&& m.cycles_per_step == dial::dial_near(severity, 1, 6)
            &&& m.step_period_ns == dial::dial_down(severity, 5_000_000, 1_000_000)
        }),
{
    dial::dials_go_from_end_to_end(severity, 8, 40);
    dial::lemma_weighted(severity, 8, 40);
    dial::dials_go_from_end_to_end(severity, 1, 6);
    dial::lemma_weighted(severity, 1, 6);
    dial::dials_go_from_end_to_end(severity, 5_000_000, 1_000_000);
    dial::lemma_weighted(severity, 5_000_000, 1_000_000);
}

/// A stair is a ten-thousandth of the first mid, rounded down, but at least a tick, and
/// takes both prices that far the way the mid goes.
pub proof fn stairs_go_one_way(m: MomentumModel)
    requires
        m.cycles_remaining > 0,
        m.bid + stair(m) <= u64::MAX,
        m.ask + stair(m) <= u64::MAX,
        m.bid >= stair(m),
        m.ask >= stair(m),
    ensures
        ({
            let c = climbed(m);
            let j = stair(m) as int;
            &&& m.initial_mid < 10_000 ==> j == 1
            &&& m.initial_mid >= 10_000 ==> 10_000 * j <= m.initial_mid < 10_000 * (j + 1)
            &&& m.up ==> c.bid == m.bid + j && c.ask == m.ask + j
            &&& !m.up ==> c.bid + j == m.bid && c.ask + j == m.ask
            &&& c.cycles_remaining == m.cycles_remaining - 1
            &&& c.ask - c.bid == m.ask - m.bid
            &&& c.initial_mid == m.initial_mid && c.target_bps == m.target_bps && c.up == m.up
        }),
{
}

/// A stair writes the next level on the side that is taken, a trade of the best price there,
/// and the next level on the other side, five hundred each: the ask is taken on the way up,
/// the bid on the way down.
pub proof fn stairs_take_the_best(m: MomentumModel, t: TapeModel)
    requires
        t.next_oid <= u64::MAX - 4,
        t.ts <= u64::MAX - 100_000,
    ensures
        ({
            let n = stair_events(m, t);
            let c = climbed(m);
            let k = t.out.len() as int;
            let (near, far) = if m.up { (1u8, 0u8) } else { (0u8, 1u8) };
            let (first, best, last) = if m.up {
                (c.ask as int, m.ask as int, c.bid as int)
            } else {
                (c.bid as int, m.bid as int, c.ask as int)
            };
            let id = t.next_oid;
            &&& n.out.len() == k + 3
            &&& n.out.take(k) == t.out
            &&& tape::reads(n.out[k], 1, near, first, 500, id, t.ts)
            &&& tape::reads(n.out[k + 1], 4, near, best, 500, (id + 1) as u64, (t.ts + 20_000) as u64)
            &&& tape::reads(n.out[k + 2], 1, far, last, 500, (id + 2) as u64, (t.ts + 40_000) as u64)
            &&& n.ts == t.ts + 90_000
            &&& n.next_oid == id + 3
        }),
{
    assert(stair_events(m, t).out.take(t.out.len() as int) =~= t.out);
}

/// The first two orders are the best bid and ask, five hundred each.
pub proof fn ignitions_begin_with_two_sides(m: MomentumModel, t: TapeModel)
    requires
        t.next_oid <= u64::MAX - 4,
    ensures
        ({
            let n = momentum_seed(m, t);
            let k = t.out.len() as int;
            &&& n.out.len() == k + 2
            &&& tape::reads(n.out[k], 1, 0, m.bid as int, 500, t.next_oid, t.ts)
            &&& tape::reads(n.out[k + 1], 1, 1, m.ask as int, 500, (t.next_oid + 1) as u64, t.ts)
        }),
{
}

/// How far the mid has come, in ten-thousandths of where it began, rounded down; a way
/// back counts as none.
pub proof fn ways_are_in_basis_points(m: MomentumModel)
    requires
        m.initial_mid > 0,
    ensures
        ({
            let mid = (m.bid + m.ask) / 2;
            let way = if m.up { mid - m.initial_mid } else { m.initial_mid - mid };
            &&& way <= 0 ==> come_bps(m) == 0
            &&& way > 0 ==> come_bps(m) * m.initial_mid <= way * 10_000 < (come_bps(m) + 1) * m.initial_mid
        }),
{
    let mid = (m.bid + m.ask) / 2;
    let way = if m.up {
        mid - m.initial_mid
    } else {
        m.initial_mid - mid
    };
    let d = m.initial_mid as int;
    if way > 0 {
        let x = way * 10_000;
        let q = x / d;
        vstd::arithmetic::div_mod::lemma_fundamental_div_mod(x, d);
        vstd::arithmetic::div_mod::lemma_mod_bound(x, d);
        assert(q * d <= x < (q + 1) * d) by (nonlinear_arith)
            requires
                x == d * q + x % d,
                0 <= x % d < d,
        ;
    } else {
        assert(0int / d == 0) by (nonlinear_arith)
            requires
                d > 0,
        ;
    }
}

/// The programme climbs stair by stair until the mid has come far enough, and then has
/// nothing left to do.
pub proof fn ignitions_stop_at_their_target(m: MomentumModel, t: TapeModel, n: nat)
    ensures
        come_bps(m) >= m.target_bps && n > 0 ==> stairs(m, t, n).0.cycles_remaining == 0 && stairs(m, t, n).1 == t,
        come_bps(m) < m.target_bps && n > 0 ==> stairs(m, t, n) == stairs(
            climbed(m),
            stair_events(m, t),
            (n - 1) as nat,
        ),
        stairs(m, t, 0) == (m, t),
{
}

/// A step may climb as many stairs as it is set to and as are left, and the next is due a
/// period later.
pub proof fn ignition_steps_climb(m: MomentumModel, now_ns: u64, base_seq: u64)
    requires
        now_ns + m.step_period_ns <= u64::MAX,
    ensures
        stairs_due(m) <= m.cycles_per_step,
        stairs_due(m) <= m.cycles_remaining,
        stairs_due(m) == m.cycles_per_step || stairs_due(m) == m.cycles_remaining,
        ({
            let n = <MomentumIgnitionGenerator as StormGenerator>::stepped(m, now_ns, base_seq).0;
            &&& n.next_due == now_ns + m.step_period_ns
            &&& n.seeded
            &&& <MomentumIgnitionGenerator as StormGenerator>::due(n) == n.next_due
            &&& <MomentumIgnitionGenerator as StormGenerator>::done(n) <==> n.cycles_remaining == 0
        }),
{
    let blank = tape::blank(m.rng, m.next_oid, base_seq, now_ns);
    let first = if m.seeded {
        blank
    } else {
        momentum_seed(m, blank)
    };
    lemma_stays_seeded(MomentumModel { seeded: true, ..m }, first, stairs_due(m) as nat);
}

proof fn lemma_stays_seeded(m: MomentumModel, t: TapeModel, n: nat)
    requires
        m.seeded,
    ensures
        stairs(m, t, n).0.seeded,
    decreases n,
{
    if n > 0 && come_bps(m) < m.target_bps {
        lemma_stays_seeded(climbed(m), stair_events(m, t), (n - 1) as nat);
    }
}

} // verus!
