//! A vacuum in the book and sells into it.

use crate::book::event::{EventType, SequencedEvent, Side};
use crate::chaos::generators::dial::{lerp, lerp_round};
#[allow(unused_imports)]
use crate::chaos::generators::{dial, rng, tape};
use crate::chaos::generators::rng::DetRng;
use crate::chaos::generators::tape::{price_away, Tape, TapeModel};
use crate::chaos::generators::StormGenerator;
use crate::ratio::Ratio;
use vstd::prelude::*;

verus! {

/// Separates this generator's random source from the others'.
pub const CRASH_SALT: u64 = 0xF3F3_F3F3_F3F3_F3F3;

/// The first order id.
pub const CRASH_FIRST_ID: u64 = 4_000_000;

/// Quantity at the best bid.
pub const TOUCH_BID: u64 = 5_000;

/// Quantity at the best ask.
pub const TOUCH_ASK: u64 = 3_000;

/// Quantity that stays at the best ask whatever is cancelled.
pub const ASK_FLOOR: u64 = 100;

/// Ticks from the base to the levels that are left when the touch is gone.
pub const FALLBACK_TICKS: u64 = 200;

/// What the generator is. Nothing is drawn from its random source, and the
/// jump it aims at is only recorded.
pub struct CrashModel {
    pub rng: u64,
    pub base_price: u64,
    pub crash_down: bool,
    pub target_jump_bps: u32,
    /// Quantity that a burst takes off the touch.
    pub want_drop: u64,
    pub bursts_remaining: u32,
    pub step_period_ns: u64,
    pub next_due: u64,
    pub next_oid: u64,
    pub seeded: bool,
}

/// Writes depth, withdraws most of it and trades through the hole.
#[derive(Debug)]
pub struct FlashCrashGenerator {
    rng: u64,
    base_price: u64,
    crash_down: bool,
    target_jump_bps: u32,
    want_drop: u64,
    bursts_remaining: u32,
    step_period_ns: u64,
    next_due: u64,
    next_oid: u64,
    seeded: bool,
}

impl View for FlashCrashGenerator {
    type V = CrashModel;

    closed spec fn view(&self) -> CrashModel {
        CrashModel {
            rng: self.rng,
            base_price: self.base_price,
            crash_down: self.crash_down,
            target_jump_bps: self.target_jump_bps,
            want_drop: self.want_drop,
            bursts_remaining: self.bursts_remaining,
            step_period_ns: self.step_period_ns,
            next_due: self.next_due,
            next_oid: self.next_oid,
            seeded: self.seeded,
        }
    }
}

/// The generator of a seed and a severity. A burst takes from 65 to 95 in a
/// hundred of the touch away.
pub open spec fn new_crash(
    seed: u64,
    severity: Ratio,
    base_price: u64,
    crash_down: bool,
    bursts: u32,
) -> CrashModel {
    CrashModel {
        rng: rng::first_state(seed ^ CRASH_SALT),
        base_price,
        crash_down,
        target_jump_bps: dial::dial_near(severity, 12, 80) as u32,
        want_drop: dial::dial_down(
            severity,
            (TOUCH_BID + TOUCH_ASK) * 65 / 100,
            (TOUCH_BID + TOUCH_ASK) * 95 / 100,
        ) as u64,
        bursts_remaining: bursts,
        step_period_ns: dial::dial_down(severity, 200_000_000, 80_000_000) as u64,
        next_due: 0,
        next_oid: CRASH_FIRST_ID,
        seeded: false,
    }
}

/// A heavy touch on both sides and a thin level far behind each.
pub open spec fn crash_seed(m: CrashModel, t: TapeModel) -> TapeModel {
    t.sent_fresh(EventType::OrderAdd, Side::Bid, tape::away(Side::Bid, m.base_price, 1), TOUCH_BID).sent_fresh(
        EventType::OrderAdd,
        Side::Ask,
        tape::away(Side::Ask, m.base_price, 1),
        TOUCH_ASK,
    ).sent_fresh(
        EventType::OrderAdd,
        Side::Bid,
        tape::away(Side::Bid, m.base_price, FALLBACK_TICKS),
        200,
    ).sent_fresh(EventType::OrderAdd, Side::Ask, tape::away(Side::Ask, m.base_price, FALLBACK_TICKS), 200)
}

/// Quantity that a burst cancels at the best ask.
pub open spec fn ask_cut(m: CrashModel) -> u64 {
    let needed = if m.want_drop > TOUCH_BID {
        m.want_drop - TOUCH_BID
    } else {
        0
    };
    (if needed < TOUCH_ASK - ASK_FLOOR {
        needed
    } else {
        TOUCH_ASK - ASK_FLOOR
    }) as u64
}

/// Some trades at one price.
pub open spec fn crash_trades(t: TapeModel, side: Side, price: u64, n: nat) -> TapeModel
    decreases n,
{
    if n == 0 {
        t
    } else {
        crash_trades(t, side, price, (n - 1) as nat).sent_fresh(EventType::Trade, side, price, 50).later(20_000)
    }
}

/// The side that is traded through.
pub open spec fn crash_side(m: CrashModel) -> Side {
    if m.crash_down {
        Side::Bid
    } else {
        Side::Ask
    }
}

/// One burst over a touch whose orders are named `bid_id` and `ask_id`: the bid
/// goes in full, the ask in part, and four trades follow.
pub open spec fn crash_burst(m: CrashModel, t: TapeModel, bid_id: u64, ask_id: u64) -> TapeModel {
    let bare = t.sent(
        EventType::OrderCancel,
        Side::Bid,
        tape::away(Side::Bid, m.base_price, 1),
        TOUCH_BID,
        bid_id,
    ).later(20_000);
    let cut = if ask_cut(m) > 0 {
        bare.sent(
            EventType::OrderCancel,
            Side::Ask,
            tape::away(Side::Ask, m.base_price, 1),
            ask_cut(m),
            ask_id,
        ).later(20_000)
    } else {
        bare
    };
    crash_trades(cut, crash_side(m), tape::away(crash_side(m), m.base_price, FALLBACK_TICKS), 4)
}

impl FlashCrashGenerator {
    /// A generator of `bursts` bursts, down or up. A higher severity withdraws
    /// more and comes more often.
    pub fn new(seed: u64, severity: Ratio, base_price: u64, crash_down: bool, bursts: u32) -> (g: Self)
        ensures
            g@ == new_crash(seed, severity, base_price, crash_down, bursts),
            FlashCrashGenerator::wf(g@),
    {
        FlashCrashGenerator {
            rng: DetRng::new(seed ^ CRASH_SALT).state(),
            base_price,
            crash_down,
            target_jump_bps: lerp_round(severity, 12, 80) as u32,
            want_drop: lerp(
                severity,
                (TOUCH_BID + TOUCH_ASK) * 65 / 100,
                (TOUCH_BID + TOUCH_ASK) * 95 / 100,
            ),
            bursts_remaining: bursts,
            step_period_ns: lerp(severity, 200_000_000, 80_000_000),
            next_due: 0,
            next_oid: CRASH_FIRST_ID,
            seeded: false,
        }
    }

    fn seed_depth(&self, t: &mut Tape)
        requires
            old(t).wf(),
            old(t)@.seq + 4 <= u64::MAX,
        ensures
            final(t).wf(),
            final(t).from() == old(t).from(),
            final(t)@ == crash_seed(self@, old(t)@),
    {
        t.send_fresh(EventType::OrderAdd, Side::Bid, price_away(Side::Bid, self.base_price, 1), TOUCH_BID);
        t.send_fresh(EventType::OrderAdd, Side::Ask, price_away(Side::Ask, self.base_price, 1), TOUCH_ASK);
        t.send_fresh(
            EventType::OrderAdd,
            Side::Bid,
            price_away(Side::Bid, self.base_price, FALLBACK_TICKS),
            200,
        );
        t.send_fresh(
            EventType::OrderAdd,
            Side::Ask,
            price_away(Side::Ask, self.base_price, FALLBACK_TICKS),
            200,
        );
    }

    fn one_burst(&self, t: &mut Tape, bid_id: u64, ask_id: u64)
        requires
            old(t).wf(),
            old(t)@.seq + 6 <= u64::MAX,
        ensures
            final(t).wf(),
            final(t).from() == old(t).from(),
            final(t)@ == crash_burst(self@, old(t)@, bid_id, ask_id),
            final(t)@.seq <= old(t)@.seq + 6,
    {
        t.send(
            EventType::OrderCancel,
            Side::Bid,
            price_away(Side::Bid, self.base_price, 1),
            TOUCH_BID,
            bid_id,
        );
        t.wait(20_000);
        if self.want_drop > TOUCH_BID {
            let needed: u64 = self.want_drop - TOUCH_BID;
            let cut: u64 = if needed < TOUCH_ASK - ASK_FLOOR {
                needed
            } else {
                TOUCH_ASK - ASK_FLOOR
            };
            t.send(
                EventType::OrderCancel,
                Side::Ask,
                price_away(Side::Ask, self.base_price, 1),
                cut,
                ask_id,
            );
            t.wait(20_000);
        }
        let side: Side = if self.crash_down {
            Side::Bid
        } else {
            Side::Ask
        };
        let price: u64 = price_away(side, self.base_price, FALLBACK_TICKS);
        let ghost u = t@;
        let mut i: u32 = 0;
        while i < 4
            invariant
                i <= 4,
                u.seq + 4 <= u64::MAX,
                u.seq <= old(t)@.seq + 2,
                t.wf(),
                t.from() == old(t).from(),
                t@.seq == u.seq + i,
                t@ == crash_trades(u, side, price, i as nat),
            decreases 4 - i,
        {
            t.send_fresh(EventType::Trade, side, price, 50);
            t.wait(20_000);
            i += 1;
        }
    }
}

proof fn lemma_seed_told(m: CrashModel, t: TapeModel, from: int)
    requires
        tape::told(t, from),
    ensures
        tape::told(crash_seed(m, t), from),
        crash_seed(m, t).seq == t.seq + 4,
{
    let (near_bid, near_ask) = (tape::away(Side::Bid, m.base_price, 1), tape::away(Side::Ask, m.base_price, 1));
    let (far_bid, far_ask) = (
        tape::away(Side::Bid, m.base_price, FALLBACK_TICKS),
        tape::away(Side::Ask, m.base_price, FALLBACK_TICKS),
    );
    tape::lemma_sent(t, from, EventType::OrderAdd, Side::Bid, near_bid, TOUCH_BID, 0);
    let a = t.sent_fresh(EventType::OrderAdd, Side::Bid, near_bid, TOUCH_BID);
    tape::lemma_sent(a, from, EventType::OrderAdd, Side::Ask, near_ask, TOUCH_ASK, 0);
    let b = a.sent_fresh(EventType::OrderAdd, Side::Ask, near_ask, TOUCH_ASK);
    tape::lemma_sent(b, from, EventType::OrderAdd, Side::Bid, far_bid, 200, 0);
    let c = b.sent_fresh(EventType::OrderAdd, Side::Bid, far_bid, 200);
    tape::lemma_sent(c, from, EventType::OrderAdd, Side::Ask, far_ask, 200, 0);
}

proof fn lemma_trades_told(t: TapeModel, side: Side, price: u64, n: nat, from: int)
    requires
        tape::told(t, from),
    ensures
        tape::told(crash_trades(t, side, price, n), from),
        crash_trades(t, side, price, n).seq == t.seq + n,
    decreases n,
{
    if n > 0 {
        lemma_trades_told(t, side, price, (n - 1) as nat, from);
        tape::lemma_sent(
            crash_trades(t, side, price, (n - 1) as nat),
            from,
            EventType::Trade,
            side,
            price,
            50,
            0,
        );
    }
}

proof fn lemma_burst_told(m: CrashModel, t: TapeModel, bid_id: u64, ask_id: u64, from: int)
    requires
        tape::told(t, from),
    ensures
        tape::told(crash_burst(m, t, bid_id, ask_id), from),
        crash_burst(m, t, bid_id, ask_id).seq <= t.seq + 6,
{
    let (bid, ask) = (tape::away(Side::Bid, m.base_price, 1), tape::away(Side::Ask, m.base_price, 1));
    tape::lemma_sent(t, from, EventType::OrderCancel, Side::Bid, bid, TOUCH_BID, bid_id);
    let bare = t.sent(EventType::OrderCancel, Side::Bid, bid, TOUCH_BID, bid_id).later(20_000);
    assert(tape::told(bare, from));
    tape::lemma_sent(bare, from, EventType::OrderCancel, Side::Ask, ask, ask_cut(m), ask_id);
    let cut = if ask_cut(m) > 0 {
        bare.sent(EventType::OrderCancel, Side::Ask, ask, ask_cut(m), ask_id).later(20_000)
    } else {
        bare
    };
    assert(tape::told(cut, from));
    lemma_trades_told(
        cut,
        crash_side(m),
        tape::away(crash_side(m), m.base_price, FALLBACK_TICKS),
        4,
        from,
    );
}

impl StormGenerator for FlashCrashGenerator {
    open spec fn wf(m: CrashModel) -> bool {
        m.bursts_remaining > 0 ==> !m.seeded
    }

    open spec fn span(m: CrashModel) -> nat {
        10
    }

    open spec fn stepped(m: CrashModel, now_ns: u64, base_seq: u64) -> (CrashModel, Seq<SequencedEvent>) {
        let blank = tape::blank(m.rng, m.next_oid, base_seq, now_ns);
        let depth = if m.seeded {
            blank
        } else {
            crash_seed(m, blank)
        };
        let t = if m.bursts_remaining > 0 {
            crash_burst(
                m,
                depth.later(1_000),
                m.next_oid,
                m.next_oid.wrapping_add(1),
            )
        } else {
            depth
        };
        let left = m.bursts_remaining.saturating_sub(1);
        (
            CrashModel {
                next_oid: t.next_oid,
                bursts_remaining: left,
                seeded: left == 0,
                next_due: now_ns.saturating_add(m.step_period_ns),
                ..m
            },
            t.out,
        )
    }

    open spec fn due(m: CrashModel) -> u64 {
        m.next_due
    }

    open spec fn done(m: CrashModel) -> bool {
        m.bursts_remaining == 0
    }

    open spec fn label(m: CrashModel) -> Seq<char> {
        "flash_crash"@
    }

    proof fn steps_are_numbered(m: CrashModel, now_ns: u64, base_seq: u64) {
        let from = base_seq as int;
        let blank = tape::blank(m.rng, m.next_oid, base_seq, now_ns);
        assert(tape::told(blank, from));
        let depth = if m.seeded {
            blank
        } else {
            crash_seed(m, blank)
        };
        lemma_seed_told(m, blank, from);
        assert(tape::told(depth, from));
        assert(tape::told(depth.later(1_000), from));
        lemma_burst_told(m, depth.later(1_000), m.next_oid, m.next_oid.wrapping_add(1), from);
    }

    fn step(&mut self, now_ns: u64, base_seq: u64) -> (out: Vec<SequencedEvent>) {
        let ghost m = self@;
        let bid_id: u64 = self.next_oid;
        let ask_id: u64 = self.next_oid.wrapping_add(1);
        let mut t: Tape = Tape::start(self.rng, self.next_oid, base_seq, now_ns);
        if !self.seeded {
            self.seed_depth(&mut t);
            self.seeded = true;
        }
        if self.bursts_remaining > 0 {
            t.wait(1_000);
            self.one_burst(&mut t, bid_id, ask_id);
            self.bursts_remaining = self.bursts_remaining - 1;
        }
        if self.bursts_remaining > 0 {
            self.seeded = false;
        }
        self.next_oid = t.next_id();
        self.next_due = now_ns.saturating_add(self.step_period_ns);
        t.finish()
    }

    fn next_due_ns(&self) -> (t: u64) {
        self.next_due
    }

    fn finished(&self) -> (b: bool) {
        self.bursts_remaining == 0
    }

    fn kind_label(&self) -> (s: &'static str) {
        "flash_crash"
    }
}

// ─── Laws ───────────────────────────────────────────────────────────

/// What a generator is set to: from calm without severity to fierce with all of it.
pub proof fn crashes_grow_with_severity(seed: u64, severity: Ratio, base_price: u64, crash_down: bool, bursts: u32)
    ensures
        ({
            let m = new_crash(seed, severity, base_price, crash_down, bursts);
            &&& m.base_price == base_price
            &&& m.crash_down == crash_down
            &&& m.bursts_remaining == bursts
            &&& m.next_due == 0
            &&& m.next_oid == 4_000_000
            &&& !m.seeded
            &&& m.rng == rng::first_state(seed ^ CRASH_SALT)
            &&& severity.num == 0 && severity.den > 0 ==> m.target_jump_bps == 12 && m.want_drop == 5_200 && m.step_period_ns == 200_000_000
            &&& severity.num >= severity.den ==> m.target_jump_bps == 80 && m.want_drop == 7_600 && m.step_period_ns == 80_000_000
            &&& m.target_jump_bps == dial::dial_near(severity, 12, 80)
            &&& m.want_drop == dial::dial_down(severity, 5_200, 7_600)
            &&& m.step_period_ns == dial::dial_down(severity, 200_000_000, 80_000_000)
        }),
{
    dial::dials_go_from_end_to_end(severity, 12, 80);
    dial::lemma_weighted(severity, 12, 80);
    dial::dials_go_from_end_to_end(severity, 5_200, 7_600);
    dial::lemma_weighted(severity, 5_200, 7_600);
    dial::dials_go_from_end_to_end(severity, 200_000_000, 80_000_000);
    dial::lemma_weighted(severity, 200_000_000, 80_000_000);
}

/// The seed is a heavy touch one tick from the base, five thousand bid for and three
/// thousand offered, and two hundred on each side two hundred ticks away.
pub proof fn seeds_are_heavy_at_the_touch(m: CrashModel, t: TapeModel)
    requires
        t.next_oid <= u64::MAX - 4,
        1_000 <= m.base_price <= u64::MAX - 1_000,
    ensures
        ({
            let n = crash_seed(m, t);
            let k = t.out.len() as int;
            let id = t.next_oid;
            &&& n.out.len() == k + 4
            &&& n.out.take(k) == t.out
            &&& tape::reads(n.out[k], 1, 0, m.base_price - 1, 5_000, id, t.ts)
            &&& tape::reads(n.out[k + 1], 1, 1, m.base_price + 1, 3_000, (id + 1) as u64, t.ts)
            &&& tape::reads(n.out[k + 2], 1, 0, m.base_price - 200, 200, (id + 2) as u64, t.ts)
            &&& tape::reads(n.out[k + 3], 1, 1, m.base_price + 200, 200, (id + 3) as u64, t.ts)
            &&& n.next_oid == id + 4 && n.ts == t.ts
        }),
{
    assert(crash_seed(m, t).out.take(t.out.len() as int) =~= t.out);
}

/// What is cancelled at the best ask makes up the wanted drop with the whole bid, as far as
/// a hundred stays.
pub proof fn cuts_make_up_the_drop(m: CrashModel)
    ensures
        m.want_drop <= 5_000 ==> ask_cut(m) == 0,
        5_000 <= m.want_drop <= 7_900 ==> 5_000 + ask_cut(m) == m.want_drop,
        m.want_drop >= 7_900 ==> ask_cut(m) + 100 == 3_000,
{
}

proof fn lemma_trades_shape(t: TapeModel, side: Side, price: u64, i: int)
    requires
        0 <= i < 4,
        t.next_oid <= u64::MAX - 8,
        t.ts <= u64::MAX - 200_000,
    ensures
        ({
            let out = crash_trades(t, side, price, 4).out;
            let k = t.out.len() as int;
            let s = if side == Side::Bid { 0u8 } else { 1u8 };
            &&& out.len() == k + 4
            &&& out.take(k) == t.out
            &&& tape::reads(
                out[k + i],
                4,
                s,
                price as int,
                50,
                (t.next_oid + i) as u64,
                (t.ts + 20_000 * i) as u64,
            )
        }),
{
    reveal_with_fuel(crash_trades, 5);
    let out = crash_trades(t, side, price, 4).out;
    assert(out.take(t.out.len() as int) =~= t.out);
}

/// A burst cancels the whole best bid and what is asked of the best ask, and then trades
/// four times fifty at the far level, twenty microseconds apart: on the bid where prices
/// fall, else on the ask.
pub proof fn bursts_empty_the_touch(m: CrashModel, t: TapeModel, bid_id: u64, ask_id: u64, i: int)
    requires
        0 <= i < 4,
        t.next_oid <= u64::MAX - 8,
        t.ts <= u64::MAX - 1_000_000,
        1_000 <= m.base_price <= u64::MAX - 1_000,
    ensures
        ({
            let n = crash_burst(m, t, bid_id, ask_id);
            let k = t.out.len() as int;
            let cut = ask_cut(m) as int;
            let c = if cut > 0 { 2int } else { 1int };
            let late = (t.ts + 20_000 * c) as u64;
            &&& n.out.len() == k + c + 4
            &&& tape::reads(n.out[k], 2, 0, m.base_price - 1, 5_000, bid_id, t.ts)
            &&& cut > 0 ==> tape::reads(n.out[k + 1], 2, 1, m.base_price + 1, cut, ask_id, (t.ts + 20_000) as u64)
            &&& {
                let (id, at) = ((t.next_oid + i) as u64, (late + 20_000 * i) as u64);
                &&& m.crash_down ==> tape::reads(n.out[k + c + i], 4, 0, m.base_price - 200, 50, id, at)
                &&& !m.crash_down ==> tape::reads(n.out[k + c + i], 4, 1, m.base_price + 200, 50, id, at)
            }
        }),
{
    let bare = t.sent(
        EventType::OrderCancel,
        Side::Bid,
        tape::away(Side::Bid, m.base_price, 1),
        TOUCH_BID,
        bid_id,
    ).later(20_000);
    let cut = if ask_cut(m) > 0 {
        bare.sent(
            EventType::OrderCancel,
            Side::Ask,
            tape::away(Side::Ask, m.base_price, 1),
            ask_cut(m),
            ask_id,
        ).later(20_000)
    } else {
        bare
    };
    let k = t.out.len() as int;
    let n = crash_burst(m, t, bid_id, ask_id);
    lemma_trades_shape(cut, crash_side(m), tape::away(crash_side(m), m.base_price, FALLBACK_TICKS), i);
    assert(n.out.take(cut.out.len() as int)[k] == cut.out[k]);
    if ask_cut(m) > 0 {
        assert(n.out.take(cut.out.len() as int)[k + 1] == cut.out[k + 1]);
    }
}

/// A step seeds what the last one took, as long as bursts are left, takes it with one burst,
/// and the next is due a period later.
pub proof fn crash_steps_use_up_the_bursts(m: CrashModel, now_ns: u64, base_seq: u64)
    requires
        now_ns + m.step_period_ns <= u64::MAX,
        now_ns <= u64::MAX - 2_000_000,
        m.next_oid <= u64::MAX - 16,
        1_000 <= m.base_price <= u64::MAX - 1_000,
    ensures
        ({
            let (n, out) = <FlashCrashGenerator as StormGenerator>::stepped(m, now_ns, base_seq);
            let seeds = if m.seeded { 0int } else { 4int };
            let burst = if ask_cut(m) > 0 { 6int } else { 5int };
            &&& m.bursts_remaining > 0 ==> n.bursts_remaining == m.bursts_remaining - 1 && out.len() == seeds + burst
            &&& m.bursts_remaining == 0 ==> n.bursts_remaining == 0 && out.len() == seeds
            &&& n.seeded <==> n.bursts_remaining == 0
            &&& m.bursts_remaining > 0 ==> out[seeds].event.order_id == m.next_oid && out[seeds].event.ts == now_ns
                + 1_000
            &&& n.next_due == now_ns + m.step_period_ns
            &&& <FlashCrashGenerator as StormGenerator>::due(n) == n.next_due
            &&& <FlashCrashGenerator as StormGenerator>::done(n) <==> n.bursts_remaining == 0
        }),
{
    let blank = tape::blank(m.rng, m.next_oid, base_seq, now_ns);
    seeds_are_heavy_at_the_touch(m, blank);
    let depth = if m.seeded {
        blank
    } else {
        crash_seed(m, blank)
    };
    bursts_empty_the_touch(m, depth.later(1_000), m.next_oid, m.next_oid.wrapping_add(1), 0);
}

} // verus!
