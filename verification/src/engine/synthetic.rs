//! A source of made-up events that keeps a book busy.
//!
//! It goes through phases: calm stretches, one-sided adds, one-sided trades, and
//! flashes in which one side is pulled and the other traded through. The mid
//! never moves, so the book never crosses. Whatever is left to chance is drawn with
//! dice that a seed fixes, so a seed gives one stream.

use crate::book::event::{Event, EventType};
#[allow(unused_imports)]
use crate::book::event;
use crate::chaos::generators::tape::NO_PAD;
use rand::rngs::StdRng;
use rand::{Rng, SeedableRng};
use vstd::prelude::*;

verus! {

// ─── The random source ──────────────────────────────────────────────

/// `rand::rngs::StdRng`, the standard generator of the `rand` crate: a ChaCha
/// stream cipher, whose output its seed fixes.
#[verifier::external_type_specification]
#[verifier::external_body]
pub struct ExStdRng(StdRng);

/// A generator at some point of its output.
#[derive(Debug)]
pub struct Dice {
    rng: StdRng,
}

/// The generator that `StdRng::seed_from_u64` makes of a seed.
pub uninterp spec fn dice_of(seed: u64) -> Dice;

/// `StdRng::seed_from_u64`: a generator that starts from a seed and from nothing
/// else.
#[verifier::external_body]
fn seeded(seed: u64) -> (d: Dice)
    ensures
        d == dice_of(seed),
{
    Dice { rng: StdRng::seed_from_u64(seed) }
}

/// What `Rng::gen_range` over `lo..hi` draws of bytes, and the dice afterwards.
pub uninterp spec fn u8_drawn(d: Dice, lo: u8, hi: u8) -> (u8, Dice);

/// `Rng::gen_range` over `lo..hi`, for bytes: a number from `lo` to
/// below `hi`. Dice and range fix which one.
#[verifier::external_body]
fn draw_u8(d: &mut Dice, lo: u8, hi: u8) -> (x: u8)
    requires
        lo < hi,
    ensures
        lo <= x < hi,
        (x, *final(d)) == u8_drawn(*old(d), lo, hi),
{
    d.rng.gen_range(lo..hi)
}

/// What `Rng::gen_range` over `lo..hi` draws of 32-bit integers, and the dice afterwards.
pub uninterp spec fn i32_drawn(d: Dice, lo: i32, hi: i32) -> (i32, Dice);

/// `Rng::gen_range` over `lo..hi`, for 32-bit integers: a number from `lo` to
/// below `hi`. Dice and range fix which one.
#[verifier::external_body]
fn draw_i32(d: &mut Dice, lo: i32, hi: i32) -> (x: i32)
    requires
        lo < hi,
    ensures
        lo <= x < hi,
        (x, *final(d)) == i32_drawn(*old(d), lo, hi),
{
    d.rng.gen_range(lo..hi)
}

/// What `Rng::gen_range` over `lo..=hi` draws of unsigned 32-bit integers, and the dice afterwards.
pub uninterp spec fn u32_drawn(d: Dice, lo: u32, hi: u32) -> (u32, Dice);

/// `Rng::gen_range` over `lo..=hi`, for unsigned 32-bit integers: a number from `lo` to
/// `hi`. Dice and range fix which one.
#[verifier::external_body]
fn draw_u32(d: &mut Dice, lo: u32, hi: u32) -> (x: u32)
    requires
        lo <= hi,
    ensures
        lo <= x <= hi,
        (x, *final(d)) == u32_drawn(*old(d), lo, hi),
{
    d.rng.gen_range(lo..=hi)
}

/// What `Rng::gen_range` over `lo..=hi` draws of 64-bit integers, and the dice afterwards.
pub uninterp spec fn i64_drawn(d: Dice, lo: i64, hi: i64) -> (i64, Dice);

/// `Rng::gen_range` over `lo..=hi`, for 64-bit integers: a number from `lo` to
/// `hi`. Dice and range fix which one.
#[verifier::external_body]
fn draw_i64(d: &mut Dice, lo: i64, hi: i64) -> (x: i64)
    requires
        lo <= hi,
    ensures
        lo <= x <= hi,
        (x, *final(d)) == i64_drawn(*old(d), lo, hi),
{
    d.rng.gen_range(lo..=hi)
}

/// What `Rng::gen_range` over `lo..=hi` draws of unsigned 64-bit integers, and the dice afterwards.
pub uninterp spec fn u64_drawn(d: Dice, lo: u64, hi: u64) -> (u64, Dice);

/// `Rng::gen_range` over `lo..=hi`, for unsigned 64-bit integers: a number from `lo` to
/// `hi`. Dice and range fix which one.
#[verifier::external_body]
fn draw_u64(d: &mut Dice, lo: u64, hi: u64) -> (x: u64)
    requires
        lo <= hi,
    ensures
        lo <= x <= hi,
        (x, *final(d)) == u64_drawn(*old(d), lo, hi),
{
    d.rng.gen_range(lo..=hi)
}

/// What `Rng::gen_range` over `0..n` draws of indices of a width in bits, and the
/// dice afterwards.
pub uninterp spec fn index_drawn(d: Dice, n: usize, bits: u32) -> (usize, Dice);

/// `Rng::gen_range` over `0..n`, for indices: a number below `n`. Dice, range and
/// the width of an index fix which one: a wider index takes more of the output.
#[verifier::external_body]
fn draw_index(d: &mut Dice, n: usize) -> (x: usize)
    requires
        n > 0,
    ensures
        x < n,
        (x, *final(d)) == index_drawn(*old(d), n, usize::BITS),
{
    d.rng.gen_range(0..n)
}

/// How `Rng::gen_ratio(1, 2)` falls, and the dice afterwards.
pub uninterp spec fn tossed(d: Dice) -> (bool, Dice);

/// `Rng::gen_ratio(1, 2)`: a fair coin. The dice fix how it falls.
#[verifier::external_body]
fn toss(d: &mut Dice) -> (b: bool)
    ensures
        (b, *final(d)) == tossed(*old(d)),
{
    d.rng.gen_ratio(1, 2)
}

// ─── Phases ─────────────────────────────────────────────────────────

/// What the market is doing. The side is 0 for bids, 1 for asks.
#[derive(Debug, Clone, Copy, PartialEq, Eq, Structural)]
pub enum Phase {
    Calm,
    ImbalanceBurst { side: u8 },
    TradeBurst { side: u8 },
    Flash { side: u8 },
}

/// The phase of a roll below a hundred.
pub open spec fn phase_of(roll: u8, side: u8) -> Phase {
    if roll < 50 {
        Phase::Calm
    } else if roll < 73 {
        Phase::ImbalanceBurst { side }
    } else if roll < 88 {
        Phase::TradeBurst { side }
    } else {
        Phase::Flash { side }
    }
}

/// How many events a phase lasts, at least and at most.
pub open spec fn phase_span(roll: u8) -> (u32, u32) {
    if roll < 50 {
        (2_800, 5_500)
    } else if roll < 73 {
        (800, 1_500)
    } else if roll < 88 {
        (450, 950)
    } else {
        (260, 520)
    }
}

/// The mix of a phase.
#[derive(Debug, Clone, Copy, PartialEq, Eq, Structural)]
pub struct PhaseMix {
    /// Rolls below this add.
    pub add_below: u8,
    /// Rolls from there to below this cancel, the others trade.
    pub cancel_below: u8,
    /// The side that is favoured.
    pub forced: Option<u8>,
    /// Orders are picked by price.
    pub flash: bool,
}

/// The mix of a phase.
pub open spec fn mix_of(p: Phase) -> PhaseMix {
    match p {
        Phase::Calm => PhaseMix { add_below: 60, cancel_below: 85, forced: None, flash: false },
        Phase::ImbalanceBurst { side } => PhaseMix {
            add_below: 95,
            cancel_below: 100,
            forced: Some(side),
            flash: false,
        },
        Phase::TradeBurst { side } => PhaseMix {
            add_below: 15,
            cancel_below: 20,
            forced: Some(side),
            flash: false,
        },
        Phase::Flash { side } => PhaseMix { add_below: 2, cancel_below: 35, forced: Some(side), flash: true },
    }
}

// ─── Orders ─────────────────────────────────────────────────────────

/// A live order: id, price, side.
pub type Live = (u64, u64, u8);

/// How many live orders are kept.
pub const LIVE_CAP: usize = 8_192;

/// How near to the best price of its side an order is: the larger, the nearer.
pub open spec fn nearness(o: Live) -> int {
    if o.2 == 0 {
        o.1 as int
    } else {
        u64::MAX - o.1
    }
}

/// The first of the first `n` orders on a side.
pub open spec fn first_on(s: Seq<Live>, side: u8, n: nat) -> Option<nat>
    decreases n,
{
    if n == 0 {
        None
    } else {
        match first_on(s, side, (n - 1) as nat) {
            Some(i) => Some(i),
            None => if s[n - 1].2 == side {
                Some((n - 1) as nat)
            } else {
                None
            },
        }
    }
}

/// The nearest of the first `n` orders on a side, the last of several.
pub open spec fn nearest_on(s: Seq<Live>, side: u8, n: nat) -> Option<nat>
    decreases n,
{
    if n == 0 {
        None
    } else {
        let before = nearest_on(s, side, (n - 1) as nat);
        if s[n - 1].2 != side {
            before
        } else {
            match before {
                Some(i) => if nearness(s[n - 1]) >= nearness(s[i as int]) {
                    Some((n - 1) as nat)
                } else {
                    Some(i)
                },
                None => Some((n - 1) as nat),
            }
        }
    }
}

/// The order that a phase picks on a side, if there is one.
pub open spec fn picked(s: Seq<Live>, side: u8, flash: bool) -> Option<nat> {
    if flash {
        nearest_on(s, side, s.len())
    } else {
        first_on(s, side, s.len())
    }
}

proof fn lemma_first_on(s: Seq<Live>, side: u8, n: nat)
    requires
        n <= s.len(),
    ensures
        first_on(s, side, n) matches Some(i) ==> i < n && s[i as int].2 == side,
    decreases n,
{
    if n > 0 {
        lemma_first_on(s, side, (n - 1) as nat);
    }
}

proof fn lemma_nearest_on(s: Seq<Live>, side: u8, n: nat)
    requires
        n <= s.len(),
    ensures
        nearest_on(s, side, n) matches Some(i) ==> i < n && s[i as int].2 == side,
    decreases n,
{
    if n > 0 {
        lemma_nearest_on(s, side, (n - 1) as nat);
    }
}

/// What the source remembers.
#[verifier::ext_equal]
pub struct SynthModel {
    pub next_oid: u64,
    pub seq: u64,
    pub live: Seq<Live>,
    pub mid_ticks: i64,
    pub phase: Phase,
    pub phase_remaining: u32,
}

/// A source that begins.
pub open spec fn fresh_synth() -> SynthModel {
    SynthModel {
        next_oid: 1,
        seq: 0,
        live: Seq::empty(),
        mid_ticks: 100_000_000,
        phase: Phase::Calm,
        phase_remaining: 4_000,
    }
}

impl SynthModel {
    /// The side of a phase and of an order is one of two, the mid is where it
    /// always was, and orders lie on their side of it.
    pub open spec fn wf(self) -> bool {
        &&& mix_of(self.phase).forced matches Some(side) ==> side <= 1
        &&& self.mid_ticks == 100_000_000
        &&& self.live.len() <= LIVE_CAP
        &&& forall|i: int|
            #![trigger self.live[i]]
            0 <= i < self.live.len() ==> {
                &&& self.live[i].2 <= 1
                &&& self.live[i].2 == 0 ==> self.live[i].1 <= self.mid_ticks - 5
                &&& self.live[i].2 == 1 ==> self.live[i].1 >= self.mid_ticks + 5
            }
    }
}

/// Everything that the dice decide for one event. Only what the event needs is
/// looked at.
pub struct Draws {
    /// The next phase, its side and its length.
    pub phase_roll: u8,
    pub phase_side: u8,
    pub phase_len: u32,
    /// What the event is.
    pub roll: u8,
    /// An add's side, ticks from the mid and quantity.
    pub side: u8,
    pub offset: i64,
    pub qty: u64,
    /// Which order a cancel or trade is of, where the phase does not say.
    pub index: usize,
    /// What a trade fills.
    pub fill: u64,
}

/// The source with a phase that has begun.
pub open spec fn in_phase(m: SynthModel, d: Draws) -> SynthModel {
    let n = SynthModel { seq: m.seq.wrapping_add(1), ..m };
    if m.phase_remaining == 0 {
        SynthModel {
            phase: phase_of(d.phase_roll, d.phase_side),
            phase_remaining: (d.phase_len - 1) as u32,
            ..n
        }
    } else {
        SynthModel { phase_remaining: (m.phase_remaining - 1) as u32, ..n }
    }
}

/// What an event does.
#[derive(Debug, Clone, Copy, PartialEq, Eq, Structural)]
pub enum Plan {
    /// Adds an order, on a side if one is favoured.
    Add(Option<u8>),
    /// Cancels an order, the one at this place if the phase picks one.
    Cancel(Option<usize>),
    /// Trades an order, the one at this place if the phase picks one.
    Trade(Option<usize>),
}

/// What an event does, by a roll below a hundred.
pub open spec fn plan_of(m: SynthModel, roll: u8) -> Plan {
    let x = mix_of(m.phase);
    if roll < x.add_below || m.live.len() == 0 {
        Plan::Add(x.forced)
    } else {
        let cancels = roll < x.cancel_below;
        let place = match x.forced {
            Some(side) => match picked(m.live, if cancels {
                side
            } else {
                (1 - side) as u8
            }, x.flash) {
                Some(i) => Some(i as usize),
                None => None,
            },
            None => None,
        };
        if cancels {
            Plan::Cancel(place)
        } else {
            Plan::Trade(place)
        }
    }
}

/// One event of the source.
pub open spec fn synth_event(ts: u64, kind: EventType, side: u8, price: u64, qty: u64, order_id: u64) -> Event {
    Event {
        ts,
        price,
        qty,
        order_id,
        instrument_id: 1,
        event_type: event::event_code(kind),
        side: if side == 0 {
            0
        } else {
            1
        },
        _pad: NO_PAD,
    }
}

/// A price some ticks from the mid, on the side it belongs to.
pub open spec fn quote_at(mid: i64, side: u8, offset: i64) -> u64 {
    if side == 0 {
        (if mid - offset < 1 {
            1
        } else {
            mid - offset
        }) as u64
    } else {
        (mid + offset) as u64
    }
}

/// An add.
pub open spec fn synth_add(m: SynthModel, side: u8, offset: i64, qty: u64, ts: u64) -> (SynthModel, Event) {
    let price = quote_at(m.mid_ticks, side, offset);
    let more = m.live.push((m.next_oid, price, side));
    (
        SynthModel {
            next_oid: (m.next_oid + 1) as u64,
            live: if more.len() > LIVE_CAP {
                more.update(0, more.last()).drop_last()
            } else {
                more
            },
            ..m
        },
        synth_event(ts, EventType::OrderAdd, side, price, qty, m.next_oid),
    )
}

/// A cancel of the order at place `i`.
pub open spec fn synth_cancel(m: SynthModel, i: int, ts: u64) -> (SynthModel, Event) {
    let o = m.live[i];
    (
        SynthModel { live: m.live.update(i, m.live.last()).drop_last(), ..m },
        synth_event(ts, EventType::OrderCancel, o.2, o.1, 0, o.0),
    )
}

/// A trade of the order at place `i`.
pub open spec fn synth_trade(m: SynthModel, i: int, fill: u64, ts: u64) -> (SynthModel, Event) {
    let o = m.live[i];
    (m, synth_event(ts, EventType::Trade, o.2, o.1, fill, o.0))
}

/// One event, and the source afterwards, for every outcome of chance.
pub open spec fn synth_step(m: SynthModel, d: Draws, ts: u64) -> (SynthModel, Event) {
    let n = in_phase(m, d);
    match plan_of(n, d.roll) {
        Plan::Add(forced) => synth_add(
            n,
            match forced {
                Some(s) => s,
                None => d.side,
            },
            d.offset,
            d.qty,
            ts,
        ),
        Plan::Cancel(place) => synth_cancel(
            n,
            match place {
                Some(i) => i as int,
                None => d.index as int,
            },
            ts,
        ),
        Plan::Trade(place) => synth_trade(
            n,
            match place {
                Some(i) => i as int,
                None => d.index as int,
            },
            d.fill,
            ts,
        ),
    }
}

/// What chance may decide.
pub open spec fn fair(m: SynthModel, d: Draws) -> bool {
    let n = in_phase(m, d);
    let x = mix_of(n.phase);
    &&& d.phase_roll < 100
    &&& d.phase_side <= 1
    &&& phase_span(d.phase_roll).0 <= d.phase_len <= phase_span(d.phase_roll).1
    &&& d.roll < 100
    &&& d.side <= 1
    &&& 5 <= d.offset <= (if x.forced is Some {
        7int
    } else {
        50int
    })
    &&& 10 <= d.qty <= 500
    &&& d.index < n.live.len() || n.live.len() == 0
    &&& if x.flash {
        35 <= d.fill <= 140
    } else {
        1 <= d.fill <= 50
    }
}

/// Draws that nothing was looked at of.
pub open spec fn no_draws() -> Draws {
    Draws {
        phase_roll: 0,
        phase_side: 0,
        phase_len: 2_800,
        roll: 0,
        side: 0,
        offset: 5,
        qty: 10,
        index: 0,
        fill: 35,
    }
}

/// The next phase, its side and its length, and the dice afterwards.
pub open spec fn drawn_phase(g: Dice) -> ((u8, u8, u32), Dice) {
    let (roll, g1) = u8_drawn(g, 0, 100);
    let (side, g2) = i32_drawn(g1, 0, 2);
    let (len, g3) = u32_drawn(g2, phase_span(roll).0, phase_span(roll).1);
    ((roll, side as u8, len), g3)
}

/// The place of an order: the one that the phase picks, or any.
pub open spec fn drawn_place(place: Option<usize>, live: nat, g: Dice) -> (usize, Dice) {
    match place {
        Some(i) => (i, g),
        None => index_drawn(g, live as usize, usize::BITS),
    }
}

/// Everything that the dice decide for one event, in the order in which it is
/// asked of them, and the dice afterwards.
pub open spec fn drawn(m: SynthModel, g: Dice) -> (Draws, Dice) {
    let (d, g1) = if m.phase_remaining == 0 {
        let (p, after) = drawn_phase(g);
        (Draws { phase_roll: p.0, phase_side: p.1, phase_len: p.2, ..no_draws() }, after)
    } else {
        (no_draws(), g)
    };
    let n = in_phase(m, d);
    let (roll, g2) = u8_drawn(g1, 0, 100);
    match plan_of(n, roll) {
        Plan::Add(forced) => {
            let (side, g3) = match forced {
                Some(s) => (s, g2),
                None => (
                    if tossed(g2).0 {
                        0u8
                    } else {
                        1u8
                    },
                    tossed(g2).1,
                ),
            };
            let (offset, g4) = i64_drawn(
                g3,
                5,
                if forced is Some {
                    7i64
                } else {
                    50i64
                },
            );
            let (qty, g5) = u64_drawn(g4, 10, 500);
            (Draws { roll, side, offset, qty, ..d }, g5)
        },
        Plan::Cancel(place) => {
            let (index, g3) = drawn_place(place, n.live.len(), g2);
            (Draws { roll, index, ..d }, g3)
        },
        Plan::Trade(place) => {
            let (index, g3) = drawn_place(place, n.live.len(), g2);
            let (fill, g4) = if mix_of(n.phase).flash {
                u64_drawn(g3, 35, 140)
            } else {
                u64_drawn(g3, 1, 50)
            };
            (Draws { roll, index, fill, ..d }, g4)
        },
    }
}

// ─── The state without chance ───────────────────────────────────────

/// What the source remembers. Nothing in it is left to chance.
#[derive(Debug)]
pub struct SynthState {
    next_oid: u64,
    seq: u64,
    live_orders: Vec<Live>,
    mid_ticks: i64,
    phase: Phase,
    phase_remaining: u32,
}

impl View for SynthState {
    type V = SynthModel;

    closed spec fn view(&self) -> SynthModel {
        SynthModel {
            next_oid: self.next_oid,
            seq: self.seq,
            live: self.live_orders@,
            mid_ticks: self.mid_ticks,
            phase: self.phase,
            phase_remaining: self.phase_remaining,
        }
    }
}

fn mix_for(p: Phase) -> (x: PhaseMix)
    ensures
        x == mix_of(p),
{
    match p {
        Phase::Calm => PhaseMix { add_below: 60, cancel_below: 85, forced: None, flash: false },
        Phase::ImbalanceBurst { side } => PhaseMix {
            add_below: 95,
            cancel_below: 100,
            forced: Some(side),
            flash: false,
        },
        Phase::TradeBurst { side } => PhaseMix {
            add_below: 15,
            cancel_below: 20,
            forced: Some(side),
            flash: false,
        },
        Phase::Flash { side } => PhaseMix { add_below: 2, cancel_below: 35, forced: Some(side), flash: true },
    }
}

fn mk_synth(ts: u64, kind: EventType, side: u8, price: u64, qty: u64, order_id: u64) -> (e: Event)
    ensures
        e == synth_event(ts, kind, side, price, qty, order_id),
{
    Event {
        ts,
        price,
        qty,
        order_id,
        instrument_id: 1,
        event_type: kind.code(),
        side: if side == 0 {
            0
        } else {
            1
        },
        _pad: NO_PAD,
    }
}

impl SynthState {
    /// A source that begins.
    pub fn new() -> (s: Self)
        ensures
            s@ == fresh_synth(),
            s@.wf(),
    {
        let s = SynthState {
            next_oid: 1,
            seq: 0,
            live_orders: Vec::new(),
            mid_ticks: 100_000_000,
            phase: Phase::Calm,
            phase_remaining: 4_000,
        };
        assert(s@ =~= fresh_synth());
        s
    }

    /// Whether the phase is over.
    pub fn needs_phase(&self) -> (b: bool)
        ensures
            b == (self@.phase_remaining == 0),
    {
        self.phase_remaining == 0
    }

    /// Begins an event within the phase.
    pub fn go_on(&mut self)
        requires
            old(self)@.wf(),
            old(self)@.phase_remaining > 0,
        ensures
            final(self)@.wf(),
            final(self)@ == (SynthModel {
                seq: old(self)@.seq.wrapping_add(1),
                phase_remaining: (old(self)@.phase_remaining - 1) as u32,
                ..old(self)@
            }),
    {
        self.seq = self.seq.wrapping_add(1);
        self.phase_remaining = self.phase_remaining - 1;
        assert(self@.live == old(self)@.live);
    }

    /// Begins an event with a new phase, of the given length.
    pub fn enter_phase(&mut self, roll: u8, side: u8, len: u32)
        requires
            old(self)@.wf(),
            side <= 1,
            len > 0,
        ensures
            final(self)@.wf(),
            final(self)@ == (SynthModel {
                seq: old(self)@.seq.wrapping_add(1),
                phase: phase_of(roll, side),
                phase_remaining: (len - 1) as u32,
                ..old(self)@
            }),
    {
        self.seq = self.seq.wrapping_add(1);
        self.phase = if roll < 50 {
            Phase::Calm
        } else if roll < 73 {
            Phase::ImbalanceBurst { side }
        } else if roll < 88 {
            Phase::TradeBurst { side }
        } else {
            Phase::Flash { side }
        };
        self.phase_remaining = len - 1;
        assert(self@.live == old(self)@.live);
    }

    fn first_order(&self, side: u8) -> (r: Option<usize>)
        ensures
            match first_on(self@.live, side, self@.live.len()) {
                Some(i) => r == Some(i as usize) && i < self@.live.len(),
                None => r is None,
            },
    {
        let mut i: usize = 0;
        while i < self.live_orders.len()
            invariant
                i <= self.live_orders@.len(),
                self@.live == self.live_orders@,
                first_on(self@.live, side, i as nat) is None,
            decreases self.live_orders@.len() - i,
        {
            if self.live_orders[i].2 == side {
                proof {
                    lemma_first_kept(self@.live, side, (i + 1) as nat, self@.live.len());
                }
                return Some(i);
            }
            i += 1;
        }
        None
    }

    fn nearest_order(&self, side: u8) -> (r: Option<usize>)
        ensures
            match nearest_on(self@.live, side, self@.live.len()) {
                Some(i) => r == Some(i as usize) && i < self@.live.len(),
                None => r is None,
            },
    {
        let mut best: Option<usize> = None;
        let mut i: usize = 0;
        while i < self.live_orders.len()
            invariant
                i <= self.live_orders@.len(),
                self@.live == self.live_orders@,
                match nearest_on(self@.live, side, i as nat) {
                    Some(k) => best == Some(k as usize) && k < i,
                    None => best is None,
                },
            decreases self.live_orders@.len() - i,
        {
            proof {
                lemma_nearest_on(self@.live, side, i as nat);
            }
            let o: Live = self.live_orders[i];
            if o.2 == side {
                match best {
                    Some(k) => {
                        let b: Live = self.live_orders[k];
                        let near: bool = if side == 0 {
                            o.1 >= b.1
                        } else {
                            o.1 <= b.1
                        };
                        if near {
                            best = Some(i);
                        }
                    },
                    None => {
                        best = Some(i);
                    },
                }
            }
            i += 1;
        }
        best
    }

    /// What an event does, by a roll below a hundred.
    pub fn plan(&self, roll: u8) -> (p: Plan)
        requires
            self@.wf(),
        ensures
            p == plan_of(self@, roll),
            p is Add <==> roll < mix_of(self@.phase).add_below || self@.live.len() == 0,
            p matches Plan::Cancel(Some(i)) ==> i < self@.live.len(),
            p matches Plan::Trade(Some(i)) ==> i < self@.live.len(),
    {
        let x: PhaseMix = mix_for(self.phase);
        if roll < x.add_below || self.live_orders.len() == 0 {
            return Plan::Add(x.forced);
        }
        let cancels: bool = roll < x.cancel_below;
        let place: Option<usize> = match x.forced {
            Some(side) => {
                let on: u8 = if cancels {
                    side
                } else {
                    1 - side
                };
                if x.flash {
                    self.nearest_order(on)
                } else {
                    self.first_order(on)
                }
            },
            None => None,
        };
        if cancels {
            Plan::Cancel(place)
        } else {
            Plan::Trade(place)
        }
    }

    /// How many orders are live.
    pub fn live_len(&self) -> (n: usize)
        ensures
            n == self@.live.len(),
    {
        self.live_orders.len()
    }

    /// Whether orders are picked by price.
    pub fn is_flash(&self) -> (b: bool)
        ensures
            b == mix_of(self@.phase).flash,
    {
        mix_for(self.phase).flash
    }

    /// Adds an order.
    pub fn add_order(&mut self, side: u8, offset: i64, qty: u64, ts: u64) -> (e: Event)
        requires
            old(self)@.wf(),
            side <= 1,
            5 <= offset <= 50,
            old(self)@.next_oid < u64::MAX,
        ensures
            final(self)@.wf(),
            (final(self)@, e) == synth_add(old(self)@, side, offset, qty, ts),
    {
        let ghost before = self@.live;
        let price: u64 = if side == 0 {
            (self.mid_ticks - offset) as u64
        } else {
            (self.mid_ticks + offset) as u64
        };
        let id: u64 = self.next_oid;
        self.next_oid = id + 1;
        self.live_orders.push((id, price, side));
        let ghost more = self.live_orders@;
        if self.live_orders.len() > LIVE_CAP {
            self.live_orders.swap_remove(0);
        }
        proof {
            let after = self@.live;
            assert forall|i: int|
                #![trigger after[i]]
                0 <= i < after.len() implies {
                &&& after[i].2 <= 1
                &&& after[i].2 == 0 ==> after[i].1 <= self@.mid_ticks - 5
                &&& after[i].2 == 1 ==> after[i].1 >= self@.mid_ticks + 5
            } by {
                let k = if i == 0 && more.len() > LIVE_CAP {
                    more.len() - 1
                } else {
                    i
                };
                assert(after[i] == more[k]);
                if k < before.len() {
                    assert(more[k] == before[k]);
                }
            }
        }
        mk_synth(ts, EventType::OrderAdd, side, price, qty, id)
    }

    /// Cancels the order at place `i`.
    pub fn cancel_order(&mut self, i: usize, ts: u64) -> (e: Event)
        requires
            old(self)@.wf(),
            i < old(self)@.live.len(),
        ensures
            final(self)@.wf(),
            (final(self)@, e) == synth_cancel(old(self)@, i as int, ts),
    {
        let ghost before = self@.live;
        let (id, price, side): Live = self.live_orders.swap_remove(i);
        proof {
            let after = self@.live;
            assert forall|k: int|
                #![trigger after[k]]
                0 <= k < after.len() implies {
                &&& after[k].2 <= 1
                &&& after[k].2 == 0 ==> after[k].1 <= self@.mid_ticks - 5
                &&& after[k].2 == 1 ==> after[k].1 >= self@.mid_ticks + 5
            } by {
                let j = if k == i {
                    before.len() - 1
                } else {
                    k
                };
                assert(after[k] == before[j]);
            }
        }
        mk_synth(ts, EventType::OrderCancel, side, price, 0, id)
    }

    /// Trades the order at place `i`.
    pub fn trade_order(&self, i: usize, fill: u64, ts: u64) -> (e: Event)
        requires
            i < self@.live.len(),
        ensures
            (self@, e) == synth_trade(self@, i as int, fill, ts),
    {
        let (id, price, side): Live = self.live_orders[i];
        mk_synth(ts, EventType::Trade, side, price, fill, id)
    }
}

proof fn lemma_first_kept(s: Seq<Live>, side: u8, k: nat, n: nat)
    requires
        k <= n <= s.len(),
        first_on(s, side, k) is Some,
    ensures
        first_on(s, side, n) == first_on(s, side, k),
    decreases n,
{
    if k < n {
        lemma_first_kept(s, side, k, (n - 1) as nat);
    }
}

// ─── The source ─────────────────────────────────────────────────────

/// One event of a source, from what it remembers and its dice to what it remembers
/// and its dice afterwards: what the dice decide is what chance may decide, and
/// the event and the rest follow from it and the time.
pub open spec fn gives(m: SynthModel, g: Dice, now_ns: u64, n: SynthModel, h: Dice, e: Event) -> bool {
    let (d, dice) = drawn(m, g);
    &&& fair(m, d)
    &&& (n, e) == synth_step(m, d, now_ns)
    &&& h == dice
}

/// Events without end.
#[derive(Debug)]
pub struct SyntheticSource {
    dice: Dice,
    state: SynthState,
}

impl View for SyntheticSource {
    type V = SynthModel;

    closed spec fn view(&self) -> SynthModel {
        self.state@
    }
}

impl SyntheticSource {
    /// The dice that the next event is drawn with.
    pub closed spec fn dice(&self) -> Dice {
        self.dice
    }

    /// A source that begins, with the dice of a seed.
    pub fn new(seed: u64) -> (s: Self)
        ensures
            s@ == fresh_synth(),
            s@.wf(),
            s.dice() == dice_of(seed),
    {
        SyntheticSource { dice: seeded(seed), state: SynthState::new() }
    }

    /// Rolls for the next phase, its side and its length.
    fn pick_next_phase(&mut self) -> (r: (u8, u8, u32))
        ensures
            final(self)@ == old(self)@,
            (r, final(self).dice()) == drawn_phase(old(self).dice()),
            r.0 < 100,
            r.1 <= 1,
            phase_span(r.0).0 <= r.2 <= phase_span(r.0).1,
    {
        let roll: u8 = draw_u8(&mut self.dice, 0, 100);
        let side: u8 = draw_i32(&mut self.dice, 0, 2) as u8;
        let len: u32 = if roll < 50 {
            draw_u32(&mut self.dice, 2_800, 5_500)
        } else if roll < 73 {
            draw_u32(&mut self.dice, 800, 1_500)
        } else if roll < 88 {
            draw_u32(&mut self.dice, 450, 950)
        } else {
            draw_u32(&mut self.dice, 260, 520)
        };
        (roll, side, len)
    }

    /// The next event, at a given time.
    pub fn next(&mut self, now_ns: u64) -> (e: Event)
        requires
            old(self)@.wf(),
            old(self)@.next_oid < u64::MAX,
        ensures
            final(self)@.wf(),
            gives(old(self)@, old(self).dice(), now_ns, final(self)@, final(self).dice(), e),
    {
        let ghost before = self@;
        let ghost first = self.dice;
        let ghost mut d = no_draws();
        if self.state.needs_phase() {
            let (roll, side, len): (u8, u8, u32) = self.pick_next_phase();
            self.state.enter_phase(roll, side, len);
            proof {
                d.phase_roll = roll;
                d.phase_side = side;
                d.phase_len = len;
            }
        } else {
            self.state.go_on();
        }
        let ghost n = self@;
        assert(n == in_phase(before, d));
        let roll: u8 = draw_u8(&mut self.dice, 0, 100);
        proof {
            d.roll = roll;
        }
        let flash: bool = self.state.is_flash();
        let e: Event = match self.state.plan(roll) {
            Plan::Add(forced) => {
                let side: u8 = match forced {
                    Some(s) => s,
                    None => if toss(&mut self.dice) {
                        0
                    } else {
                        1
                    },
                };
                let offset: i64 = if forced.is_some() {
                    draw_i64(&mut self.dice, 5, 7)
                } else {
                    draw_i64(&mut self.dice, 5, 50)
                };
                let qty: u64 = draw_u64(&mut self.dice, 10, 500);
                proof {
                    d.side = side;
                    d.offset = offset;
                    d.qty = qty;
                }
                self.state.add_order(side, offset, qty, now_ns)
            },
            Plan::Cancel(place) => {
                let i: usize = match place {
                    Some(i) => i,
                    None => draw_index(&mut self.dice, self.state.live_len()),
                };
                proof {
                    d.index = i;
                }
                self.state.cancel_order(i, now_ns)
            },
            Plan::Trade(place) => {
                let i: usize = match place {
                    Some(i) => i,
                    None => draw_index(&mut self.dice, self.state.live_len()),
                };
                let fill: u64 = if flash {
                    draw_u64(&mut self.dice, 35, 140)
                } else {
                    draw_u64(&mut self.dice, 1, 50)
                };
                proof {
                    d.index = i;
                    d.fill = fill;
                }
                self.state.trade_order(i, fill, now_ns)
            },
        };
        proof {
            assert(n == in_phase(before, d));
            assert((self@, e) == synth_step(before, d, now_ns));
            assert(fair(before, d));
            assert((d, self.dice) == drawn(before, first));
        }
        e
    }
}

// ─── Laws ───────────────────────────────────────────────────────────

/// A price lies on its side of the mid, from five to fifty ticks away.
pub open spec fn near_mid(mid: int, side: u8, price: u64) -> bool {
    &&& side <= 1
    &&& side == 0 ==> mid - 50 <= price <= mid - 5
    &&& side == 1 ==> mid + 5 <= price <= mid + 50
}

/// A source in order: every live order is near the mid, has been numbered, and is
/// there once.
pub open spec fn orderly(m: SynthModel) -> bool {
    &&& m.wf()
    &&& forall|i: int|
        #![trigger m.live[i]]
        0 <= i < m.live.len() ==> m.live[i].0 < m.next_oid && near_mid(
            m.mid_ticks as int,
            m.live[i].2,
            m.live[i].1,
        )
    &&& forall|i: int, j: int|
        #![trigger m.live[i], m.live[j]]
        0 <= i < j < m.live.len() ==> m.live[i].0 != m.live[j].0
}

/// An event that a source may give: of a new order or of a live one, near the mid,
/// with a quantity of its kind.
pub open spec fn proper_event(m: SynthModel, e: Event) -> bool {
    &&& near_mid(m.mid_ticks as int, e.side, e.price)
    &&& {
        ||| e.event_type == event::event_code(EventType::OrderAdd) && e.order_id == m.next_oid && 10
            <= e.qty <= 500
        ||| e.event_type == event::event_code(EventType::OrderCancel) && e.qty == 0 && of_live(m, e)
        ||| e.event_type == event::event_code(EventType::Trade) && 1 <= e.qty <= 140 && of_live(m, e)
    }
}

/// An event is of a live order.
pub open spec fn of_live(m: SynthModel, e: Event) -> bool {
    exists|i: int|
        0 <= i < m.live.len() && (#[trigger] m.live[i]).0 == e.order_id && m.live[i].1 == e.price
            && m.live[i].2 == e.side
}

/// An order has been numbered and is not live.
pub open spec fn gone(m: SynthModel, id: u64) -> bool {
    id < m.next_oid && forall|i: int| 0 <= i < m.live.len() ==> (#[trigger] m.live[i]).0 != id
}

/// However chance falls, the next event is a proper one and the source stays in
/// order. A cancelled order is gone afterwards, and an order that is gone stays so,
/// with no event of it.
pub proof fn synth_stays_orderly(m: SynthModel, d: Draws, ts: u64, id: u64)
    requires
        orderly(m),
        m.next_oid < u64::MAX,
        fair(m, d),
    ensures
        orderly(synth_step(m, d, ts).0),
        synth_step(m, d, ts).0.mid_ticks == m.mid_ticks,
        m.next_oid <= synth_step(m, d, ts).0.next_oid <= m.next_oid + 1,
        proper_event(m, synth_step(m, d, ts).1),
        synth_step(m, d, ts).1.event_type == event::event_code(EventType::OrderCancel) ==> gone(
            synth_step(m, d, ts).0,
            synth_step(m, d, ts).1.order_id,
        ),
        gone(m, id) ==> gone(synth_step(m, d, ts).0, id) && synth_step(m, d, ts).1.order_id != id,
{
    let n = in_phase(m, d);
    let x = mix_of(n.phase);
    lemma_synth_step_wf(m, d, ts);
    let (r, e) = synth_step(m, d, ts);
    if x.forced is Some {
        let side = x.forced->0;
        lemma_first_on(n.live, side, n.live.len());
        lemma_first_on(n.live, (1 - side) as u8, n.live.len());
        lemma_nearest_on(n.live, side, n.live.len());
        lemma_nearest_on(n.live, (1 - side) as u8, n.live.len());
    }
    match plan_of(n, d.roll) {
        Plan::Add(forced) => {
            let more = n.live.push((n.next_oid, e.price, e.side));
            assert forall|i: int| 0 <= i < r.live.len() implies {
                let k = if i == 0 && more.len() > LIVE_CAP {
                    more.len() - 1
                } else {
                    i
                };
                &&& #[trigger] r.live[i] == more[k]
                &&& k < m.live.len() ==> r.live[i] == m.live[k]
            } by {}
        },
        Plan::Cancel(place) => {
            let i = match place {
                Some(i) => i as int,
                None => d.index as int,
            };
            assert(n.live[i] == m.live[i]);
            assert forall|k: int| 0 <= k < r.live.len() implies #[trigger] r.live[k] == m.live[if k == i {
                m.live.len() - 1
            } else {
                k
            }] by {}
        },
        Plan::Trade(place) => {
            let i = match place {
                Some(i) => i as int,
                None => d.index as int,
            };
            assert(n.live[i] == m.live[i]);
        },
    }
}

/// A path of a source: what it remembers after so many draws of chance, and the
/// events it gave at these times.
pub open spec fn synth_path(m: SynthModel, ds: Seq<Draws>, times: Seq<u64>) -> (SynthModel, Seq<Event>)
    decreases ds.len(),
{
    if ds.len() == 0 {
        (m, Seq::empty())
    } else {
        let (n, out) = synth_path(m, ds.drop_last(), times);
        let (next, e) = synth_step(n, ds.last(), times[ds.len() - 1]);
        (next, out.push(e))
    }
}

/// Every draw on a path is one that chance may decide.
pub open spec fn fair_path(m: SynthModel, ds: Seq<Draws>, times: Seq<u64>) -> bool
    decreases ds.len(),
{
    ds.len() == 0 || (fair_path(m, ds.drop_last(), times) && fair(
        synth_path(m, ds.drop_last(), times).0,
        ds.last(),
    ))
}

/// However chance falls and however many events are drawn, the source stays in
/// order, every event lies within fifty ticks of the mid, on its side of it, with a
/// quantity of its kind, and an order that is gone has no event.
pub proof fn synth_paths_are_orderly(m: SynthModel, ds: Seq<Draws>, times: Seq<u64>, id: u64)
    requires
        orderly(m),
        fair_path(m, ds, times),
        m.next_oid + ds.len() <= u64::MAX,
    ensures
        ({
            let (n, out) = synth_path(m, ds, times);
            &&& orderly(n)
            &&& n.mid_ticks == m.mid_ticks
            &&& m.next_oid <= n.next_oid <= m.next_oid + ds.len()
            &&& out.len() == ds.len()
            &&& gone(m, id) ==> gone(n, id)
            &&& forall|i: int|
                #![trigger out[i]]
                0 <= i < out.len() ==> {
                    &&& proper_event(synth_path(m, ds.take(i), times).0, out[i])
                    &&& near_mid(m.mid_ticks as int, out[i].side, out[i].price)
                    &&& out[i].ts == times[i]
                    &&& gone(m, id) ==> out[i].order_id != id
                }
        }),
    decreases ds.len(),
{
    if ds.len() > 0 {
        let head = ds.drop_last();
        let k = head.len() as int;
        synth_paths_are_orderly(m, head, times, id);
        synth_stays_orderly(synth_path(m, head, times).0, ds.last(), times[k], id);
        let (n, out) = synth_path(m, ds, times);
        assert forall|i: int|
            #![trigger out[i]]
            0 <= i < out.len() implies {
            &&& proper_event(synth_path(m, ds.take(i), times).0, out[i])
            &&& near_mid(m.mid_ticks as int, out[i].side, out[i].price)
            &&& out[i].ts == times[i]
            &&& gone(m, id) ==> out[i].order_id != id
        } by {
            if i < k {
                assert(ds.take(i) =~= head.take(i));
                assert(out[i] == synth_path(m, head, times).1[i]);
            } else {
                assert(ds.take(i) =~= head);
            }
        }
    }
}

/// Once an order is cancelled, no later event is of it: it is not cancelled again,
/// nor traded, nor added.
pub proof fn cancelled_orders_stay_gone(m: SynthModel, ds: Seq<Draws>, times: Seq<u64>, i: int, j: int)
    requires
        orderly(m),
        fair_path(m, ds, times),
        m.next_oid + ds.len() <= u64::MAX,
        0 <= i < j < ds.len(),
        synth_path(m, ds, times).1[i].event_type == event::event_code(EventType::OrderCancel),
    ensures
        synth_path(m, ds, times).1[j].order_id != synth_path(m, ds, times).1[i].order_id,
{
    let id = synth_path(m, ds, times).1[i].order_id;
    lemma_path_prefix(m, ds, times, j);
    lemma_path_prefix(m, ds, times, j + 1);
    lemma_cancelled_is_gone(m, ds.take(j), times, i, id);
    let head = ds.take(j + 1);
    assert(head.drop_last() =~= ds.take(j));
    synth_paths_are_orderly(m, ds.take(j), times, id);
    synth_stays_orderly(synth_path(m, ds.take(j), times).0, head.last(), times[j], id);
    assert(synth_path(m, head, times).1[j] == synth_path(m, ds, times).1.take(j + 1)[j]);
    assert(synth_path(m, head, times).1.last() == synth_step(
        synth_path(m, ds.take(j), times).0,
        head.last(),
        times[j],
    ).1);
}

/// A path begins as every longer one does.
proof fn lemma_path_prefix(m: SynthModel, ds: Seq<Draws>, times: Seq<u64>, k: int)
    requires
        0 <= k <= ds.len(),
    ensures
        fair_path(m, ds, times) ==> fair_path(m, ds.take(k), times),
        synth_path(m, ds, times).1.len() == ds.len(),
        synth_path(m, ds.take(k), times).1 == synth_path(m, ds, times).1.take(k),
    decreases ds.len(),
{
    if k == ds.len() {
        assert(ds.take(k) =~= ds);
        if ds.len() > 0 {
            lemma_path_prefix(m, ds.drop_last(), times, k - 1);
        }
    } else {
        lemma_path_prefix(m, ds.drop_last(), times, k);
        assert(ds.take(k) =~= ds.drop_last().take(k));
    }
    assert(synth_path(m, ds.take(k), times).1 =~= synth_path(m, ds, times).1.take(k));
}

/// After a path on which an order is cancelled it is gone.
proof fn lemma_cancelled_is_gone(m: SynthModel, ds: Seq<Draws>, times: Seq<u64>, i: int, id: u64)
    requires
        orderly(m),
        0 <= i < ds.len(),
        m.next_oid + ds.len() <= u64::MAX,
        fair_path(m, ds, times),
        synth_path(m, ds, times).1[i].event_type == event::event_code(EventType::OrderCancel),
        synth_path(m, ds, times).1[i].order_id == id,
    ensures
        gone(synth_path(m, ds, times).0, id),
    decreases ds.len(),
{
    let head = ds.drop_last();
    lemma_path_prefix(m, ds, times, head.len() as int);
    assert(ds.take(head.len() as int) =~= head);
    synth_paths_are_orderly(m, head, times, id);
    synth_stays_orderly(synth_path(m, head, times).0, ds.last(), times[head.len() as int], id);
    if i < head.len() {
        lemma_cancelled_is_gone(m, head, times, i, id);
    }
}

/// However chance falls, the source stays well formed.
proof fn lemma_synth_step_wf(m: SynthModel, d: Draws, ts: u64)
    requires
        m.wf(),
        m.next_oid < u64::MAX,
        fair(m, d),
    ensures
        synth_step(m, d, ts).0.wf(),
{
    let n = in_phase(m, d);
    let x = mix_of(n.phase);
    assert(n.wf());
    let (r, e) = synth_step(m, d, ts);
    if x.forced is Some {
        let side = x.forced->0;
        lemma_first_on(n.live, side, n.live.len());
        lemma_first_on(n.live, (1 - side) as u8, n.live.len());
        lemma_nearest_on(n.live, side, n.live.len());
        lemma_nearest_on(n.live, (1 - side) as u8, n.live.len());
    }
    match plan_of(n, d.roll) {
        Plan::Add(forced) => {
            let more = n.live.push((n.next_oid, e.price, e.side));
            assert forall|i: int|
                #![trigger r.live[i]]
                0 <= i < r.live.len() implies {
                &&& r.live[i].2 <= 1
                &&& r.live[i].2 == 0 ==> r.live[i].1 <= r.mid_ticks - 5
                &&& r.live[i].2 == 1 ==> r.live[i].1 >= r.mid_ticks + 5
            } by {
                let k = if i == 0 && more.len() > LIVE_CAP {
                    more.len() - 1
                } else {
                    i
                };
                assert(r.live[i] == more[k]);
                if k < n.live.len() {
                    assert(more[k] == n.live[k]);
                }
            }
        },
        Plan::Cancel(place) => {
            let i = match place {
                Some(i) => i as int,
                None => d.index as int,
            };
            assert(0 <= i < n.live.len());
            assert(n.live[i] == m.live[i]);
            assert forall|k: int|
                #![trigger r.live[k]]
                0 <= k < r.live.len() implies {
                &&& r.live[k].2 <= 1
                &&& r.live[k].2 == 0 ==> r.live[k].1 <= r.mid_ticks - 5
                &&& r.live[k].2 == 1 ==> r.live[k].1 >= r.mid_ticks + 5
            } by {
                let j = if k == i {
                    n.live.len() - 1
                } else {
                    k
                };
                assert(r.live[k] == n.live[j]);
            }
        },
        Plan::Trade(place) => {
            let i = match place {
                Some(i) => i as int,
                None => d.index as int,
            };
            assert(0 <= i < n.live.len());
            assert(n.live[i] == m.live[i]);
        },
    }
}

/// A run of a source: what it remembers, its dice, and the events it gave at
/// these times.
pub open spec fn synth_run(m: SynthModel, g: Dice, times: Seq<u64>) -> (SynthModel, Dice, Seq<Event>)
    decreases times.len(),
{
    if times.len() == 0 {
        (m, g, Seq::empty())
    } else {
        let (n, h, out) = synth_run(m, g, times.drop_last());
        let (d, after) = drawn(n, h);
        let (next, e) = synth_step(n, d, times.last());
        (next, after, out.push(e))
    }
}

/// A seed fixes the events of a source: two runs from one seed, however they are
/// timed, give the same events but for their times, and go on alike.
pub proof fn seeds_fix_streams(seed: u64, a: Seq<u64>, b: Seq<u64>)
    requires
        a.len() == b.len(),
    ensures
        ({
            let x = synth_run(fresh_synth(), dice_of(seed), a);
            let y = synth_run(fresh_synth(), dice_of(seed), b);
            &&& x.0 == y.0
            &&& x.1 == y.1
            &&& x.2.len() == a.len()
            &&& y.2.len() == a.len()
            &&& forall|i: int|
                #![trigger x.2[i]]
                #![trigger y.2[i]]
                0 <= i < a.len() ==> {
                    &&& x.2[i].ts == a[i]
                    &&& y.2[i] == (Event { ts: b[i], ..x.2[i] })
                }
        }),
    decreases a.len(),
{
    if a.len() > 0 {
        seeds_fix_streams(seed, a.drop_last(), b.drop_last());
    }
}

/// How many of some events are adds.
pub open spec fn adds_in(out: Seq<Event>) -> nat
    decreases out.len(),
{
    if out.len() == 0 {
        0
    } else {
        adds_in(out.drop_last()) + if out.last().event_type == event::event_code(EventType::OrderAdd) {
            1nat
        } else {
            0
        }
    }
}

/// An earlier event of a stream added an order.
pub open spec fn added_before(out: Seq<Event>, i: int, id: u64, price: u64, side: u8) -> bool {
    exists|j: int|
        0 <= j < i && (#[trigger] out[j]).event_type == event::event_code(EventType::OrderAdd) && out[j].order_id
            == id && out[j].price == price && out[j].side == side
}

/// No earlier event of a stream cancelled an order.
pub open spec fn uncancelled(out: Seq<Event>, i: int, id: u64) -> bool {
    forall|k: int|
        0 <= k < i ==> !((#[trigger] out[k]).event_type == event::event_code(EventType::OrderCancel)
            && out[k].order_id == id)
}

/// What holds of the event at `i` of a stream: it lies on its side of the mid, from
/// five to fifty ticks away. An add bears the next number, the first of them one,
/// and from ten to five hundred units. A cancel bears none and a trade from one to
/// a hundred and forty, and both are of an order that was added before, at its
/// price and on its side, and not cancelled since.
pub open spec fn keeps_to_the_rules(out: Seq<Event>, i: int) -> bool {
    let e = out[i];
    &&& near_mid(fresh_synth().mid_ticks as int, e.side, e.price)
    &&& {
        ||| e.event_type == event::event_code(EventType::OrderAdd) && e.order_id == 1 + adds_in(out.take(i)) && 10
            <= e.qty <= 500
        ||| {
            &&& e.event_type == event::event_code(EventType::OrderCancel) && e.qty == 0 || e.event_type
                == event::event_code(EventType::Trade) && 1 <= e.qty <= 140
            &&& added_before(out, i, e.order_id, e.price, e.side)
            &&& uncancelled(out, i, e.order_id)
        }
    }
}

proof fn lemma_numbering(ds: Seq<Draws>, times: Seq<u64>)
    requires
        fair_path(fresh_synth(), ds, times),
        ds.len() < u64::MAX,
    ensures
        synth_path(fresh_synth(), ds, times).0.next_oid == 1 + adds_in(synth_path(fresh_synth(), ds, times).1),
    decreases ds.len(),
{
    if ds.len() > 0 {
        let m = fresh_synth();
        let head = ds.drop_last();
        lemma_numbering(head, times);
        synth_paths_are_orderly(m, head, times, 0);
        synth_stays_orderly(synth_path(m, head, times).0, ds.last(), times[ds.len() - 1], 0);
        let out = synth_path(m, ds, times).1;
        assert(out.drop_last() =~= synth_path(m, head, times).1);
    }
}

/// Every live order was added by an event of the stream.
proof fn lemma_live_was_added(ds: Seq<Draws>, times: Seq<u64>, x: Live)
    requires
        fair_path(fresh_synth(), ds, times),
        ds.len() < u64::MAX,
        synth_path(fresh_synth(), ds, times).0.live.contains(x),
    ensures
        added_before(synth_path(fresh_synth(), ds, times).1, ds.len() as int, x.0, x.1, x.2),
    decreases ds.len(),
{
    let m = fresh_synth();
    let (n, out) = synth_path(m, ds, times);
    assert(ds.len() > 0);
    let head = ds.drop_last();
    let (p, before) = synth_path(m, head, times);
    synth_paths_are_orderly(m, head, times, 0);
    if p.live.contains(x) {
        lemma_live_was_added(head, times, x);
        let j = choose|j: int|
            0 <= j < head.len() && (#[trigger] before[j]).event_type == event::event_code(EventType::OrderAdd)
                && before[j].order_id == x.0 && before[j].price == x.1 && before[j].side == x.2;
        assert(out[j] == before[j]);
    } else {
        lemma_new_live(p, ds.last(), times[ds.len() - 1], x);
        assert(out[ds.len() - 1] == synth_step(p, ds.last(), times[ds.len() - 1]).1);
    }
}

/// What is live and was not is what the event adds.
proof fn lemma_new_live(m: SynthModel, d: Draws, ts: u64, x: Live)
    requires
        orderly(m),
        m.next_oid < u64::MAX,
        fair(m, d),
        synth_step(m, d, ts).0.live.contains(x),
        !m.live.contains(x),
    ensures
        ({
            let e = synth_step(m, d, ts).1;
            &&& e.event_type == event::event_code(EventType::OrderAdd)
            &&& (e.order_id, e.price, e.side) == x
        }),
{
    let n = in_phase(m, d);
    let p = mix_of(n.phase);
    let (r, e) = synth_step(m, d, ts);
    if p.forced is Some {
        let side = p.forced->0;
        lemma_first_on(n.live, side, n.live.len());
        lemma_first_on(n.live, (1 - side) as u8, n.live.len());
        lemma_nearest_on(n.live, side, n.live.len());
        lemma_nearest_on(n.live, (1 - side) as u8, n.live.len());
    }
    let k = choose|k: int| 0 <= k < r.live.len() && r.live[k] == x;
    match plan_of(n, d.roll) {
        Plan::Add(forced) => {
            let more = n.live.push((n.next_oid, e.price, e.side));
            let j = if k == 0 && more.len() > LIVE_CAP {
                more.len() - 1
            } else {
                k
            };
            assert(r.live[k] == more[j]);
            if j < m.live.len() {
                assert(m.live[j] == x);
            }
        },
        Plan::Cancel(place) => {
            let i = match place {
                Some(i) => i as int,
                None => d.index as int,
            };
            let j = if k == i {
                m.live.len() - 1
            } else {
                k
            };
            assert(m.live[j] == x);
        },
        Plan::Trade(place) => {
            assert(m.live[k] == x);
        },
    }
}

proof fn lemma_event_keeps_to_the_rules(ds: Seq<Draws>, times: Seq<u64>, i: int)
    requires
        fair_path(fresh_synth(), ds, times),
        ds.len() < u64::MAX,
        0 <= i < ds.len(),
    ensures
        keeps_to_the_rules(synth_path(fresh_synth(), ds, times).1, i),
{
    let m = fresh_synth();
    let out = synth_path(m, ds, times).1;
    let e = out[i];
    let p = synth_path(m, ds.take(i), times).0;
    synth_paths_are_orderly(m, ds, times, 0);
    lemma_path_prefix(m, ds, times, i);
    lemma_numbering(ds.take(i), times);
    assert(proper_event(p, e));
    if e.event_type != event::event_code(EventType::OrderAdd) {
        let k = choose|k: int|
            0 <= k < p.live.len() && (#[trigger] p.live[k]).0 == e.order_id && p.live[k].1 == e.price
                && p.live[k].2 == e.side;
        let x = p.live[k];
        assert(p.live.contains(x));
        lemma_live_was_added(ds.take(i), times, x);
        let before = out.take(i);
        let j = choose|j: int|
            0 <= j < i && (#[trigger] before[j]).event_type == event::event_code(EventType::OrderAdd)
                && before[j].order_id == x.0 && before[j].price == x.1 && before[j].side == x.2;
        assert(out[j] == before[j]);
        assert forall|c: int| 0 <= c < i implies !((#[trigger] out[c]).event_type == event::event_code(
            EventType::OrderCancel,
        ) && out[c].order_id == e.order_id) by {
            if out[c].event_type == event::event_code(EventType::OrderCancel) {
                cancelled_orders_stay_gone(m, ds, times, c, i);
            }
        }
    }
}

/// A row of events that a source gave from a seed on, at these times: what it
/// remembered and its dice, before the first of them and after each.
pub open spec fn is_row(seed: u64, times: Seq<u64>, ms: Seq<SynthModel>, gs: Seq<Dice>, out: Seq<Event>) -> bool {
    &&& out.len() == times.len()
    &&& ms.len() == times.len() + 1
    &&& gs.len() == times.len() + 1
    &&& ms[0] == fresh_synth()
    &&& gs[0] == dice_of(seed)
    &&& forall|i: int|
        #![trigger out[i]]
        0 <= i < out.len() ==> gives(ms[i], gs[i], times[i], ms[i + 1], gs[i + 1], out[i])
}

/// What the dice decided for each event of a row.
pub open spec fn draws_of(ms: Seq<SynthModel>, gs: Seq<Dice>, n: nat) -> Seq<Draws> {
    Seq::new(n, |i: int| drawn(ms[i], gs[i]).0)
}

proof fn lemma_row_is_a_path(
    seed: u64,
    times: Seq<u64>,
    ms: Seq<SynthModel>,
    gs: Seq<Dice>,
    out: Seq<Event>,
    k: nat,
)
    requires
        is_row(seed, times, ms, gs, out),
        k <= out.len(),
    ensures
        fair_path(fresh_synth(), draws_of(ms, gs, k), times),
        synth_path(fresh_synth(), draws_of(ms, gs, k), times) == (ms[k as int], out.take(k as int)),
        synth_run(fresh_synth(), dice_of(seed), times.take(k as int)) == (
            ms[k as int],
            gs[k as int],
            out.take(k as int),
        ),
    decreases k,
{
    if k == 0 {
        assert(out.take(0) =~= Seq::<Event>::empty());
    } else {
        let j = (k - 1) as nat;
        lemma_row_is_a_path(seed, times, ms, gs, out, j);
        assert(draws_of(ms, gs, k).drop_last() =~= draws_of(ms, gs, j));
        assert(times.take(k as int).drop_last() =~= times.take(j as int));
        let e = out[j as int];
        assert(gives(ms[j as int], gs[j as int], times[j as int], ms[k as int], gs[k as int], e));
        assert(out.take(k as int) =~= out.take(j as int).push(e));
    }
}

/// A row of events from a seed on is a path of fair draws, and the run that the
/// seed fixes: each event follows from the one before by one step. So every event of
/// it keeps to the rules, and bears the time that it was asked for at.
pub proof fn rows_are_paths(seed: u64, times: Seq<u64>, ms: Seq<SynthModel>, gs: Seq<Dice>, out: Seq<Event>)
    requires
        is_row(seed, times, ms, gs, out),
        out.len() < u64::MAX,
    ensures
        fair_path(fresh_synth(), draws_of(ms, gs, out.len()), times),
        synth_path(fresh_synth(), draws_of(ms, gs, out.len()), times) == (ms.last(), out),
        synth_run(fresh_synth(), dice_of(seed), times) == (ms.last(), gs.last(), out),
        orderly(ms.last()),
        ms.last().next_oid == 1 + adds_in(out),
        forall|i: int| 0 <= i < out.len() ==> (#[trigger] out[i]).ts == times[i],
        forall|i: int| 0 <= i < out.len() ==> #[trigger] keeps_to_the_rules(out, i),
{
    let n = out.len();
    lemma_row_is_a_path(seed, times, ms, gs, out, n);
    assert(out.take(n as int) =~= out);
    assert(times.take(n as int) =~= times);
    let ds = draws_of(ms, gs, n);
    synth_paths_are_orderly(fresh_synth(), ds, times, 0);
    lemma_numbering(ds, times);
    assert forall|i: int| 0 <= i < out.len() implies #[trigger] keeps_to_the_rules(out, i) by {
        lemma_event_keeps_to_the_rules(ds, times, i);
    }
}

/// Where the times asked for never fall, the times of the events never do.
pub proof fn rows_never_go_back_in_time(
    seed: u64,
    times: Seq<u64>,
    ms: Seq<SynthModel>,
    gs: Seq<Dice>,
    out: Seq<Event>,
    i: int,
    j: int,
)
    requires
        is_row(seed, times, ms, gs, out),
        out.len() < u64::MAX,
        forall|a: int, b: int| 0 <= a <= b < times.len() ==> #[trigger] times[a] <= #[trigger] times[b],
        0 <= i <= j < out.len(),
    ensures
        out[i].ts <= out[j].ts,
{
    rows_are_paths(seed, times, ms, gs, out);
    assert(out[i].ts == times[i] && out[j].ts == times[j]);
}

/// Of a hundred rolls fifty are calm, twenty-three an imbalance, fifteen a burst of trades
/// and twelve a flash, and the livelier a phase, the shorter it lasts.
pub proof fn phases_share_out_the_rolls(roll: u8, side: u8)
    ensures
        roll < 50 ==> phase_of(roll, side) == Phase::Calm && phase_span(roll) == (2_800u32, 5_500u32),
        50 <= roll < 50 + 23 ==> phase_of(roll, side) == (Phase::ImbalanceBurst { side }) && phase_span(roll) == (
            800u32,
            1_500u32,
        ),
        73 <= roll < 73 + 15 ==> phase_of(roll, side) == (Phase::TradeBurst { side }) && phase_span(roll) == (
            450u32,
            950u32,
        ),
        88 <= roll ==> phase_of(roll, side) == (Phase::Flash { side }) && phase_span(roll) == (260u32, 520u32),
{
}

/// What the phases do: in calm weather sixty adds, twenty-five cancels and fifteen trades of
/// a hundred, on any side; else the favoured side has nearly only adds, nearly only trades,
/// or trades and cancels that go by price.
pub proof fn phases_mix_their_events(side: u8)
    ensures
        ({
            let calm = mix_of(Phase::Calm);
            let lean = mix_of(Phase::ImbalanceBurst { side });
            let busy = mix_of(Phase::TradeBurst { side });
            let fall = mix_of(Phase::Flash { side });
            &&& calm.add_below == 60 && calm.cancel_below == 60 + 25 && calm.forced is None && !calm.flash
            &&& lean.add_below == 95 && lean.cancel_below == 95 + 5 && lean.forced == Some(side) && !lean.flash
            &&& busy.add_below == 15 && busy.cancel_below == 15 + 5 && busy.forced == Some(side) && !busy.flash
            &&& fall.add_below == 2 && fall.cancel_below == 2 + 33 && fall.forced == Some(side) && fall.flash
        }),
{
}

/// Every event is numbered one on and is one less of its phase; where none was left, the
/// drawn phase begins with it. Nothing else changes.
pub proof fn phases_last_their_events(m: SynthModel, d: Draws)
    requires
        m.seq < u64::MAX,
        d.phase_len > 0,
    ensures
        ({
            let n = in_phase(m, d);
            &&& n.seq == m.seq + 1
            &&& m.phase_remaining > 0 ==> n.phase == m.phase && n.phase_remaining == m.phase_remaining - 1
            &&& m.phase_remaining == 0 ==> n.phase == phase_of(d.phase_roll, d.phase_side) && n.phase_remaining + 1
                == d.phase_len
            &&& n.live == m.live && n.next_oid == m.next_oid && n.mid_ticks == m.mid_ticks
        }),
        fresh_synth().phase == Phase::Calm && fresh_synth().phase_remaining == 4_000 && fresh_synth().mid_ticks
            == 100_000_000 && fresh_synth().next_oid == 1 && fresh_synth().live.len() == 0,
{
}

/// The order that is picked is on the side that is asked for: in a flash none there lies
/// nearer to the mid, bids by the higher and asks by the lower price, and else none there
/// comes before it. None is picked only where there is none.
pub proof fn picks_are_the_nearest_or_first(s: Seq<Live>, side: u8, flash: bool, j: int)
    requires
        side <= 1,
        0 <= j < s.len(),
        s[j].2 == side,
    ensures
        picked(s, side, flash) matches Some(i) && i < s.len() && s[i as int].2 == side && (flash && side == 0
            ==> s[i as int].1 >= s[j].1) && (flash && side == 1 ==> s[i as int].1 <= s[j].1) && (!flash ==> i <= j),
{
    if flash {
        lemma_nearest_is_nearest(s, side, s.len(), j);
    } else {
        lemma_first_is_first(s, side, s.len(), j);
    }
}

/// Where no order is on a side, none is picked.
pub proof fn nothing_is_picked_of_nothing(s: Seq<Live>, side: u8, flash: bool)
    requires
        forall|i: int| 0 <= i < s.len() ==> (#[trigger] s[i]).2 != side,
    ensures
        picked(s, side, flash) is None,
{
    lemma_first_on(s, side, s.len());
    lemma_nearest_on(s, side, s.len());
}

proof fn lemma_nearest_is_nearest(s: Seq<Live>, side: u8, n: nat, j: int)
    requires
        side <= 1,
        0 <= j < n <= s.len(),
        s[j].2 == side,
    ensures
        nearest_on(s, side, n) matches Some(i) && i < n && s[i as int].2 == side && (side == 0 ==> s[i as int].1
            >= s[j].1) && (side == 1 ==> s[i as int].1 <= s[j].1),
    decreases n,
{
    lemma_nearest_on(s, side, (n - 1) as nat);
    if j < n - 1 {
        lemma_nearest_is_nearest(s, side, (n - 1) as nat, j);
    }
}

proof fn lemma_first_is_first(s: Seq<Live>, side: u8, n: nat, j: int)
    requires
        0 <= j < n <= s.len(),
        s[j].2 == side,
    ensures
        first_on(s, side, n) matches Some(i) && i <= j && s[i as int].2 == side,
    decreases n,
{
    lemma_first_on(s, side, (n - 1) as nat);
    if j < n - 1 {
        lemma_first_is_first(s, side, (n - 1) as nat, j);
    }
}

/// What an event does goes by its roll: below the share of adds, or with nothing live, it
/// adds, then cancels on the favoured side and trades on the other.
pub proof fn plans_go_by_the_roll(m: SynthModel, roll: u8)
    requires
        m.live.len() <= LIVE_CAP,
        mix_of(m.phase).forced matches Some(side) ==> side <= 1,
    ensures
        ({
            let x = mix_of(m.phase);
            let p = plan_of(m, roll);
            let adds = roll < x.add_below || m.live.len() == 0;
            &&& adds <==> p == Plan::Add(x.forced)
            &&& !adds && roll < x.cancel_below ==> p is Cancel
            &&& !adds && roll >= x.cancel_below ==> p is Trade
            &&& x.forced is None ==> (p matches Plan::Cancel(i) ==> i is None) && (p matches Plan::Trade(i) ==> i is None)
            &&& x.forced matches Some(side) ==> (p matches Plan::Cancel(Some(i)) ==> i < m.live.len()
                && m.live[i as int].2 == side)
            &&& x.forced matches Some(side) ==> (p matches Plan::Trade(Some(i)) ==> i < m.live.len()
                && m.live[i as int].2 == 1 - side)
        }),
{
    let x = mix_of(m.phase);
    if x.forced is Some {
        let side = x.forced->0;
        lemma_first_on(m.live, side, m.live.len());
        lemma_first_on(m.live, (1 - side) as u8, m.live.len());
        lemma_nearest_on(m.live, side, m.live.len());
        lemma_nearest_on(m.live, (1 - side) as u8, m.live.len());
    }
}

/// What the events tell: an add its own price so far from the mid on its side and its
/// quantity, with the next id; a cancel the order and no quantity, and the order is gone; a
/// trade the order and what is filled, and the order stays.
pub proof fn synth_events_tell_their_order(m: SynthModel, side: u8, offset: i64, qty: u64, i: int, ts: u64)
    requires
        side <= 1,
        0 <= i < m.live.len() < LIVE_CAP,
        m.live[i].2 <= 1,
        m.next_oid < u64::MAX,
        0 <= offset < m.mid_ticks,
        m.mid_ticks + offset <= i64::MAX,
    ensures
        ({
            let (a, x) = synth_add(m, side, offset, qty, ts);
            let (c, y) = synth_cancel(m, i, ts);
            let (t, z) = synth_trade(m, i, qty, ts);
            let o = m.live[i];
            &&& x.event_type == 1 && x.side == side && x.qty == qty && x.order_id == m.next_oid && x.ts == ts
            &&& side == 0 ==> x.price + offset == m.mid_ticks
            &&& side == 1 ==> x.price == m.mid_ticks + offset
            &&& a.live == m.live.push((m.next_oid, x.price, side)) && a.next_oid == m.next_oid + 1
            &&& y.event_type == 2 && y.side == o.2 && y.price == o.1 && y.qty == 0 && y.order_id == o.0 && y.ts == ts
            &&& c.live.len() == m.live.len() - 1
            &&& z.event_type == 4 && z.side == o.2 && z.price == o.1 && z.qty == qty && z.order_id == o.0 && z.ts
                == ts
            &&& t == m
        }),
{
}

} // verus!
