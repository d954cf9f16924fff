//! What a generator writes to: a numbered, timed strip of events.

use crate::book::event::{Event, EventType, SequencedEvent, Side};
#[allow(unused_imports)]
use crate::book::event;
use crate::chaos::generators::rng::{DetRng, HALF};
#[allow(unused_imports)]
use crate::chaos::generators::rng;
use crate::ratio::Ratio;
use vstd::prelude::*;

verus! {

/// The unused tail of an event record.
pub const NO_PAD: [u8; 2] = [0, 0];

/// The instrument that generators trade.
pub const STORM_INSTRUMENT: u32 = 1;

/// A generated event.
pub open spec fn event_of(
    seq: u64,
    ts: u64,
    kind: EventType,
    side: Side,
    price: u64,
    qty: u64,
    order_id: u64,
) -> SequencedEvent {
    SequencedEvent {
        seq,
        channel_id: 0,
        event: Event {
            ts,
            price,
            qty,
            order_id,
            instrument_id: STORM_INSTRUMENT,
            event_type: event::event_code(kind),
            side: event::side_code(side),
            _pad: NO_PAD,
        },
    }
}

/// A generated event.
pub(crate) fn mk(
    seq: u64,
    ts: u64,
    kind: EventType,
    side: Side,
    price: u64,
    qty: u64,
    order_id: u64,
) -> (e: SequencedEvent)
    ensures
        e == event_of(seq, ts, kind, side, price, qty, order_id),
{
    SequencedEvent {
        seq,
        channel_id: 0,
        event: Event {
            ts,
            price,
            qty,
            order_id,
            instrument_id: STORM_INSTRUMENT,
            event_type: kind.code(),
            side: side.code(),
            _pad: NO_PAD,
        },
    }
}

/// A price `off` ticks away from `base`: below it for a bid, above it for an ask.
pub open spec fn away(side: Side, base: u64, off: u64) -> u64 {
    match side {
        Side::Bid => base.saturating_sub(off),
        Side::Ask => base.saturating_add(off),
    }
}

/// A price `off` ticks away from `base`.
pub(crate) fn price_away(side: Side, base: u64, off: u64) -> (p: u64)
    ensures
        p == away(side, base, off),
{
    match side {
        Side::Bid => base.saturating_sub(off),
        Side::Ask => base.saturating_add(off),
    }
}

/// Sequence numbers rise and lie in `from .. to`.
pub open spec fn numbered(s: Seq<SequencedEvent>, from: int, to: int) -> bool {
    &&& from <= to
    &&& forall|i: int| 0 <= i < s.len() ==> from <= (#[trigger] s[i]).seq < to
    &&& forall|i: int, j: int| 0 <= i < j < s.len() ==> (#[trigger] s[i]).seq < (#[trigger] s[j]).seq
}

/// What a tape is: where the random source, the order ids, the sequence
/// numbers and the clock stand, and what was written.
#[verifier::ext_equal]
pub struct TapeModel {
    pub rng: u64,
    pub next_oid: u64,
    pub seq: int,
    pub ts: u64,
    pub out: Seq<SequencedEvent>,
}

impl TapeModel {
    /// The value that comes next.
    pub open spec fn peek(self) -> u64 {
        rng::value(self.rng)
    }

    /// The side that comes next: a fair coin.
    pub open spec fn coin(self) -> Side {
        if self.peek() < HALF {
            Side::Bid
        } else {
            Side::Ask
        }
    }

    /// After a draw.
    pub open spec fn drawn(self) -> TapeModel {
        TapeModel { rng: rng::next_state(self.rng), ..self }
    }

    /// After an order id was used.
    pub open spec fn named(self) -> TapeModel {
        TapeModel { next_oid: self.next_oid.wrapping_add(1), ..self }
    }

    /// After some time.
    pub open spec fn later(self, dt: u64) -> TapeModel {
        TapeModel { ts: self.ts.saturating_add(dt), ..self }
    }

    /// After an event.
    pub open spec fn sent(self, kind: EventType, side: Side, price: u64, qty: u64, order_id: u64) -> TapeModel {
        TapeModel {
            seq: self.seq + 1,
            out: self.out.push(event_of(self.seq as u64, self.ts, kind, side, price, qty, order_id)),
            ..self
        }
    }

    /// After an event with an order id of its own.
    pub open spec fn sent_fresh(self, kind: EventType, side: Side, price: u64, qty: u64) -> TapeModel {
        self.sent(kind, side, price, qty, self.next_oid).named()
    }
}

/// An empty tape.
pub open spec fn blank(rng: u64, next_oid: u64, seq: u64, ts: u64) -> TapeModel {
    TapeModel { rng, next_oid, seq: seq as int, ts, out: Seq::empty() }
}

/// What was written is numbered from `from` on, as long as the numbers last.
pub open spec fn told(t: TapeModel, from: int) -> bool {
    &&& 0 <= from <= t.seq
    &&& t.seq <= u64::MAX + 1 ==> numbered(t.out, from, t.seq)
}

/// One more event is numbered on.
pub proof fn lemma_sent(
    t: TapeModel,
    from: int,
    kind: EventType,
    side: Side,
    price: u64,
    qty: u64,
    order_id: u64,
)
    requires
        told(t, from),
    ensures
        told(t.sent(kind, side, price, qty, order_id), from),
        told(t.sent_fresh(kind, side, price, qty), from),
{
}

/// A tape that is being written.
pub(crate) struct Tape {
    rng: DetRng,
    next_oid: u64,
    seq: u64,
    ts: u64,
    from: Ghost<int>,
    out: Vec<SequencedEvent>,
}

impl View for Tape {
    type V = TapeModel;

    closed spec fn view(&self) -> TapeModel {
        TapeModel {
            rng: self.rng@,
            next_oid: self.next_oid,
            seq: self.seq as int,
            ts: self.ts,
            out: self.out@,
        }
    }
}

impl Tape {
    /// Where the numbering began.
    pub(crate) closed spec fn from(&self) -> int {
        self.from@
    }

    /// What was written is numbered.
    pub(crate) closed spec fn wf(&self) -> bool {
        numbered(self.out@, self.from@, self.seq as int)
    }

    pub(crate) fn start(rng: u64, next_oid: u64, seq: u64, ts: u64) -> (t: Self)
        ensures
            t.wf(),
            t.from() == seq,
            t@ == blank(rng, next_oid, seq, ts),
    {
        let t = Tape {
            rng: DetRng::resume(rng),
            next_oid,
            seq,
            ts,
            from: Ghost(seq as int),
            out: Vec::new(),
        };
        assert(t@ =~= blank(rng, next_oid, seq, ts));
        t
    }

    pub(crate) fn draw(&mut self) -> (x: u64)
        requires
            old(self).wf(),
        ensures
            final(self).wf(),
            final(self).from() == old(self).from(),
            final(self)@ == old(self)@.drawn(),
            x == old(self)@.peek(),
    {
        self.rng.next_u64()
    }

    pub(crate) fn toss(&mut self) -> (s: Side)
        requires
            old(self).wf(),
        ensures
            final(self).wf(),
            final(self).from() == old(self).from(),
            final(self)@ == old(self)@.drawn(),
            s == old(self)@.coin(),
    {
        if self.rng.bool_p(Ratio { num: 1, den: 2 }) {
            Side::Bid
        } else {
            Side::Ask
        }
    }

    pub(crate) fn wait(&mut self, dt: u64)
        requires
            old(self).wf(),
        ensures
            final(self).wf(),
            final(self).from() == old(self).from(),
            final(self)@ == old(self)@.later(dt),
    {
        self.ts = self.ts.saturating_add(dt);
    }

    pub(crate) fn take_id(&mut self) -> (id: u64)
        requires
            old(self).wf(),
        ensures
            final(self).wf(),
            final(self).from() == old(self).from(),
            final(self)@ == old(self)@.named(),
            id == old(self)@.next_oid,
    {
        let id: u64 = self.next_oid;
        self.next_oid = id.wrapping_add(1);
        id
    }

    pub(crate) fn send(&mut self, kind: EventType, side: Side, price: u64, qty: u64, order_id: u64)
        requires
            old(self).wf(),
            old(self)@.seq < u64::MAX,
        ensures
            final(self).wf(),
            final(self).from() == old(self).from(),
            final(self)@ == old(self)@.sent(kind, side, price, qty, order_id),
    {
        self.out.push(mk(self.seq, self.ts, kind, side, price, qty, order_id));
        self.seq = self.seq + 1;
    }

    pub(crate) fn send_fresh(&mut self, kind: EventType, side: Side, price: u64, qty: u64)
        requires
            old(self).wf(),
            old(self)@.seq < u64::MAX,
        ensures
            final(self).wf(),
            final(self).from() == old(self).from(),
            final(self)@ == old(self)@.sent_fresh(kind, side, price, qty),
    {
        self.send(kind, side, price, qty, self.next_oid);
        self.next_oid = self.next_oid.wrapping_add(1);
    }

    /// Where the random source stands.
    pub(crate) fn source(&self) -> (s: u64)
        ensures
            s == self@.rng,
    {
        self.rng.state()
    }

    /// The order id that comes next.
    pub(crate) fn next_id(&self) -> (id: u64)
        ensures
            id == self@.next_oid,
    {
        self.next_oid
    }

    /// Takes the tape out.
    pub(crate) fn finish(self) -> (out: Vec<SequencedEvent>)
        requires
            self.wf(),
        ensures
            out@ == self@.out,
            numbered(out@, self.from(), self@.seq),
    {
        self.out
    }
}

// ─── Laws ───────────────────────────────────────────────────────────

/// The event reads so.
pub open spec fn reads(x: SequencedEvent, kind: u8, side: u8, price: int, qty: int, id: u64, ts: u64) -> bool {
    &&& x.event.event_type == kind
    &&& x.event.side == side
    &&& x.event.price == price
    &&& x.event.qty == qty
    &&& x.event.order_id == id
    &&& x.event.ts == ts
}

/// An event is written behind the others, with the next number, the time of the tape and
/// an id that no event before it had; the number and the id are used up by it, and time
/// passes only where it is let pass.
pub proof fn tapes_write_on(t: TapeModel, kind: EventType, side: Side, price: u64, qty: u64, dt: u64)
    requires
        0 <= t.seq < u64::MAX,
        t.next_oid < u64::MAX,
    ensures
        ({
            let n = t.sent_fresh(kind, side, price, qty);
            let x = n.out.last();
            &&& n.out.len() == t.out.len() + 1
            &&& n.out.drop_last() == t.out
            &&& x.seq == t.seq
            &&& x.channel_id == 0
            &&& x.event.instrument_id == 1
            &&& x.event.price == price && x.event.qty == qty && x.event.ts == t.ts && x.event.order_id == t.next_oid
            &&& kind == EventType::OrderAdd ==> x.event.event_type == 1
            &&& kind == EventType::OrderCancel ==> x.event.event_type == 2
            &&& kind == EventType::Trade ==> x.event.event_type == 4
            &&& side == Side::Bid ==> x.event.side == 0
            &&& side == Side::Ask ==> x.event.side == 1
            &&& n.seq == t.seq + 1
            &&& n.next_oid == t.next_oid + 1
            &&& n.ts == t.ts
            &&& n.rng == t.rng
        }),
        t.ts + dt <= u64::MAX ==> t.later(dt).ts == t.ts + dt,
        t.later(dt).out == t.out && t.later(dt).seq == t.seq && t.later(dt).next_oid == t.next_oid,
        t.drawn().out == t.out && t.drawn().seq == t.seq && t.drawn().next_oid == t.next_oid && t.drawn().ts == t.ts,
{
    assert(t.sent_fresh(kind, side, price, qty).out.drop_last() =~= t.out);
}

/// A coin falls on each side for half of all values, and bids lie below, asks above.
pub proof fn coins_are_fair(t: TapeModel, base: u64, off: u64)
    ensures
        t.coin() == Side::Bid <==> 2 * t.peek() < 0x1_0000_0000_0000_0000,
        base >= off ==> away(Side::Bid, base, off) + off == base,
        base < off ==> away(Side::Bid, base, off) == 0,
        base + off <= u64::MAX ==> away(Side::Ask, base, off) == base + off,
        base + off > u64::MAX ==> away(Side::Ask, base, off) == u64::MAX,
{
}

} // verus!
