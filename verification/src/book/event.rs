//! The canonical event record: forty bytes, little-endian, no hidden padding.

use vstd::bytes::{u32_to_le_bytes, u64_to_le_bytes};
use vstd::prelude::*;

verus! {

/// One market event.
#[derive(Debug, Clone, Copy, PartialEq, Eq)]
pub struct Event {
    /// Nanosecond timestamp. Informational: ordering is by sequence number.
    pub ts: u64,
    /// Price in raw ticks.
    pub price: u64,
    /// Quantity in fixed-point units.
    pub qty: u64,
    /// Exchange order ID, 0 when the event names no order.
    pub order_id: u64,
    /// Instrument identifier.
    pub instrument_id: u32,
    /// Event type code, see [`EventType`].
    pub event_type: u8,
    /// Side code: 0 is bid, 1 is ask.
    pub side: u8,
    /// Fills the record up to forty bytes.
    pub _pad: [u8; 2],
}

/// What an event does to the book.
#[derive(Debug, Clone, Copy, PartialEq, Eq, Structural)]
pub enum EventType {
    OrderAdd,
    OrderCancel,
    OrderModify,
    Trade,
    BookSnapshot,
}

/// The wire code of an event type.
pub open spec fn event_code(t: EventType) -> u8 {
    match t {
        EventType::OrderAdd => 1,
        EventType::OrderCancel => 2,
        EventType::OrderModify => 3,
        EventType::Trade => 4,
        EventType::BookSnapshot => 5,
    }
}

impl EventType {
    /// Decodes a wire code; every code but 1 to 5 is unknown.
    pub fn from_u8(v: u8) -> (r: Option<Self>)
        ensures
            r is Some <==> 1 <= v <= 5,
            r matches Some(t) ==> event_code(t) == v,
    {
        match v {
            1 => Some(EventType::OrderAdd),
            2 => Some(EventType::OrderCancel),
            3 => Some(EventType::OrderModify),
            4 => Some(EventType::Trade),
            5 => Some(EventType::BookSnapshot),
            _ => None,
        }
    }

    /// The wire code.
    pub fn code(self) -> (c: u8)
        ensures
            c == event_code(self),
    {
        match self {
            EventType::OrderAdd => 1,
            EventType::OrderCancel => 2,
            EventType::OrderModify => 3,
            EventType::Trade => 4,
            EventType::BookSnapshot => 5,
        }
    }
}

/// Side of the book.
#[derive(Debug, Clone, Copy, PartialEq, Eq, Structural)]
pub enum Side {
    Bid,
    Ask,
}

/// The wire code of a side.
pub open spec fn side_code(s: Side) -> u8 {
    match s {
        Side::Bid => 0,
        Side::Ask => 1,
    }
}

impl Side {
    /// Decodes a wire code; every code but 0 and 1 is unknown.
    pub fn from_u8(v: u8) -> (r: Option<Self>)
        ensures
            r is Some <==> v <= 1,
            r matches Some(s) ==> side_code(s) == v,
    {
        match v {
            0 => Some(Side::Bid),
            1 => Some(Side::Ask),
            _ => None,
        }
    }

    /// The wire code.
    pub fn code(self) -> (c: u8)
        ensures
            c == side_code(self),
    {
        match self {
            Side::Bid => 0,
            Side::Ask => 1,
        }
    }
}

/// An event with its place in the global order.
#[derive(Debug, Clone, Copy)]
pub struct SequencedEvent {
    /// Global sequence number, the only source of ordering.
    pub seq: u64,
    /// Channel of a multi-feed source.
    pub channel_id: u32,
    /// The event itself.
    pub event: Event,
}

/// The forty bytes of an event: its fields in order, integers little-endian.
pub open spec fn event_layout(e: Event) -> Seq<u8> {
    vstd::bytes::spec_u64_to_le_bytes(e.ts) + vstd::bytes::spec_u64_to_le_bytes(e.price)
        + vstd::bytes::spec_u64_to_le_bytes(e.qty) + vstd::bytes::spec_u64_to_le_bytes(e.order_id)
        + vstd::bytes::spec_u32_to_le_bytes(e.instrument_id) + seq![
        e.event_type,
        e.side,
        e._pad[0],
        e._pad[1],
    ]
}

impl Event {
    /// The canonical bytes of the event.
    pub fn bytes(&self) -> (r: Vec<u8>)
        ensures
            r@ == event_layout(*self),
            r@.len() == 40,
    {
        let mut out: Vec<u8> = u64_to_le_bytes(self.ts);
        let mut part: Vec<u8> = u64_to_le_bytes(self.price);
        out.append(&mut part);
        part = u64_to_le_bytes(self.qty);
        out.append(&mut part);
        part = u64_to_le_bytes(self.order_id);
        out.append(&mut part);
        part = u32_to_le_bytes(self.instrument_id);
        out.append(&mut part);
        out.push(self.event_type);
        out.push(self.side);
        out.push(self._pad[0]);
        out.push(self._pad[1]);
        assert(out@ =~= event_layout(*self));
        out
    }
}

/// Two events with the same bytes are the same event.
pub proof fn event_layout_is_injective(a: Event, b: Event)
    requires
        event_layout(a) == event_layout(b),
    ensures
        a.ts == b.ts,
        a.price == b.price,
        a.qty == b.qty,
        a.order_id == b.order_id,
        a.instrument_id == b.instrument_id,
        a.event_type == b.event_type,
        a.side == b.side,
        a._pad@ == b._pad@,
{
    vstd::bytes::lemma_auto_spec_u64_to_from_le_bytes();
    vstd::bytes::lemma_auto_spec_u32_to_from_le_bytes();
    let la = event_layout(a);
    let lb = event_layout(b);
    assert(la.subrange(0, 8) =~= vstd::bytes::spec_u64_to_le_bytes(a.ts));
    assert(lb.subrange(0, 8) =~= vstd::bytes::spec_u64_to_le_bytes(b.ts));
    assert(la.subrange(8, 16) =~= vstd::bytes::spec_u64_to_le_bytes(a.price));
    assert(lb.subrange(8, 16) =~= vstd::bytes::spec_u64_to_le_bytes(b.price));
    assert(la.subrange(16, 24) =~= vstd::bytes::spec_u64_to_le_bytes(a.qty));
    assert(lb.subrange(16, 24) =~= vstd::bytes::spec_u64_to_le_bytes(b.qty));
    assert(la.subrange(24, 32) =~= vstd::bytes::spec_u64_to_le_bytes(a.order_id));
    assert(lb.subrange(24, 32) =~= vstd::bytes::spec_u64_to_le_bytes(b.order_id));
    assert(la.subrange(32, 36) =~= vstd::bytes::spec_u32_to_le_bytes(a.instrument_id));
    assert(lb.subrange(32, 36) =~= vstd::bytes::spec_u32_to_le_bytes(b.instrument_id));
    assert(la[36] == a.event_type && lb[36] == b.event_type);
    assert(la[37] == a.side && lb[37] == b.side);
    assert(la[38] == a._pad[0] && lb[38] == b._pad[0]);
    assert(la[39] == a._pad[1] && lb[39] == b._pad[1]);
    assert(a._pad@ =~= b._pad@);
}

// ─── Laws ───────────────────────────────────────────────────────────

/// The numbers of event types and sides on the wire.
pub proof fn codes_are_as_on_the_wire()
    ensures
        event_code(EventType::OrderAdd) == 1,
        event_code(EventType::OrderCancel) == 2,
        event_code(EventType::OrderModify) == 3,
        event_code(EventType::Trade) == 4,
        event_code(EventType::BookSnapshot) == 5,
        side_code(Side::Bid) == 0,
        side_code(Side::Ask) == 1,
{
}

} // verus!
