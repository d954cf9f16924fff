//! Replay state: the reference book and a running digest of what it was fed.

use crate::book::digest::xxh3;
use crate::book::event::SequencedEvent;
use crate::book::orderbook::OrderBook;
use crate::book::types::SeqNum;
#[allow(unused_imports)]
use crate::book::{digest, event, model, orderbook};
use vstd::bytes::u64_to_le_bytes;
use vstd::prelude::*;

verus! {

/// Why an event was refused.
#[derive(Debug, Clone, Copy, PartialEq, Eq, Structural)]
pub enum StateError {
    /// The event does not follow the last one.
    SequenceGap { expected: SeqNum, got: SeqNum },
}

/// Book, position and running digest of a replay.
#[derive(Debug)]
pub struct ReplayState {
    pub book: OrderBook,
    /// Last sequence number processed, `None` before the first event.
    pub last_seq: Option<SeqNum>,
    /// Running digest.
    pub state_hash: u64,
}

/// The fifty-six bytes digested for one event: the digest so far, the sequence
/// number, the event.
pub open spec fn step_layout(prev: u64, e: SequencedEvent) -> Seq<u8> {
    vstd::bytes::spec_u64_to_le_bytes(prev) + vstd::bytes::spec_u64_to_le_bytes(e.seq)
        + event::event_layout(e.event)
}

/// The bytes digested for one event.
pub fn step_bytes(prev: u64, e: &SequencedEvent) -> (r: Vec<u8>)
    ensures
        r@ == step_layout(prev, *e),
        r@.len() == 56,
{
    let mut out: Vec<u8> = u64_to_le_bytes(prev);
    let mut part: Vec<u8> = u64_to_le_bytes(e.seq);
    out.append(&mut part);
    part = e.event.bytes();
    out.append(&mut part);
    out
}

/// The sequence number that may come next is any for the first event, and the
/// successor of the last one after that.
pub open spec fn follows(last: Option<SeqNum>, seq: SeqNum) -> bool {
    match last {
        None => true,
        Some(l) => seq == l + 1,
    }
}

impl ReplayState {
    /// The book of the state is well formed.
    pub open spec fn wf(&self) -> bool {
        self.book.wf()
    }

    /// The state before any event.
    pub fn new(instrument_id: u32) -> (s: Self)
        ensures
            s.wf(),
            s.book@ == model::BookModel::empty(),
            s.book.instrument() == instrument_id,
            s.last_seq is None,
            s.state_hash == 0,
    {
        ReplayState { book: OrderBook::new(instrument_id), last_seq: None, state_hash: 0 }
    }

    /// Processes one event, or refuses it when it does not follow the last one.
    /// A refused event leaves the state as it was.
    pub fn process(&mut self, seq_event: &SequencedEvent) -> (r: Result<(), StateError>)
        requires
            old(self).wf(),
            old(self).last_seq matches Some(l) ==> l < u64::MAX,
            follows(old(self).last_seq, seq_event.seq) ==> orderbook::ref_fits(
                old(self).book@,
                seq_event.event,
            ),
        ensures
            final(self).wf(),
            final(self)@ == replay_step(old(self)@, *seq_event),
            r is Ok <==> follows(old(self).last_seq, seq_event.seq),
            r is Ok ==> {
                &&& final(self).book@ == orderbook::ref_apply(old(self).book@, seq_event.event).0
                &&& final(self).book.instrument() == old(self).book.instrument()
                &&& final(self).last_seq == Some(seq_event.seq)
                &&& final(self).state_hash == digest::xxh3_of(
                    step_layout(old(self).state_hash, *seq_event),
                )
            },
            r matches Err(e) ==> {
                &&& *final(self) == *old(self)
                &&& e == (StateError::SequenceGap {
                    expected: (old(self).last_seq->0 + 1) as u64,
                    got: seq_event.seq,
                })
            },
    {
        if let Some(last) = self.last_seq {
            let expected: u64 = last + 1;
            if seq_event.seq != expected {
                return Err(StateError::SequenceGap { expected, got: seq_event.seq });
            }
        }
        self.book.apply(&seq_event.event);
        self.last_seq = Some(seq_event.seq);
        let bytes: Vec<u8> = step_bytes(self.state_hash, seq_event);
        self.state_hash = xxh3(bytes.as_slice());
        Ok(())
    }

    /// The running digest.
    pub fn hash(&self) -> (h: u64)
        ensures
            h == self.state_hash,
    {
        self.state_hash
    }
}

/// What a replay observes of a state.
#[verifier::ext_equal]
pub struct ReplayModel {
    pub book: model::BookModel,
    pub last_seq: Option<SeqNum>,
    pub state_hash: u64,
}

/// One accepted event.
pub open spec fn replay_step(s: ReplayModel, e: SequencedEvent) -> ReplayModel {
    if follows(s.last_seq, e.seq) {
        ReplayModel {
            book: orderbook::ref_apply(s.book, e.event).0,
            last_seq: Some(e.seq),
            state_hash: digest::xxh3_of(step_layout(s.state_hash, e)),
        }
    } else {
        s
    }
}

/// A whole stream, refused events skipped.
pub open spec fn replay(s: ReplayModel, es: Seq<SequencedEvent>) -> ReplayModel
    decreases es.len(),
{
    if es.len() == 0 {
        s
    } else {
        replay_step(replay(s, es.drop_last()), es.last())
    }
}

/// A replay can be cut anywhere and resumed: the state after both parts is the
/// state after the whole.
pub proof fn replay_resumes(s: ReplayModel, a: Seq<SequencedEvent>, b: Seq<SequencedEvent>)
    ensures
        replay(s, a + b) == replay(replay(s, a), b),
    decreases b.len(),
{
    if b.len() == 0 {
        assert(a + b =~= a);
    } else {
        replay_resumes(s, a, b.drop_last());
        assert((a + b).drop_last() =~= a + b.drop_last());
        assert((a + b).last() == b.last());
    }
}

/// An event that does not follow the last one leaves the whole state alone,
/// and so does any run of them.
pub proof fn gaps_are_inert(s: ReplayModel, es: Seq<SequencedEvent>)
    requires
        forall|i: int| 0 <= i < es.len() ==> !follows(s.last_seq, (#[trigger] es[i]).seq),
    ensures
        replay(s, es) == s,
    decreases es.len(),
{
    if es.len() > 0 {
        assert forall|i: int| 0 <= i < es.drop_last().len() implies !follows(
            s.last_seq,
            (#[trigger] es.drop_last()[i]).seq,
        ) by {
            assert(es.drop_last()[i] == es[i]);
        }
        gaps_are_inert(s, es.drop_last());
    }
}

impl View for ReplayState {
    type V = ReplayModel;

    open spec fn view(&self) -> ReplayModel {
        ReplayModel {
            book: self.book@,
            last_seq: self.last_seq,
            state_hash: self.state_hash,
        }
    }
}

/// The events of a stream that follow each other, taken one by one.
pub open spec fn booked(b: model::BookModel, es: Seq<SequencedEvent>) -> model::BookModel
    decreases es.len(),
{
    if es.len() == 0 {
        b
    } else {
        orderbook::ref_apply(booked(b, es.drop_last()), es.last().event).0
    }
}

/// A stream without a gap is taken whole: every event reaches the book in its turn, the
/// last one is where the replay stands, and the digest goes through every one of them. The
/// first event may bear any number, and each after it the next.
pub proof fn gapless_streams_are_taken_whole(s: ReplayModel, es: Seq<SequencedEvent>)
    requires
        es.len() > 0,
        s.last_seq is None || es[0].seq == s.last_seq->0 + 1,
        forall|i: int| #![trigger es[i]] 0 < i < es.len() ==> es[i].seq == es[0].seq + i,
    ensures
        replay(s, es).book == booked(s.book, es),
        replay(s, es).last_seq == Some(es.last().seq),
        replay(s, es).state_hash == digest::xxh3_of(
            step_layout(replay(s, es.drop_last()).state_hash, es.last()),
        ),
    decreases es.len(),
{
    let d = es.drop_last();
    if d.len() > 0 {
        assert forall|i: int| #![trigger d[i]] 0 < i < d.len() implies d[i].seq == d[0].seq + i by {
            assert(d[i] == es[i]);
        }
        gapless_streams_are_taken_whole(s, d);
        assert(d.last() == es[es.len() - 2]);
        assert(es[es.len() - 1].seq == es[0].seq + (es.len() - 1));
    } else {
        assert(replay(s, d) == s);
        assert(booked(s.book, d) == s.book);
    }
}

/// An event that leaves a number out, repeats one or goes back changes nothing.
pub proof fn gaps_are_refused(s: ReplayModel, e: SequencedEvent)
    requires
        s.last_seq is Some,
    ensures
        e.seq != s.last_seq->0 + 1 ==> replay_step(s, e) == s,
        e.seq == s.last_seq->0 + 1 ==> replay_step(s, e).last_seq == Some(e.seq),
{
}

/// What is digested for an event tells the digest before, the number and every field of
/// the event: two steps that differ in any of these digest different bytes.
pub proof fn digested_bytes_tell_everything(h: u64, e: SequencedEvent, g: u64, f: SequencedEvent)
    requires
        step_layout(h, e) == step_layout(g, f),
    ensures
        h == g,
        e.seq == f.seq,
        e.event.ts == f.event.ts,
        e.event.price == f.event.price,
        e.event.qty == f.event.qty,
        e.event.order_id == f.event.order_id,
        e.event.instrument_id == f.event.instrument_id,
        e.event.event_type == f.event.event_type,
        e.event.side == f.event.side,
{
    let (a, b) = (step_layout(h, e), step_layout(g, f));
    vstd::bytes::lemma_auto_spec_u64_to_from_le_bytes();
    vstd::bytes::lemma_auto_spec_u32_to_from_le_bytes();
    let part = |s: Seq<u8>, i: int, n: int| s.subrange(i, i + n);
    assert(part(a, 0, 8) =~= vstd::bytes::spec_u64_to_le_bytes(h));
    assert(part(b, 0, 8) =~= vstd::bytes::spec_u64_to_le_bytes(g));
    assert(part(a, 8, 8) =~= vstd::bytes::spec_u64_to_le_bytes(e.seq));
    assert(part(b, 8, 8) =~= vstd::bytes::spec_u64_to_le_bytes(f.seq));
    assert(part(a, 16, 8) =~= vstd::bytes::spec_u64_to_le_bytes(e.event.ts));
    assert(part(b, 16, 8) =~= vstd::bytes::spec_u64_to_le_bytes(f.event.ts));
    assert(part(a, 24, 8) =~= vstd::bytes::spec_u64_to_le_bytes(e.event.price));
    assert(part(b, 24, 8) =~= vstd::bytes::spec_u64_to_le_bytes(f.event.price));
    assert(part(a, 32, 8) =~= vstd::bytes::spec_u64_to_le_bytes(e.event.qty));
    assert(part(b, 32, 8) =~= vstd::bytes::spec_u64_to_le_bytes(f.event.qty));
    assert(part(a, 40, 8) =~= vstd::bytes::spec_u64_to_le_bytes(e.event.order_id));
    assert(part(b, 40, 8) =~= vstd::bytes::spec_u64_to_le_bytes(f.event.order_id));
    assert(part(a, 48, 4) =~= vstd::bytes::spec_u32_to_le_bytes(e.event.instrument_id));
    assert(part(b, 48, 4) =~= vstd::bytes::spec_u32_to_le_bytes(f.event.instrument_id));
    assert(a[52] == e.event.event_type && b[52] == f.event.event_type);
    assert(a[53] == e.event.side && b[53] == f.event.side);
}

} // verus!
