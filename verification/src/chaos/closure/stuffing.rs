//! Quote stuffing.

use crate::book::event::{EventType, SequencedEvent, Side};
#[allow(unused_imports)]
use crate::book::event;
use crate::book::types::SeqNum;
#[allow(unused_imports)]
use crate::chaos::closure;
#[allow(unused_imports)]
use crate::chaos::detection;
use crate::chaos::flag::{ChaosEvent, ChaosKind};
#[allow(unused_imports)]
use crate::chaos::generators::{quote_stuff, tape};
use crate::chaos::generators::tape::TapeModel;
use crate::ratio::Ratio;
use vstd::prelude::*;

verus! {

/// Stuffing detection.
pub open spec fn stuff_detector(size: nat, threshold: Ratio) -> spec_fn(
    Seq<(SeqNum, u8)>,
    SequencedEvent,
) -> (Seq<(SeqNum, u8)>, Option<ChaosEvent>) {
    |w: Seq<(SeqNum, u8)>, e: SequencedEvent| detection::quote_step(w, size, threshold, e)
}

/// What a window holds of a stream that fits.
pub open spec fn entries_of(s: Seq<SequencedEvent>) -> Seq<(SeqNum, u8)> {
    s.map_values(|e: SequencedEvent| (e.seq, e.event.event_type))
}

/// Every event counts.
pub open spec fn all_quotes(s: Seq<SequencedEvent>) -> bool {
    forall|i: int| 0 <= i < s.len() ==> detection::is_quote((#[trigger] s[i]).event.event_type)
}

proof fn lemma_window_fills(size: nat, threshold: Ratio, s: Seq<SequencedEvent>)
    requires
        s.len() <= size,
        all_quotes(s),
    ensures
        closure::watched(stuff_detector(size, threshold), Seq::empty(), s).0 == entries_of(s),
    decreases s.len(),
{
    if s.len() > 0 {
        lemma_window_fills(size, threshold, s.drop_last());
        assert(entries_of(s) =~= entries_of(s.drop_last()).push((s.last().seq, s.last().event.event_type)));
        assert(detection::is_quote(s[s.len() - 1].event.event_type));
    } else {
        assert(entries_of(s) =~= Seq::empty());
    }
}

/// How many events of a type a tape holds.
pub open spec fn on_tape(t: TapeModel, kind: EventType) -> nat {
    detection::count_type(entries_of(t.out), event::event_code(kind))
}

proof fn lemma_sent_counts(t: TapeModel, kind: EventType, side: Side, price: u64, qty: u64, of: EventType)
    requires
        all_quotes(t.out),
        kind is OrderAdd || kind is OrderCancel || kind is Trade,
    ensures
        ({
            let u = t.sent_fresh(kind, side, price, qty);
            &&& u.out.len() == t.out.len() + 1
            &&& u.out.drop_last() == t.out
            &&& all_quotes(u.out)
            &&& on_tape(u, of) == on_tape(t, of) + (if kind == of {
                1nat
            } else {
                0
            })
        }),
{
    let u = t.sent_fresh(kind, side, price, qty);
    assert(u.out.drop_last() =~= t.out);
    assert(entries_of(u.out).drop_last() =~= entries_of(t.out));
    assert(entries_of(u.out).last().1 == event::event_code(kind));
}

proof fn lemma_cancels_count(m: quote_stuff::StuffModel, t: TapeModel, side: Side, n: nat)
    requires
        all_quotes(t.out),
    ensures
        ({
            let u = quote_stuff::stuff_cancels(m, t, side, n);
            &&& all_quotes(u.out)
            &&& u.out.len() == t.out.len() + n
            &&& u.out.take(t.out.len() as int) == t.out
            &&& on_tape(u, EventType::OrderCancel) == on_tape(t, EventType::OrderCancel) + n
            &&& on_tape(u, EventType::Trade) == on_tape(t, EventType::Trade)
        }),
    decreases n,
{
    if n > 0 {
        lemma_cancels_count(m, t, side, (n - 1) as nat);
        let u = quote_stuff::stuff_cancels(m, t, side, (n - 1) as nat);
        let price = tape::away(side, m.base_price, (1 + u.peek() % 4) as u64);
        lemma_sent_counts(u.drawn(), EventType::OrderCancel, side, price, 100, EventType::OrderCancel);
        lemma_sent_counts(u.drawn(), EventType::OrderCancel, side, price, 100, EventType::Trade);
        let v = quote_stuff::stuff_cancels(m, t, side, n);
        assert(v.out.take(t.out.len() as int) =~= u.out.take(t.out.len() as int));
    } else {
        assert(t.out.take(t.out.len() as int) =~= t.out);
    }
}

proof fn lemma_rounds_count(m: quote_stuff::StuffModel, t: TapeModel, n: nat)
    requires
        t.out.len() == 0,
    ensures
        ({
            let u = quote_stuff::stuff_rounds(m, t, n);
            &&& all_quotes(u.out)
            &&& u.out.len() == n * (m.cancels_per_trade + 1)
            &&& on_tape(u, EventType::OrderCancel) == n * m.cancels_per_trade
            &&& on_tape(u, EventType::Trade) == n
        }),
    decreases n,
{
    let c = m.cancels_per_trade as int;
    if n > 0 {
        lemma_rounds_count(m, t, (n - 1) as nat);
        let u = quote_stuff::stuff_rounds(m, t, (n - 1) as nat);
        let side = quote_stuff::stuff_side(n - 1);
        let price = tape::away(side, m.base_price, 1);
        lemma_sent_counts(u, EventType::Trade, side, price, 100, EventType::OrderCancel);
        lemma_sent_counts(u, EventType::Trade, side, price, 100, EventType::Trade);
        let v = u.sent_fresh(EventType::Trade, side, price, 100).later(quote_stuff::stuff_pause(m));
        lemma_cancels_count(m, v, quote_stuff::facing(side), m.cancels_per_trade as nat);
        assert((n - 1) * (c + 1) + c + 1 == n * (c + 1)) by (nonlinear_arith);
        assert((n - 1) * c + c == n * c) by (nonlinear_arith);
    } else {
        assert(0 * (c + 1) == 0 && 0 * c == 0) by (nonlinear_arith);
        assert(entries_of(t.out) =~= Seq::empty());
    }
}

proof fn lemma_rounds_extend(m: quote_stuff::StuffModel, t: TapeModel, r: nat, n: nat)
    requires
        t.out.len() == 0,
        r <= n,
    ensures
        ({
            let a = quote_stuff::stuff_rounds(m, t, r).out;
            let b = quote_stuff::stuff_rounds(m, t, n).out;
            a.len() <= b.len() && b.take(a.len() as int) == a
        }),
    decreases n,
{
    let a = quote_stuff::stuff_rounds(m, t, r).out;
    if r < n {
        lemma_rounds_extend(m, t, r, (n - 1) as nat);
        lemma_rounds_count(m, t, (n - 1) as nat);
        let u = quote_stuff::stuff_rounds(m, t, (n - 1) as nat);
        let side = quote_stuff::stuff_side(n - 1);
        let price = tape::away(side, m.base_price, 1);
        lemma_sent_counts(u, EventType::Trade, side, price, 100, EventType::Trade);
        let v = u.sent_fresh(EventType::Trade, side, price, 100).later(quote_stuff::stuff_pause(m));
        lemma_cancels_count(m, v, quote_stuff::facing(side), m.cancels_per_trade as nat);
        let b = quote_stuff::stuff_rounds(m, t, n).out;
        assert(b.take(v.out.len() as int) == v.out);
        assert(b.take(a.len() as int) =~= v.out.take(a.len() as int));
        assert(v.out.take(a.len() as int) =~= u.out.take(a.len() as int));
    } else {
        assert(a.take(a.len() as int) =~= a);
    }
}

/// The burst of a stuffing generator reaches a window at least half full after
/// some whole rounds, before it is full.
proof fn lemma_rounds_fit(size: int, k: int) -> (r: nat)
    requires
        17 <= size <= 72,
        9 <= k <= 17,
    ensures
        1 <= r <= 4,
        size / 2 <= r * k <= size,
{
    let h = size / 2;
    let r: int = if k >= h {
        1
    } else if 2 * k >= h {
        2
    } else if 3 * k >= h {
        3
    } else {
        4
    };
    assert(r == 1 ==> r * k == k) by (nonlinear_arith);
    assert(r == 2 ==> r * k == 2 * k) by (nonlinear_arith);
    assert(r == 3 ==> r * k == 3 * k) by (nonlinear_arith);
    assert(r == 4 ==> r * k == 4 * k) by (nonlinear_arith);
    r as nat
}

/// Every burst of a stuffing generator is flagged by a detector that begins with
/// it: whatever the seed, the severity and the price, for windows of 17 to 72
/// events and up to eight cancels per trade.
pub proof fn stuffing_bursts_are_flagged(
    size: nat,
    threshold: Ratio,
    m: quote_stuff::StuffModel,
    t: TapeModel,
)
    requires
        17 <= size <= 72,
        threshold.wf(),
        threshold.num <= 8 * threshold.den,
        4 <= m.trades_per_step <= 6,
        8 <= m.cancels_per_trade <= 16,
        t.out.len() == 0,
    ensures
        closure::told(
            closure::watched(
                stuff_detector(size, threshold),
                Seq::empty(),
                quote_stuff::stuff_rounds(m, t, m.trades_per_step as nat).out,
            ).1,
            ChaosKind::QuoteStuff,
        ),
{
    let c = m.cancels_per_trade as int;
    let r = lemma_rounds_fit(size as int, c + 1);
    let d = stuff_detector(size, threshold);
    let whole = quote_stuff::stuff_rounds(m, t, m.trades_per_step as nat).out;
    let s = quote_stuff::stuff_rounds(m, t, r).out;
    lemma_rounds_count(m, t, r);
    lemma_rounds_extend(m, t, r, m.trades_per_step as nat);
    lemma_window_fills(size, threshold, s);
    lemma_window_fills(size, threshold, s.drop_last());
    assert(all_quotes(s.drop_last())) by {
        assert forall|i: int| 0 <= i < s.drop_last().len() implies detection::is_quote(
            (#[trigger] s.drop_last()[i]).event.event_type,
        ) by {
            assert(s.drop_last()[i] == s[i]);
        }
    }
    let w = entries_of(s);
    let cancels = detection::count_type(w, event::event_code(EventType::OrderCancel));
    let trades = detection::count_type(w, event::event_code(EventType::Trade));
    assert(cancels == r * c && trades == r);
    assert(cancels * threshold.den >= threshold.num * trades) by (nonlinear_arith)
        requires
            cancels == r * c,
            trades == r,
            c >= 8,
            r >= 1,
            threshold.num <= 8 * threshold.den,
    ;
    assert(0 < cancels * threshold.den <= 64 * 0xffff_ffff) by (nonlinear_arith)
        requires
            cancels == r * c,
            8 <= c <= 16,
            1 <= r <= 4,
            0 < threshold.den <= 0xffff_ffff,
    ;
    assert(detection::is_quote(s[s.len() - 1].event.event_type));
    assert(s.last() == s[s.len() - 1]);
    let last = d(closure::watched(d, Seq::empty(), s.drop_last()).0, s.last());
    assert(last.0 == w);
    assert(last.1 == detection::quote_flag(w, size, threshold));
    let fs = closure::watched(d, Seq::empty(), s).1;
    assert(closure::telling(fs[fs.len() - 1], ChaosKind::QuoteStuff));
    assert(closure::told(fs, ChaosKind::QuoteStuff));
    closure::lemma_told_early(d, Seq::empty(), whole, s.len() as int, ChaosKind::QuoteStuff);
}

} // verus!
