//! Quote stuffing and spoofing.

use crate::book::event::{EventType, SequencedEvent};
#[allow(unused_imports)]
use crate::book::event;
use crate::book::types::SeqNum;
use crate::chaos::flag::{ChaosEvent, ChaosFeatures, ChaosKind, Severity};
#[allow(unused_imports)]
use crate::chaos::flag;
use crate::ratio::{cross, Fraction, Ratio};
#[allow(unused_imports)]
use crate::ratio;
use vstd::prelude::*;

verus! {

/// The event changes the tape in a way that quote stuffing is measured by.
pub open spec fn is_quote(t: u8) -> bool {
    t == event::event_code(EventType::OrderAdd) || t == event::event_code(EventType::OrderCancel)
        || t == event::event_code(EventType::Trade)
}

/// How many entries are of one type.
pub open spec fn count_type(w: Seq<(SeqNum, u8)>, t: u8) -> nat
    decreases w.len(),
{
    if w.len() == 0 {
        0
    } else {
        count_type(w.drop_last(), t) + if w.last().1 == t {
            1nat
        } else {
            0
        }
    }
}

proof fn lemma_count_bound(w: Seq<(SeqNum, u8)>, t: u8)
    ensures
        count_type(w, t) <= w.len(),
    decreases w.len(),
{
    if w.len() > 0 {
        lemma_count_bound(w.drop_last(), t);
    }
}

/// The window after one more entry.
pub open spec fn quote_window(w: Seq<(SeqNum, u8)>, size: nat, x: (SeqNum, u8)) -> Seq<(SeqNum, u8)> {
    if w.len() >= size {
        w.remove(0).push(x)
    } else {
        w.push(x)
    }
}

/// Trades of a window, at least one.
pub open spec fn trades_of(w: Seq<(SeqNum, u8)>) -> nat {
    let n = count_type(w, event::event_code(EventType::Trade));
    if n == 0 {
        1
    } else {
        n
    }
}

/// The flag that a window raises: cancels per trade at or above the threshold,
/// with the window at least half full.
pub open spec fn quote_flag(w: Seq<(SeqNum, u8)>, size: nat, threshold: Ratio) -> Option<ChaosEvent> {
    let cancels = count_type(w, event::event_code(EventType::OrderCancel));
    let trades = trades_of(w);
    if ratio::at_least(cancels, trades, threshold) && w.len() >= size / 2 {
        Some(
            ChaosEvent {
                kind: ChaosKind::QuoteStuff,
                start_seq: w[0].0,
                end_seq: w.last().0,
                severity: flag::single_of(cancels * threshold.den as nat, trades * threshold.num as nat * 2),
                initiator: None,
                features: ChaosFeatures {
                    event_count: w.len() as u64,
                    duration_ns: 0,
                    cancel_trade_ratio: Fraction { num: cancels as u128, den: trades as u128 },
                    price_displacement: 0,
                    depth_removed: 0,
                },
            },
        )
    } else {
        None
    }
}

/// One event: the window after it and the flag it raises.
pub open spec fn quote_step(
    w: Seq<(SeqNum, u8)>,
    size: nat,
    threshold: Ratio,
    e: SequencedEvent,
) -> (Seq<(SeqNum, u8)>, Option<ChaosEvent>) {
    if is_quote(e.event.event_type) {
        let n = quote_window(w, size, (e.seq, e.event.event_type));
        (n, quote_flag(n, size, threshold))
    } else {
        (w, None)
    }
}

/// Cancels against trades over a rolling window of events.
#[derive(Debug)]
pub struct QuoteStuffDetector {
    window: Vec<(SeqNum, u8)>,
    window_size: usize,
    cancel_ratio_threshold: Ratio,
}

impl QuoteStuffDetector {
    /// Sequence number and type of the events in the window, oldest first.
    pub closed spec fn entries(&self) -> Seq<(SeqNum, u8)> {
        self.window@
    }

    /// How many events the window holds at most.
    pub closed spec fn size(&self) -> nat {
        self.window_size as nat
    }

    /// Cancels per trade that count as stuffing.
    pub closed spec fn threshold(&self) -> Ratio {
        self.cancel_ratio_threshold
    }

    /// The window holds something and never more than its size.
    pub closed spec fn wf(&self) -> bool {
        &&& self.window_size > 0
        &&& self.window@.len() <= self.window_size
        &&& self.cancel_ratio_threshold.wf()
    }

    /// A detector over the last `window_size` quotes.
    pub fn new(window_size: usize, cancel_ratio_threshold: Ratio) -> (d: Self)
        requires
            window_size > 0,
            cancel_ratio_threshold.wf(),
        ensures
            d.wf(),
            d.size() == window_size,
            d.threshold() == cancel_ratio_threshold,
            d.entries() == Seq::<(SeqNum, u8)>::empty(),
    {
        QuoteStuffDetector {
            window: Vec::with_capacity(window_size),
            window_size,
            cancel_ratio_threshold,
        }
    }

    /// Feeds one event; all but adds, cancels and trades are ignored.
    pub fn process(&mut self, seq_event: &SequencedEvent) -> (r: Option<ChaosEvent>)
        requires
            old(self).wf(),
        ensures
            final(self).wf(),
            final(self).size() == old(self).size(),
            final(self).threshold() == old(self).threshold(),
            (final(self).entries(), r) == quote_step(
                old(self).entries(),
                old(self).size(),
                old(self).threshold(),
                *seq_event,
            ),
    {
        let etype: u8 = seq_event.event.event_type;
        if etype != EventType::OrderAdd.code() && etype != EventType::OrderCancel.code() && etype
            != EventType::Trade.code() {
            return None;
        }
        if self.window.len() >= self.window_size {
            self.window.remove(0);
        }
        self.window.push((seq_event.seq, etype));
        let cancels: u64 = self.count(EventType::OrderCancel.code());
        let mut trades: u64 = self.count(EventType::Trade.code());
        if trades == 0 {
            trades = 1;
        }
        let limit: Ratio = self.cancel_ratio_threshold;
        if limit.is_reached_by(cancels, trades) && self.window.len() >= self.window_size / 2 {
            proof {
                let (t, n) = (trades as int, limit.num as int);
                assert(t * n * 2 <= 0xffff_ffff_ffff_ffff * 0xffff_ffff * 2) by (nonlinear_arith)
                    requires
                        0 <= t <= 0xffff_ffff_ffff_ffff,
                        0 <= n <= 0xffff_ffff,
                ;
            }
            let severity: Severity = Severity::single(
                cross(cancels, limit.den as u64),
                cross(trades, limit.num as u64) * 2,
            );
            Some(
                ChaosEvent {
                    kind: ChaosKind::QuoteStuff,
                    start_seq: self.window[0].0,
                    end_seq: seq_event.seq,
                    severity,
                    initiator: None,
                    features: ChaosFeatures {
                        event_count: self.window.len() as u64,
                        duration_ns: 0,
                        cancel_trade_ratio: Fraction { num: cancels as u128, den: trades as u128 },
                        price_displacement: 0,
                        depth_removed: 0,
                    },
                },
            )
        } else {
            None
        }
    }

    fn count(&self, t: u8) -> (n: u64)
        ensures
            n == count_type(self.window@, t),
    {
        let mut n: u64 = 0;
        let mut i: usize = 0;
        assert(self.window@.take(0) =~= Seq::<(SeqNum, u8)>::empty());
        while i < self.window.len()
            invariant
                i <= self.window@.len(),
                n <= i,
                n == count_type(self.window@.take(i as int), t),
            decreases self.window@.len() - i,
        {
            assert(self.window@.take(i + 1).drop_last() =~= self.window@.take(i as int));
            if self.window[i].1 == t {
                n += 1;
            }
            i += 1;
        }
        assert(self.window@.take(i as int) =~= self.window@);
        n
    }
}

/// A window without a cancel never flags, unless the threshold is zero.
pub proof fn no_stuffing_without_cancels(w: Seq<(SeqNum, u8)>, size: nat, threshold: Ratio)
    requires
        threshold.num > 0,
        count_type(w, event::event_code(EventType::OrderCancel)) == 0,
    ensures
        quote_flag(w, size, threshold) is None,
{
    let (t, n) = (trades_of(w) as int, threshold.num as int);
    assert(n * t > 0) by (nonlinear_arith)
        requires
            n > 0,
            t > 0,
    ;
}

// ─── Spoofing ───────────────────────────────────────────────────────

/// A large order: when it was added, its ID, its quantity.
pub type LargeOrder = (SeqNum, u64, u64);

/// The entries added less than `span` before `now`.
pub open spec fn fresh(s: Seq<LargeOrder>, now: SeqNum, span: nat) -> Seq<LargeOrder>
    decreases s.len(),
{
    if s.len() == 0 {
        Seq::empty()
    } else {
        let kept = fresh(s.drop_last(), now, span);
        if now - s.last().0 < span {
            kept.push(s.last())
        } else {
            kept
        }
    }
}

/// The place of the first entry of order `id`, the length where there is none.
pub open spec fn first_of(s: Seq<LargeOrder>, id: u64) -> nat
    decreases s.len(),
{
    if s.len() == 0 {
        0
    } else if first_of(s.drop_last(), id) < s.len() - 1 {
        first_of(s.drop_last(), id)
    } else if s.last().1 == id {
        (s.len() - 1) as nat
    } else {
        s.len()
    }
}

/// No entry is from the future.
pub open spec fn all_before(s: Seq<LargeOrder>, now: SeqNum) -> bool {
    forall|i: int| 0 <= i < s.len() ==> (#[trigger] s[i]).0 <= now
}

/// One event: large adds are remembered and old ones forgotten; a cancel of a
/// remembered order forgets it, and flags it if it came soon.
pub open spec fn spoof_step(
    s: Seq<LargeOrder>,
    e: SequencedEvent,
    large: u64,
    window: u64,
) -> (Seq<LargeOrder>, Option<ChaosEvent>) {
    if e.event.event_type == event::event_code(EventType::OrderAdd) && e.event.qty >= large {
        (fresh(s.push((e.seq, e.event.order_id, e.event.qty)), e.seq, (window * 2) as nat), None)
    } else if e.event.event_type == event::event_code(EventType::OrderCancel) && first_of(
        s,
        e.event.order_id,
    ) < s.len() {
        let at = first_of(s, e.event.order_id) as int;
        (
            s.remove(at),
            if e.seq - s[at].0 <= window {
                Some(spoof_flag(s[at], e, large))
            } else {
                None
            },
        )
    } else {
        (s, None)
    }
}

/// The flag of a large order pulled soon: five times the threshold is the most
/// severe.
pub open spec fn spoof_flag(o: LargeOrder, e: SequencedEvent, large: u64) -> ChaosEvent {
    ChaosEvent {
        kind: ChaosKind::Spoof,
        start_seq: o.0,
        end_seq: e.seq,
        severity: flag::single_of(o.2 as nat, (large * 5) as nat),
        initiator: Some(e.event.order_id),
        features: ChaosFeatures {
            event_count: 2,
            duration_ns: 0,
            cancel_trade_ratio: Fraction { num: 0, den: 1 },
            price_displacement: 0,
            depth_removed: o.2,
        },
    }
}

/// Large orders that are pulled soon after they are placed.
#[derive(Debug)]
pub struct SpoofDetector {
    large_orders: Vec<LargeOrder>,
    large_qty_threshold: u64,
    cancel_window: u64,
}

impl SpoofDetector {
    /// The large orders remembered, oldest first.
    pub closed spec fn remembered(&self) -> Seq<LargeOrder> {
        self.large_orders@
    }

    /// From what quantity on an order is large.
    pub closed spec fn large(&self) -> u64 {
        self.large_qty_threshold
    }

    /// Within how many sequence numbers a cancel is suspicious.
    pub closed spec fn window(&self) -> u64 {
        self.cancel_window
    }

    /// Twice the window still is a number.
    pub closed spec fn wf(&self) -> bool {
        self.cancel_window * 2 <= u64::MAX
    }

    /// A detector of large orders pulled within `cancel_window`.
    pub fn new(large_qty_threshold: u64, cancel_window: u64) -> (d: Self)
        requires
            cancel_window * 2 <= u64::MAX,
        ensures
            d.wf(),
            d.large() == large_qty_threshold,
            d.window() == cancel_window,
            d.remembered() == Seq::<LargeOrder>::empty(),
    {
        SpoofDetector { large_orders: Vec::new(), large_qty_threshold, cancel_window }
    }

    /// Whether an event comes after all that is remembered.
    pub fn is_ready(&self, seq_event: &SequencedEvent) -> (b: bool)
        ensures
            b == all_before(self.remembered(), seq_event.seq),
    {
        let mut i: usize = 0;
        while i < self.large_orders.len()
            invariant
                i <= self.large_orders@.len(),
                forall|k: int| 0 <= k < i ==> (#[trigger] self.large_orders@[k]).0 <= seq_event.seq,
            decreases self.large_orders@.len() - i,
        {
            if self.large_orders[i].0 > seq_event.seq {
                return false;
            }
            i += 1;
        }
        true
    }

    /// Feeds one event. Sequence numbers do not go back.
    pub fn process(&mut self, seq_event: &SequencedEvent) -> (r: Option<ChaosEvent>)
        requires
            old(self).wf(),
            all_before(old(self).remembered(), seq_event.seq),
        ensures
            final(self).wf(),
            final(self).large() == old(self).large(),
            final(self).window() == old(self).window(),
            all_before(final(self).remembered(), seq_event.seq),
            (final(self).remembered(), r) == spoof_step(
                old(self).remembered(),
                *seq_event,
                old(self).large(),
                old(self).window(),
            ),
    {
        let e = &seq_event.event;
        if e.event_type == EventType::OrderAdd.code() && e.qty >= self.large_qty_threshold {
            self.large_orders.push((seq_event.seq, e.order_id, e.qty));
            self.prune(seq_event.seq);
            None
        } else if e.event_type == EventType::OrderCancel.code() {
            let at: usize = self.position(e.order_id);
            if at < self.large_orders.len() {
                let o: LargeOrder = self.large_orders[at];
                self.large_orders.remove(at);
                assert forall|i: int| 0 <= i < self.large_orders@.len() implies (#[trigger] self.large_orders@[i]).0
                    <= seq_event.seq by {
                    let j = if i < at { i } else { i + 1 };
                    assert(self.large_orders@[i] == old(self).large_orders@[j]);
                }
                if seq_event.seq - o.0 <= self.cancel_window {
                    return Some(
                        ChaosEvent {
                            kind: ChaosKind::Spoof,
                            start_seq: o.0,
                            end_seq: seq_event.seq,
                            severity: Severity::single(
                                o.2 as u128,
                                self.large_qty_threshold as u128 * 5,
                            ),
                            initiator: Some(e.order_id),
                            features: ChaosFeatures {
                                event_count: 2,
                                duration_ns: 0,
                                cancel_trade_ratio: Fraction { num: 0, den: 1 },
                                price_displacement: 0,
                                depth_removed: o.2,
                            },
                        },
                    );
                }
            }
            None
        } else {
            None
        }
    }

    /// Forgets the orders that are too old to matter.
    fn prune(&mut self, now: u64)
        requires
            old(self).wf(),
            all_before(old(self).large_orders@, now),
        ensures
            final(self).wf(),
            final(self).large() == old(self).large(),
            final(self).window() == old(self).window(),
            all_before(final(self).large_orders@, now),
            final(self).large_orders@ == fresh(
                old(self).large_orders@,
                now,
                (old(self).cancel_window * 2) as nat,
            ),
    {
        let span: u64 = self.cancel_window * 2;
        let mut kept: Vec<LargeOrder> = Vec::new();
        let mut i: usize = 0;
        let ghost s = self.large_orders@;
        assert(s.take(0) =~= Seq::<LargeOrder>::empty());
        while i < self.large_orders.len()
            invariant
                s == self.large_orders@,
                i <= s.len(),
                all_before(s, now),
                all_before(kept@, now),
                kept@ == fresh(s.take(i as int), now, span as nat),
            decreases s.len() - i,
        {
            let o: LargeOrder = self.large_orders[i];
            assert(s.take(i + 1).drop_last() =~= s.take(i as int));
            assert(s[i as int].0 <= now);
            if now - o.0 < span {
                kept.push(o);
            }
            i += 1;
        }
        assert(s.take(i as int) =~= s);
        self.large_orders = kept;
    }

    /// The place of the first large order with this ID, the length without one.
    fn position(&self, id: u64) -> (at: usize)
        ensures
            at == first_of(self.large_orders@, id),
            at <= self.large_orders@.len(),
    {
        let ghost s = self.large_orders@;
        let mut at: usize = 0;
        let mut found: bool = false;
        let mut i: usize = 0;
        while i < self.large_orders.len()
            invariant
                s == self.large_orders@,
                i <= s.len(),
                first_of(s.take(i as int), id) == (if found { at } else { i }),
                found ==> at < i,
            decreases s.len() - i,
        {
            assert(s.take(i + 1).drop_last() =~= s.take(i as int));
            if !found && self.large_orders[i].1 == id {
                at = i;
                found = true;
            }
            i += 1;
        }
        assert(s.take(i as int) =~= s);
        if found {
            at
        } else {
            i
        }
    }
}

proof fn lemma_first_of(s: Seq<LargeOrder>, id: u64)
    ensures
        first_of(s, id) <= s.len(),
        first_of(s, id) < s.len() ==> s[first_of(s, id) as int].1 == id,
        forall|i: int| 0 <= i < first_of(s, id) ==> (#[trigger] s[i]).1 != id,
    decreases s.len(),
{
    if s.len() > 0 {
        lemma_first_of(s.drop_last(), id);
        assert forall|i: int| 0 <= i < first_of(s, id) implies (#[trigger] s[i]).1 != id by {
            if i < s.len() - 1 {
                assert(s.drop_last()[i] == s[i]);
            }
        }
    }
}

/// A spoof flag comes from a cancel, names an order that was remembered and
/// placed within the window, and the order is remembered no longer.
pub proof fn spoof_flags_a_large_recent_order(
    s: Seq<LargeOrder>,
    e: SequencedEvent,
    large: u64,
    window: u64,
)
    requires
        spoof_step(s, e, large, window).1 is Some,
    ensures
        e.event.event_type == event::event_code(EventType::OrderCancel),
        spoof_step(s, e, large, window).0.len() == s.len() - 1,
        exists|i: int|
            0 <= i < s.len() && (#[trigger] s[i]).1 == e.event.order_id && e.seq - s[i].0 <= window
                && spoof_step(s, e, large, window).1->0.start_seq == s[i].0,
{
    lemma_first_of(s, e.event.order_id);
    let at = first_of(s, e.event.order_id) as int;
    assert(s[at].1 == e.event.order_id);
}

/// What is remembered after a stream.
pub open spec fn spoof_run(es: Seq<SequencedEvent>, large: u64, window: u64) -> Seq<LargeOrder>
    decreases es.len(),
{
    if es.len() == 0 {
        Seq::empty()
    } else {
        spoof_step(spoof_run(es.drop_last(), large, window), es.last(), large, window).0
    }
}

/// Sequence numbers never fall.
pub open spec fn seqs_in_order(es: Seq<SequencedEvent>) -> bool {
    forall|i: int, j: int| 0 <= i <= j < es.len() ==> (#[trigger] es[i]).seq <= (#[trigger] es[j]).seq
}

/// The event adds an order under this ID.
pub open spec fn adds_order(e: SequencedEvent, id: u64) -> bool {
    e.event.event_type == event::event_code(EventType::OrderAdd) && e.event.order_id == id
}

/// The event cancels under this ID.
pub open spec fn cancels_order(e: SequencedEvent, id: u64) -> bool {
    e.event.event_type == event::event_code(EventType::OrderCancel) && e.event.order_id == id
}

/// The entry at `i` is the only one of order `id`.
spec fn only_at(s: Seq<LargeOrder>, i: int, id: u64) -> bool {
    &&& 0 <= i < s.len()
    &&& s[i].1 == id
    &&& forall|j: int| 0 <= j < s.len() && j != i ==> (#[trigger] s[j]).1 != id
}

/// No entry is of order `id`.
spec fn none_of(s: Seq<LargeOrder>, id: u64) -> bool {
    forall|j: int| 0 <= j < s.len() ==> (#[trigger] s[j]).1 != id
}

/// Pruning keeps what is young enough, and brings nothing.
proof fn lemma_fresh(s: Seq<LargeOrder>, now: SeqNum, span: nat, id: u64)
    ensures
        fresh(s, now, span).len() <= s.len(),
        none_of(s, id) ==> none_of(fresh(s, now, span), id),
        forall|x: LargeOrder| #[trigger]
            fresh(s, now, span).contains(x) ==> s.contains(x) && now - x.0 < span,
        forall|i: int|
            #![trigger s[i]]
            only_at(s, i, id) && now - s[i].0 < span ==> exists|k: int|
                only_at(fresh(s, now, span), k, id) && fresh(s, now, span)[k] == s[i],
    decreases s.len(),
{
    if s.len() > 0 {
        let d = s.drop_last();
        let r = fresh(s, now, span);
        let q = fresh(d, now, span);
        lemma_fresh(d, now, span, id);
        assert forall|x: LargeOrder| #[trigger] r.contains(x) implies s.contains(x) && now - x.0 < span by {
            let k = choose|k: int| 0 <= k < r.len() && r[k] == x;
            if k < q.len() {
                assert(q[k] == x);
                assert(q.contains(x));
                let j = choose|j: int| 0 <= j < d.len() && d[j] == x;
                assert(s[j] == x);
            } else {
                assert(s[s.len() - 1] == x);
            }
        }
        if none_of(s, id) {
            assert forall|j: int| 0 <= j < d.len() implies (#[trigger] d[j]).1 != id by {
                assert(d[j] == s[j]);
            }
            assert(s[s.len() - 1].1 != id);
        }
        assert forall|i: int|
            #![trigger s[i]]
            only_at(s, i, id) && now - s[i].0 < span implies exists|k: int|
            only_at(r, k, id) && r[k] == s[i] by {
            if i < d.len() {
                assert(d[i] == s[i]);
                assert forall|j: int| 0 <= j < d.len() && j != i implies (#[trigger] d[j]).1 != id by {
                    assert(d[j] == s[j]);
                }
                assert(only_at(d, i, id));
                let k = choose|k: int| only_at(q, k, id) && q[k] == d[i];
                assert(s[s.len() - 1].1 != id);
                assert(only_at(r, k, id) && r[k] == s[i]);
            } else {
                assert forall|j: int| 0 <= j < d.len() implies (#[trigger] d[j]).1 != id by {
                    assert(d[j] == s[j]);
                }
                assert(none_of(d, id));
                assert(only_at(r, r.len() - 1, id));
            }
        }
    }
}

/// What is remembered was added by the stream.
proof fn lemma_remembered_was_added(es: Seq<SequencedEvent>, large: u64, window: u64, x: LargeOrder) -> (i: int)
    requires
        spoof_run(es, large, window).contains(x),
    ensures
        0 <= i < es.len(),
        adds_order(es[i], x.1),
        es[i].seq == x.0,
        es[i].event.qty == x.2,
        x.2 >= large,
    decreases es.len(),
{
    let d = es.drop_last();
    let s = spoof_run(d, large, window);
    let e = es.last();
    let r = spoof_run(es, large, window);
    if s.contains(x) {
        lemma_remembered_was_added(d, large, window, x)
    } else {
        if adds_order(e, e.event.order_id) && e.event.qty >= large {
            let p = s.push((e.seq, e.event.order_id, e.event.qty));
            lemma_fresh(p, e.seq, (window * 2) as nat, 0);
            assert(p.contains(x));
            let k = choose|k: int| 0 <= k < p.len() && p[k] == x;
            if k < s.len() {
                assert(s[k] == x);
            }
        } else {
            let k = choose|k: int| 0 <= k < r.len() && r[k] == x;
            let at = first_of(s, e.event.order_id) as int;
            lemma_first_of(s, e.event.order_id);
            let j = if r.len() < s.len() && k >= at {
                k + 1
            } else {
                k
            };
            assert(s[j] == x);
        }
        es.len() - 1
    }
}

/// An ID that no event added is not remembered.
proof fn lemma_unknown_is_not_remembered(es: Seq<SequencedEvent>, large: u64, window: u64, id: u64)
    requires
        forall|j: int| 0 <= j < es.len() ==> !adds_order(#[trigger] es[j], id),
    ensures
        none_of(spoof_run(es, large, window), id),
{
    let s = spoof_run(es, large, window);
    assert forall|j: int| 0 <= j < s.len() implies (#[trigger] s[j]).1 != id by {
        if s[j].1 == id {
            assert(s.contains(s[j]));
            let i = lemma_remembered_was_added(es, large, window, s[j]);
            assert(adds_order(es[i], id));
        }
    }
}

/// One event that neither adds nor cancels the order leaves it remembered, while it
/// is young.
proof fn lemma_step_keeps(s: Seq<LargeOrder>, e: SequencedEvent, large: u64, window: u64, id: u64, i: int) -> (k: int)
    requires
        only_at(s, i, id),
        !adds_order(e, id),
        !cancels_order(e, id),
        e.seq - s[i].0 < window * 2,
    ensures
        only_at(spoof_step(s, e, large, window).0, k, id),
        spoof_step(s, e, large, window).0[k] == s[i],
{
    let r = spoof_step(s, e, large, window).0;
    if adds_order(e, e.event.order_id) && e.event.qty >= large {
        let p = s.push((e.seq, e.event.order_id, e.event.qty));
        assert(p[i] == s[i]);
        assert(only_at(p, i, id));
        lemma_fresh(p, e.seq, (window * 2) as nat, id);
        choose|k: int| only_at(r, k, id) && r[k] == p[i]
    } else if cancels_order(e, e.event.order_id) && first_of(s, e.event.order_id) < s.len() {
        lemma_first_of(s, e.event.order_id);
        let at = first_of(s, e.event.order_id) as int;
        assert(at != i);
        let k = if i < at {
            i
        } else {
            i - 1
        };
        assert(r[k] == s[i]);
        assert forall|j: int| 0 <= j < r.len() && j != k implies (#[trigger] r[j]).1 != id by {
            let o = if j < at {
                j
            } else {
                j + 1
            };
            assert(r[j] == s[o]);
        }
        k
    } else {
        i
    }
}

/// A large order that is neither cancelled nor added again stays remembered while it
/// is young, whatever else comes.
proof fn lemma_large_is_remembered(es: Seq<SequencedEvent>, large: u64, window: u64, a: int) -> (k: int)
    requires
        0 <= a < es.len(),
        window >= 1,
        adds_order(es[a], es[a].event.order_id),
        es[a].event.qty >= large,
        seqs_in_order(es),
        es.last().seq - es[a].seq < window * 2,
        forall|j: int| 0 <= j < es.len() && j != a ==> !adds_order(#[trigger] es[j], es[a].event.order_id),
        forall|j: int| a < j < es.len() ==> !cancels_order(#[trigger] es[j], es[a].event.order_id),
    ensures
        only_at(spoof_run(es, large, window), k, es[a].event.order_id),
        spoof_run(es, large, window)[k] == (es[a].seq, es[a].event.order_id, es[a].event.qty),
    decreases es.len(),
{
    let d = es.drop_last();
    let s = spoof_run(d, large, window);
    let e = es[es.len() - 1];
    let id = es[a].event.order_id;
    assert forall|j: int| 0 <= j < d.len() && j != a implies !adds_order(#[trigger] d[j], id) by {
        assert(d[j] == es[j]);
    }
    if a == es.len() - 1 {
        lemma_unknown_is_not_remembered(d, large, window, id);
        let p = s.push((e.seq, id, e.event.qty));
        let i = s.len() as int;
        assert(only_at(p, i, id));
        lemma_fresh(p, e.seq, (window * 2) as nat, id);
        assert(e.seq - p[i].0 < (window * 2) as nat);
        let r = spoof_run(es, large, window);
        choose|k: int| only_at(r, k, id) && r[k] == p[i]
    } else {
        assert(d[a] == es[a]);
        assert(seqs_in_order(d)) by {
            assert forall|i: int, j: int| 0 <= i <= j < d.len() implies (#[trigger] d[i]).seq <= (#[trigger] d[j]).seq by {
                assert(d[i] == es[i] && d[j] == es[j]);
            }
        }
        assert(d.last() == es[es.len() - 2]);
        assert(es[es.len() - 2].seq <= es[es.len() - 1].seq);
        assert forall|j: int| a < j < d.len() implies !cancels_order(#[trigger] d[j], id) by {
            assert(d[j] == es[j]);
        }
        let i = lemma_large_is_remembered(d, large, window, a);
        lemma_step_keeps(s, e, large, window, id, i)
    }
}

/// A large order that is pulled soon is always flagged, whatever adds and cancels of
/// other orders lie between, and one that is pulled late never is. The order was added
/// once, with at least the large quantity, and not cancelled since; the flag starts at
/// the add, ends at the cancel, names the order and tells its quantity.
pub proof fn large_orders_pulled_soon_are_flagged(
    es: Seq<SequencedEvent>,
    a: int,
    c: SequencedEvent,
    large: u64,
    window: u64,
)
    requires
        window >= 1,
        0 <= a < es.len(),
        seqs_in_order(es.push(c)),
        adds_order(es[a], c.event.order_id),
        es[a].event.qty >= large,
        cancels_order(c, c.event.order_id),
        forall|j: int| 0 <= j < es.len() && j != a ==> !adds_order(#[trigger] es[j], c.event.order_id),
        forall|j: int| a < j < es.len() ==> !cancels_order(#[trigger] es[j], c.event.order_id),
    ensures
        c.seq - es[a].seq <= window <==> spoof_step(spoof_run(es, large, window), c, large, window).1 is Some,
        spoof_step(spoof_run(es, large, window), c, large, window).1 matches Some(f) ==> {
            &&& f.kind == ChaosKind::Spoof
            &&& f.start_seq == es[a].seq
            &&& f.end_seq == c.seq
            &&& f.initiator == Some(c.event.order_id)
            &&& f.features.event_count == 2
            &&& f.features.depth_removed == es[a].event.qty
            &&& f.features.price_displacement == 0
        },
{
    let s = spoof_run(es, large, window);
    let id = c.event.order_id;
    let all = es.push(c);
    assert(seqs_in_order(es)) by {
        assert forall|i: int, j: int| 0 <= i <= j < es.len() implies (#[trigger] es[i]).seq <= (#[trigger] es[j]).seq by {
            assert(all[i] == es[i] && all[j] == es[j]);
        }
    }
    assert(all[es.len() - 1].seq <= all[es.len() as int].seq);
    lemma_first_of(s, id);
    let at = first_of(s, id) as int;
    if c.seq - es[a].seq <= window {
        let k = lemma_large_is_remembered(es, large, window, a);
        if at > k {
            assert(s[k].1 != id);
        }
        assert(at == k);
    } else if at < s.len() {
        assert(s.contains(s[at]));
        let i = lemma_remembered_was_added(es, large, window, s[at]);
        assert(i == a);
    }
}

/// A flag is always earned: it comes on a cancel of an order that the stream added
/// with at least the large quantity, no further back than the window.
pub proof fn spoof_flags_are_earned(es: Seq<SequencedEvent>, c: SequencedEvent, large: u64, window: u64)
    requires
        spoof_step(spoof_run(es, large, window), c, large, window).1 is Some,
    ensures
        cancels_order(c, c.event.order_id),
        exists|a: int|
            0 <= a < es.len() && adds_order(#[trigger] es[a], c.event.order_id) && es[a].event.qty >= large
                && c.seq - es[a].seq <= window && es[a].seq == spoof_step(
                spoof_run(es, large, window),
                c,
                large,
                window,
            ).1->0.start_seq,
{
    let s = spoof_run(es, large, window);
    lemma_first_of(s, c.event.order_id);
    let at = first_of(s, c.event.order_id) as int;
    assert(s.contains(s[at]));
    let a = lemma_remembered_was_added(es, large, window, s[at]);
    assert(adds_order(es[a], c.event.order_id));
}

/// A pulled order is pulled once: a second cancel of it flags nothing, unless it was
/// added again.
pub proof fn spoof_flags_once(es: Seq<SequencedEvent>, b: int, c: SequencedEvent, large: u64, window: u64)
    requires
        0 <= b < es.len(),
        cancels_order(es[b], c.event.order_id),
        cancels_order(c, c.event.order_id),
        forall|i: int, j: int|
            #![trigger es[i], es[j]]
            0 <= i < es.len() && 0 <= j < es.len() && adds_order(es[i], c.event.order_id) && adds_order(
                es[j],
                c.event.order_id,
            ) ==> i == j && i < b,
    ensures
        spoof_step(spoof_run(es, large, window), c, large, window).1 is None,
{
    let s = spoof_run(es, large, window);
    lemma_pulled_is_forgotten(es, b, c.event.order_id, large, window);
    lemma_first_of(s, c.event.order_id);
    let at = first_of(s, c.event.order_id) as int;
    if at < s.len() {
        assert(s[at].1 != c.event.order_id);
    }
}

proof fn lemma_pulled_is_forgotten(es: Seq<SequencedEvent>, b: int, id: u64, large: u64, window: u64)
    requires
        0 <= b < es.len(),
        cancels_order(es[b], id),
        forall|i: int, j: int|
            #![trigger es[i], es[j]]
            0 <= i < es.len() && 0 <= j < es.len() && adds_order(es[i], id) && adds_order(es[j], id) ==> i == j
                && i < b,
    ensures
        none_of(spoof_run(es, large, window), id),
    decreases es.len(),
{
    let d = es.drop_last();
    let s = spoof_run(d, large, window);
    let e = es[es.len() - 1];
    let r = spoof_run(es, large, window);
    assert forall|i: int, j: int|
        #![trigger d[i], d[j]]
        0 <= i < d.len() && 0 <= j < d.len() && adds_order(d[i], id) && adds_order(d[j], id) implies i == j
        && i < b by {
        assert(d[i] == es[i] && d[j] == es[j]);
    }
    if b < es.len() - 1 {
        assert(d[b] == es[b]);
        lemma_pulled_is_forgotten(d, b, id, large, window);
        if adds_order(e, id) {
            assert(es[es.len() - 1] == e);
        }
        if adds_order(e, e.event.order_id) && e.event.qty >= large {
            let p = s.push((e.seq, e.event.order_id, e.event.qty));
            lemma_fresh(p, e.seq, (window * 2) as nat, id);
        } else {
            assert forall|j: int| 0 <= j < r.len() implies (#[trigger] r[j]).1 != id by {
                let at = first_of(s, e.event.order_id) as int;
                lemma_first_of(s, e.event.order_id);
                let o = if r.len() < s.len() && j >= at {
                    j + 1
                } else {
                    j
                };
                assert(r[j] == s[o]);
            }
        }
    } else {
        lemma_at_most_once(d, id, large, window);
        lemma_first_of(s, id);
        let at = first_of(s, id) as int;
        assert forall|j: int| 0 <= j < r.len() implies (#[trigger] r[j]).1 != id by {
            if at < s.len() {
                let o = if j < at {
                    j
                } else {
                    j + 1
                };
                assert(r[j] == s[o] && o != at);
                assert(s[at].1 == id);
            } else {
                assert(r[j] == s[j]);
            }
        }
    }
}

proof fn lemma_at_most_once(es: Seq<SequencedEvent>, id: u64, large: u64, window: u64)
    requires
        forall|i: int, j: int|
            #![trigger es[i], es[j]]
            0 <= i < es.len() && 0 <= j < es.len() && adds_order(es[i], id) && adds_order(es[j], id) ==> i == j,
    ensures
        none_of(spoof_run(es, large, window), id) || exists|i: int| only_at(spoof_run(es, large, window), i, id),
    decreases es.len(),
{
    if es.len() > 0 {
        let d = es.drop_last();
        let s = spoof_run(d, large, window);
        let e = es[es.len() - 1];
        let r = spoof_run(es, large, window);
        assert forall|i: int, j: int|
            #![trigger d[i], d[j]]
            0 <= i < d.len() && 0 <= j < d.len() && adds_order(d[i], id) && adds_order(d[j], id) implies i == j by {
            assert(d[i] == es[i] && d[j] == es[j]);
        }
        lemma_at_most_once(d, id, large, window);
        if adds_order(e, id) {
            assert forall|j: int| 0 <= j < d.len() implies !adds_order(#[trigger] d[j], id) by {
                assert(d[j] == es[j]);
                assert(es[es.len() - 1] == e);
            }
            lemma_unknown_is_not_remembered(d, large, window, id);
        }
        if adds_order(e, e.event.order_id) && e.event.qty >= large {
            let p = s.push((e.seq, e.event.order_id, e.event.qty));
            lemma_fresh(p, e.seq, (window * 2) as nat, id);
            if none_of(s, id) {
                if e.event.order_id == id {
                    assert(only_at(p, s.len() as int, id));
                    lemma_fresh_at_most_once(p, e.seq, (window * 2) as nat, id, s.len() as int);
                } else {
                    assert(none_of(p, id));
                }
            } else {
                let i = choose|i: int| only_at(s, i, id);
                assert(p[i] == s[i]);
                assert(only_at(p, i, id));
                lemma_fresh_at_most_once(p, e.seq, (window * 2) as nat, id, i);
            }
        } else if cancels_order(e, e.event.order_id) && first_of(s, e.event.order_id) < s.len() {
            lemma_first_of(s, e.event.order_id);
            let at = first_of(s, e.event.order_id) as int;
            if none_of(s, id) {
                assert forall|j: int| 0 <= j < r.len() implies (#[trigger] r[j]).1 != id by {
                    assert(r[j] == s[if j < at { j } else { j + 1 }]);
                }
            } else {
                let i = choose|i: int| only_at(s, i, id);
                if at == i {
                    assert forall|j: int| 0 <= j < r.len() implies (#[trigger] r[j]).1 != id by {
                        assert(r[j] == s[if j < at { j } else { j + 1 }]);
                    }
                } else {
                    let k = if i < at { i } else { i - 1 };
                    assert(r[k] == s[i]);
                    assert forall|j: int| 0 <= j < r.len() && j != k implies (#[trigger] r[j]).1 != id by {
                        assert(r[j] == s[if j < at { j } else { j + 1 }]);
                    }
                    assert(only_at(r, k, id));
                }
            }
        }
    }
}

proof fn lemma_fresh_at_most_once(s: Seq<LargeOrder>, now: SeqNum, span: nat, id: u64, i: int)
    requires
        only_at(s, i, id),
    ensures
        none_of(fresh(s, now, span), id) || exists|k: int| only_at(fresh(s, now, span), k, id),
{
    lemma_fresh(s, now, span, id);
    let r = fresh(s, now, span);
    if now - s[i].0 < span {
        let k = choose|k: int| only_at(r, k, id) && r[k] == s[i];
        assert(only_at(r, k, id));
    } else {
        assert forall|j: int| 0 <= j < r.len() implies (#[trigger] r[j]).1 != id by {
            assert(r.contains(r[j]));
            let k = choose|k: int| 0 <= k < s.len() && s[k] == r[j];
            assert(k != i);
        }
    }
}

// ─── What a quote window holds ──────────────────────────────────────

/// The window of the detector after a stream.
pub open spec fn quote_run(es: Seq<SequencedEvent>, size: nat, threshold: Ratio) -> Seq<(SeqNum, u8)>
    decreases es.len(),
{
    if es.len() == 0 {
        Seq::empty()
    } else {
        quote_step(quote_run(es.drop_last(), size, threshold), size, threshold, es.last()).0
    }
}

/// The adds, cancels and trades of a stream, by sequence number and type.
pub open spec fn quotes_of(es: Seq<SequencedEvent>) -> Seq<(SeqNum, u8)>
    decreases es.len(),
{
    if es.len() == 0 {
        Seq::empty()
    } else {
        let t = es.last().event.event_type;
        let before = quotes_of(es.drop_last());
        if t == event::event_code(EventType::OrderAdd) || t == event::event_code(EventType::OrderCancel) || t
            == event::event_code(EventType::Trade) {
            before.push((es.last().seq, t))
        } else {
            before
        }
    }
}

/// The window holds the latest adds, cancels and trades, as many as it has room for,
/// and nothing else.
pub proof fn quote_window_holds_the_latest(es: Seq<SequencedEvent>, size: nat, threshold: Ratio)
    requires
        size > 0,
    ensures
        ({
            let w = quote_run(es, size, threshold);
            let q = quotes_of(es);
            &&& w.len() == (if q.len() <= size { q.len() } else { size })
            &&& forall|i: int|
                #![trigger w[i]]
                0 <= i < w.len() ==> w[i] == q[q.len() - w.len() + i]
        }),
    decreases es.len(),
{
    if es.len() > 0 {
        quote_window_holds_the_latest(es.drop_last(), size, threshold);
        let v = quote_run(es.drop_last(), size, threshold);
        let w = quote_run(es, size, threshold);
        let p = quotes_of(es.drop_last());
        let q = quotes_of(es);
        assert forall|i: int|
            #![trigger w[i]]
            0 <= i < w.len() implies w[i] == q[q.len() - w.len() + i] by {
            if q.len() > p.len() && i < w.len() - 1 {
                if v.len() >= size {
                    assert(w[i] == v[i + 1]);
                } else {
                    assert(w[i] == v[i]);
                }
            } else if q.len() == p.len() {
                assert(w[i] == v[i]);
            }
        }
    }
}

/// Entries of one type are counted one by one.
pub proof fn types_are_counted(w: Seq<(SeqNum, u8)>, x: (SeqNum, u8), t: u8)
    ensures
        count_type(Seq::empty(), t) == 0,
        x.1 == t ==> count_type(w.push(x), t) == count_type(w, t) + 1,
        x.1 != t ==> count_type(w.push(x), t) == count_type(w, t),
{
    assert(w.push(x).drop_last() =~= w);
}

/// Stuffing is flagged exactly where the window is at least half full and its cancels
/// are at least the threshold times its trades, a window without trades counting as
/// one trade. The flag spans the window and tells the two counts.
pub proof fn stuffing_is_cancels_against_trades(
    w: Seq<(SeqNum, u8)>,
    size: nat,
    threshold: Ratio,
    e: SequencedEvent,
)
    requires
        size > 0,
        threshold.den > 0,
        e.event.event_type == event::event_code(EventType::OrderAdd) || e.event.event_type == event::event_code(
            EventType::OrderCancel,
        ) || e.event.event_type == event::event_code(EventType::Trade),
        w.len() <= size,
        size <= u64::MAX,
    ensures
        ({
            let (n, r) = quote_step(w, size, threshold, e);
            let cancels = count_type(n, event::event_code(EventType::OrderCancel)) as int;
            let found = count_type(n, event::event_code(EventType::Trade)) as int;
            let trades = if found == 0 { 1int } else { found };
            &&& r is Some <==> 2 * n.len() + 1 >= size && cancels * threshold.den >= threshold.num * trades
            &&& r matches Some(f) ==> {
                &&& f.kind == ChaosKind::QuoteStuff
                &&& f.start_seq == n[0].0
                &&& f.end_seq == e.seq
                &&& f.initiator is None
                &&& f.features.event_count == n.len()
                &&& f.features.cancel_trade_ratio.num == cancels
                &&& f.features.cancel_trade_ratio.den == trades
            }
        }),
{
    let n = quote_step(w, size, threshold, e).0;
    lemma_count_bound(n, event::event_code(EventType::OrderCancel));
    lemma_count_bound(n, event::event_code(EventType::Trade));
}

/// What a flag of stuffing tells besides: nothing of time, price or depth, and a severity
/// that is full at twice the cancels per trade that are asked for.
pub proof fn stuffing_flags_tell_how_much(w: Seq<(SeqNum, u8)>, size: nat, threshold: Ratio, e: SequencedEvent)
    requires
        size > 0,
        w.len() <= size <= u32::MAX,
    ensures
        ({
            let (n, r) = quote_step(w, size, threshold, e);
            let cancels = count_type(n, event::event_code(EventType::OrderCancel)) as int;
            let found = count_type(n, event::event_code(EventType::Trade)) as int;
            let trades = if found == 0 { 1int } else { found };
            r matches Some(f) ==> {
                &&& f.features.duration_ns == 0
                &&& f.features.price_displacement == 0
                &&& f.features.depth_removed == 0
                &&& flag::is_part(f.severity.first, 10, cancels * threshold.den, 2 * (threshold.num * trades))
                &&& f.severity.second.num == 0
                &&& f.severity.third.num == 0
            }
        }),
{
    let n = quote_step(w, size, threshold, e).0;
    if is_quote(e.event.event_type) {
        let cancels = count_type(n, event::event_code(EventType::OrderCancel));
        let found = count_type(n, event::event_code(EventType::Trade));
        lemma_count_bound(n, event::event_code(EventType::Trade));
        lemma_count_bound(n, event::event_code(EventType::OrderCancel));
        assert(n.len() <= size);
        let (t, a, b) = (trades_of(n), threshold.num as nat, threshold.den as nat);
        assert(t * a * 2 == 2 * (a * t) && 0 <= t * a * 2 <= u128::MAX) by (nonlinear_arith)
            requires
                0 <= t <= u32::MAX + 1,
                0 <= a <= u64::MAX,
        ;
        flag::parts_are_capped(10, cancels * b, t * a * 2);
    }
}

/// What a flag of a pulled order tells: the order, two events from where it was placed to
/// where it was pulled, its quantity, and a severity that is full at five times the
/// threshold.
pub proof fn spoof_flags_tell_the_order(s: Seq<LargeOrder>, e: SequencedEvent, large: u64, window: u64) -> (i: int)
    requires
        spoof_step(s, e, large, window).1 is Some,
    ensures
        0 <= i < s.len(),
        s[i].1 == e.event.order_id,
        ({
            let f = spoof_step(s, e, large, window).1->0;
            &&& f.kind == ChaosKind::Spoof
            &&& f.start_seq == s[i].0
            &&& f.end_seq == e.seq
            &&& f.initiator == Some(e.event.order_id)
            &&& f.features.event_count == 2
            &&& f.features.duration_ns == 0
            &&& f.features.cancel_trade_ratio.num == 0
            &&& f.features.price_displacement == 0
            &&& f.features.depth_removed == s[i].2
            &&& flag::is_part(f.severity.first, 10, s[i].2 as int, 5 * large)
            &&& f.severity.second.num == 0
            &&& f.severity.third.num == 0
        }),
{
    lemma_first_of(s, e.event.order_id);
    let i = first_of(s, e.event.order_id) as int;
    flag::parts_are_capped(10, s[i].2 as nat, (large * 5) as nat);
    i
}

} // verus!
