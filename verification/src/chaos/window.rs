//! Stretches of stressed events.

use crate::book::types::SeqNum;
use crate::chaos::flag::{ChaosEvent, StressWindow};
use crate::flow::regime::Regime;
#[allow(unused_imports)]
use crate::flow::regime;
use vstd::prelude::*;

verus! {

/// One classified event with the flags it raised.
pub type Tagged = (SeqNum, Regime, Vec<ChaosEvent>);

/// What a window is.
#[verifier::ext_equal]
pub struct WindowModel {
    pub start_seq: SeqNum,
    pub end_seq: SeqNum,
    pub regime: Regime,
    pub events: Seq<ChaosEvent>,
}

impl View for StressWindow {
    type V = WindowModel;

    open spec fn view(&self) -> WindowModel {
        WindowModel {
            start_seq: self.start_seq,
            end_seq: self.end_seq,
            regime: self.regime,
            events: self.chaos_events@,
        }
    }
}

/// One regime is at least as bad as another.
pub open spec fn as_bad(a: Regime, b: Regime) -> bool {
    regime::regime_code(a) >= regime::regime_code(b)
}

/// Closed windows and the one still open.
pub struct Windows {
    pub closed: Seq<WindowModel>,
    pub open: Option<WindowModel>,
}

/// The windows with the open one closed.
pub open spec fn all_closed(w: Windows) -> Seq<WindowModel> {
    match w.open {
        Some(o) => w.closed.push(o),
        None => w.closed,
    }
}

/// One event: a stressed one goes on with the open window, if it is near
/// enough, or closes it and opens another; a calm one closes it.
pub open spec fn window_step(w: Windows, t: Tagged, min: Regime, gap: u64) -> Windows {
    if !as_bad(t.1, min) {
        Windows { closed: all_closed(w), open: None }
    } else if w.open is Some && t.0 - w.open->0.end_seq <= gap {
        let o = w.open->0;
        Windows {
            closed: w.closed,
            open: Some(
                WindowModel {
                    end_seq: t.0,
                    regime: if as_bad(t.1, o.regime) {
                        t.1
                    } else {
                        o.regime
                    },
                    events: o.events + t.2@,
                    ..o
                },
            ),
        }
    } else {
        Windows {
            closed: all_closed(w),
            open: Some(WindowModel { start_seq: t.0, end_seq: t.0, regime: t.1, events: t.2@ }),
        }
    }
}

/// All events in turn.
pub open spec fn windows_of(s: Seq<Tagged>, min: Regime, gap: u64) -> Windows
    decreases s.len(),
{
    if s.len() == 0 {
        Windows { closed: Seq::empty(), open: None }
    } else {
        window_step(windows_of(s.drop_last(), min, gap), s.last(), min, gap)
    }
}

/// No stressed event lies behind the window that is open when it comes.
pub open spec fn no_step_back(s: Seq<Tagged>, min: Regime, gap: u64) -> bool {
    forall|i: int|
        0 <= i < s.len() && as_bad((#[trigger] s[i]).1, min) && windows_of(s.take(i), min, gap).open is Some
            ==> windows_of(s.take(i), min, gap).open->0.end_seq <= s[i].0
}

/// Sequence numbers never go back.
pub open spec fn in_order(s: Seq<Tagged>) -> bool {
    forall|i: int, j: int| 0 <= i < j < s.len() ==> (#[trigger] s[i]).0 <= (#[trigger] s[j]).0
}

proof fn lemma_open_end(s: Seq<Tagged>, min: Regime, gap: u64)
    requires
        in_order(s),
    ensures
        windows_of(s, min, gap).open matches Some(o) ==> s.len() > 0 && o.start_seq <= o.end_seq && o.end_seq
            == s.last().0,
    decreases s.len(),
{
    if s.len() > 0 {
        let d = s.drop_last();
        assert forall|i: int, j: int| 0 <= i < j < d.len() implies (#[trigger] d[i]).0 <= (#[trigger] d[j]).0 by {
            assert(d[i] == s[i] && d[j] == s[j]);
        }
        lemma_open_end(d, min, gap);
        if d.len() > 0 {
            assert(d.last() == s[s.len() - 2]);
            assert(s[s.len() - 2].0 <= s[s.len() - 1].0);
        }
    }
}

/// Finds stretches of stressed events.
#[derive(Debug)]
pub struct WindowExtractor {
    min_regime: Regime,
    merge_gap: u64,
}

impl WindowExtractor {
    /// From which regime on an event is stressed.
    pub closed spec fn min(&self) -> Regime {
        self.min_regime
    }

    /// How far apart stressed events of one stretch may be.
    pub closed spec fn gap(&self) -> u64 {
        self.merge_gap
    }

    /// An extractor.
    pub fn new(min_regime: Regime, merge_gap: u64) -> (x: Self)
        ensures
            x.min() == min_regime,
            x.gap() == merge_gap,
    {
        WindowExtractor { min_regime, merge_gap }
    }

    /// The windows of classified events.
    pub fn extract(&self, tagged: &[Tagged]) -> (r: Vec<StressWindow>)
        requires
            no_step_back(tagged@, self.min(), self.gap()),
        ensures
            r@.len() == all_closed(windows_of(tagged@, self.min(), self.gap())).len(),
            forall|i: int|
                0 <= i < r@.len() ==> (#[trigger] r@[i])@ == all_closed(
                    windows_of(tagged@, self.min(), self.gap()),
                )[i],
    {
        let ghost s = tagged@;
        let mut windows: Vec<StressWindow> = Vec::new();
        let mut current: Option<StressWindow> = None;
        let mut i: usize = 0;
        assert(s.take(0) =~= Seq::<Tagged>::empty());
        while i < tagged.len()
            invariant
                s == tagged@,
                no_step_back(s, self.min_regime, self.merge_gap),
                i <= s.len(),
                ({
                    let w = windows_of(s.take(i as int), self.min_regime, self.merge_gap);
                    &&& windows@.len() == w.closed.len()
                    &&& forall|k: int| 0 <= k < windows@.len() ==> (#[trigger] windows@[k])@ == w.closed[k]
                    &&& current is Some <==> w.open is Some
                    &&& current matches Some(c) ==> c@ == w.open->0
                }),
            decreases s.len() - i,
        {
            proof {
                assert(s.take(i + 1).drop_last() =~= s.take(i as int));
                assert(s.take(i + 1).last() == s[i as int]);
                assert(s[i as int].0 == tagged@[i as int].0);
            }
            let seq: u64 = tagged[i].0;
            let regime: Regime = tagged[i].1;
            if regime.code() >= self.min_regime.code() {
                match current {
                    Some(mut c) => {
                        if seq - c.end_seq <= self.merge_gap {
                            c.end_seq = seq;
                            if regime.code() >= c.regime.code() {
                                c.regime = regime;
                            }
                            append_events(&mut c.chaos_events, &tagged[i].2);
                            current = Some(c);
                        } else {
                            windows.push(c);
                            current = Some(open_window(seq, regime, &tagged[i].2));
                        }
                    },
                    None => {
                        current = Some(open_window(seq, regime, &tagged[i].2));
                    },
                }
            } else {
                if let Some(c) = current {
                    windows.push(c);
                }
                current = None;
            }
            i += 1;
        }
        assert(s.take(i as int) =~= s);
        if let Some(c) = current {
            windows.push(c);
        }
        windows
    }
}

fn open_window(seq: u64, regime: Regime, events: &Vec<ChaosEvent>) -> (w: StressWindow)
    ensures
        w@ == (WindowModel { start_seq: seq, end_seq: seq, regime, events: events@ }),
{
    let mut copy: Vec<ChaosEvent> = Vec::new();
    append_events(&mut copy, events);
    assert(copy@ =~= events@);
    StressWindow { start_seq: seq, end_seq: seq, regime, chaos_events: copy }
}

fn append_events(to: &mut Vec<ChaosEvent>, from: &Vec<ChaosEvent>)
    ensures
        final(to)@ == old(to)@ + from@,
{
    let mut i: usize = 0;
    assert(to@ =~= old(to)@ + from@.take(0));
    while i < from.len()
        invariant
            i <= from@.len(),
            to@ == old(to)@ + from@.take(i as int),
        decreases from@.len() - i,
    {
        to.push(from[i]);
        i += 1;
        assert(to@ =~= old(to)@ + from@.take(i as int));
    }
    assert(from@.take(i as int) =~= from@);
}

// ─── Laws ───────────────────────────────────────────────────────────

/// A stream in order can always be cut into windows.
pub proof fn ordered_streams_never_step_back(s: Seq<Tagged>, min: Regime, gap: u64)
    requires
        in_order(s),
    ensures
        no_step_back(s, min, gap),
{
    assert forall|i: int|
        0 <= i < s.len() && as_bad((#[trigger] s[i]).1, min) && windows_of(
            s.take(i),
            min,
            gap,
        ).open is Some implies windows_of(s.take(i), min, gap).open->0.end_seq <= s[i].0 by {
        let t = s.take(i);
        assert forall|a: int, b: int| 0 <= a < b < t.len() implies (#[trigger] t[a]).0 <= (#[trigger] t[b]).0 by {
            assert(s[a].0 <= s[b].0);
        }
        lemma_open_end(t, min, gap);
        assert(t.last() == s[i - 1]);
    }
}

/// Windows are ordered, do not overlap, and none runs backwards.
pub open spec fn ordered_windows(ws: Seq<WindowModel>) -> bool {
    &&& forall|i: int| 0 <= i < ws.len() ==> (#[trigger] ws[i]).start_seq <= ws[i].end_seq
    &&& forall|i: int, j: int|
        0 <= i < j < ws.len() ==> (#[trigger] ws[i]).end_seq <= (#[trigger] ws[j]).start_seq
}

/// The windows of a stream come in order and share at most an end point.
pub proof fn windows_do_not_overlap(s: Seq<Tagged>, min: Regime, gap: u64)
    requires
        in_order(s),
    ensures
        ordered_windows(all_closed(windows_of(s, min, gap))),
        forall|i: int|
            0 <= i < windows_of(s, min, gap).closed.len() ==> (#[trigger] windows_of(s, min, gap).closed[i]).end_seq
                <= s.last().0,
    decreases s.len(),
{
    if s.len() > 0 {
        let d = s.drop_last();
        assert forall|i: int, j: int| 0 <= i < j < d.len() implies (#[trigger] d[i]).0 <= (#[trigger] d[j]).0 by {
            assert(d[i] == s[i] && d[j] == s[j]);
        }
        windows_do_not_overlap(d, min, gap);
        lemma_open_end(d, min, gap);
        lemma_open_end(s, min, gap);
        let w = windows_of(d, min, gap);
        let n = windows_of(s, min, gap);
        if d.len() > 0 {
            assert(d.last() == s[s.len() - 2]);
            assert(s[s.len() - 2].0 <= s[s.len() - 1].0);
        }
        let a = all_closed(w);
        let b = all_closed(n);
        assert(s.last() == s[s.len() - 1]);
        assert forall|i: int| 0 <= i < n.closed.len() implies (#[trigger] n.closed[i]).end_seq <= s.last().0 by {
            if i < w.closed.len() {
                assert(n.closed[i] == w.closed[i]);
            }
        }
        assert forall|i: int| 0 <= i < b.len() implies (#[trigger] b[i]).start_seq <= b[i].end_seq by {
            if i < a.len() {
                assert(a[i].start_seq <= a[i].end_seq);
            }
        }
        assert forall|i: int, j: int| 0 <= i < j < b.len() implies (#[trigger] b[i]).end_seq <= (#[trigger] b[j]).start_seq by {
            assert(a[i] == b[i] || i >= a.len() || n.closed == w.closed);
            if j < a.len() {
                assert(a[i].end_seq <= a[j].start_seq);
            }
            if i < w.closed.len() {
                assert(b[i] == w.closed[i]);
            }
        }
    }
}

/// Every window is as bad as asked for.
pub proof fn windows_are_stressed(s: Seq<Tagged>, min: Regime, gap: u64)
    ensures
        forall|i: int|
            0 <= i < all_closed(windows_of(s, min, gap)).len() ==> as_bad(
                (#[trigger] all_closed(windows_of(s, min, gap))[i]).regime,
                min,
            ),
    decreases s.len(),
{
    if s.len() > 0 {
        windows_are_stressed(s.drop_last(), min, gap);
        let w = windows_of(s.drop_last(), min, gap);
        let a = all_closed(w);
        let b = all_closed(windows_of(s, min, gap));
        assert forall|i: int| 0 <= i < b.len() implies as_bad((#[trigger] b[i]).regime, min) by {
            if i < a.len() {
                assert(as_bad(a[i].regime, min));
            }
        }
    }
}

/// The event is at least as bad as asked for.
pub open spec fn stressed(t: Tagged, min: Regime) -> bool {
    regime::regime_code(t.1) >= regime::regime_code(min)
}

/// The flags of the stressed events, in order of the events.
pub open spec fn stressed_flags(s: Seq<Tagged>, min: Regime) -> Seq<ChaosEvent>
    decreases s.len(),
{
    if s.len() == 0 {
        Seq::empty()
    } else if stressed(s.last(), min) {
        stressed_flags(s.drop_last(), min) + s.last().2@
    } else {
        stressed_flags(s.drop_last(), min)
    }
}

/// The flags of some windows, one window after the other.
pub open spec fn window_flags(ws: Seq<WindowModel>) -> Seq<ChaosEvent>
    decreases ws.len(),
{
    if ws.len() == 0 {
        Seq::empty()
    } else {
        window_flags(ws.drop_last()) + ws.last().events
    }
}

/// No flag is lost or made up: the flags of all windows, one window after the other,
/// are the flags of all stressed events, in order of the events.
pub proof fn windows_keep_every_flag(s: Seq<Tagged>, min: Regime, gap: u64)
    ensures
        window_flags(all_closed(windows_of(s, min, gap))) == stressed_flags(s, min),
    decreases s.len(),
{
    if s.len() > 0 {
        let d = s.drop_last();
        let t = s.last();
        windows_keep_every_flag(d, min, gap);
        let w = windows_of(d, min, gap);
        let n = windows_of(s, min, gap);
        let a = all_closed(w);
        let b = all_closed(n);
        if !stressed(t, min) {
            assert(b == a);
        } else if w.open is Some && t.0 - w.open->0.end_seq <= gap {
            assert(a.drop_last() =~= w.closed);
            assert(b.drop_last() =~= w.closed);
            assert(window_flags(b) =~= window_flags(a) + t.2@);
        } else {
            assert(b.drop_last() =~= a);
        }
    }
}

/// A window is the stretch of events from `lo` to `hi`: all of them stressed and each
/// near enough to the one before, from the first to the last of them, as bad as the
/// worst, with all their flags; and it goes no further either way.
pub open spec fn is_stretch(s: Seq<Tagged>, min: Regime, gap: u64, w: WindowModel, lo: int, hi: int) -> bool {
    &&& is_run(s, min, gap, w, lo, hi)
    &&& lo > 0 ==> !stressed(s[lo - 1], min) || s[lo].0 - s[lo - 1].0 > gap
    &&& hi + 1 < s.len() ==> !stressed(s[hi + 1], min) || s[hi + 1].0 - s[hi].0 > gap
}

/// A window is a run of stressed events from `lo` to `hi`.
pub open spec fn is_run(s: Seq<Tagged>, min: Regime, gap: u64, w: WindowModel, lo: int, hi: int) -> bool {
    &&& 0 <= lo <= hi < s.len()
    &&& forall|i: int| lo <= i <= hi ==> stressed(#[trigger] s[i], min)
    &&& forall|i: int, j: int|
        #![trigger s[i], s[j]]
        lo <= i < hi && j == i + 1 ==> s[j].0 - s[i].0 <= gap
    &&& w.start_seq == s[lo].0
    &&& w.end_seq == s[hi].0
    &&& forall|i: int|
        lo <= i <= hi ==> regime::regime_code((#[trigger] s[i]).1) <= regime::regime_code(w.regime)
    &&& exists|i: int| lo <= i <= hi && (#[trigger] s[i]).1 == w.regime
    &&& w.events == stressed_flags(s.subrange(lo, hi + 1), min)
}

proof fn lemma_run_of_one(s: Seq<Tagged>, min: Regime, gap: u64, o: WindowModel)
    requires
        s.len() > 0,
        stressed(s.last(), min),
        o == (WindowModel {
            start_seq: s.last().0,
            end_seq: s.last().0,
            regime: s.last().1,
            events: s.last().2@,
        }),
    ensures
        is_run(s, min, gap, o, s.len() - 1, s.len() - 1),
{
    let k = s.len() - 1;
    let one = s.subrange(k, k + 1);
    let none = one.drop_last();
    assert(none.len() == 0);
    assert(stressed_flags(none, min) =~= Seq::<ChaosEvent>::empty());
    assert(one.last() == s[k]);
    assert(stressed_flags(one, min) == stressed_flags(none, min) + one.last().2@);
    assert(stressed_flags(one, min) =~= o.events);
    assert(s[k].1 == o.regime);
}

#[verifier::rlimit(40)]
proof fn lemma_open_is_a_run(s: Seq<Tagged>, min: Regime, gap: u64) -> (lo: int)
    requires
        in_order(s),
        windows_of(s, min, gap).open is Some,
    ensures
        is_run(s, min, gap, windows_of(s, min, gap).open->0, lo, s.len() - 1),
        lo > 0 ==> !stressed(s[lo - 1], min) || s[lo].0 - s[lo - 1].0 > gap,
    decreases s.len(),
{
    let d = s.drop_last();
    let t = s[s.len() - 1];
    let k = s.len() - 1;
    let w = windows_of(d, min, gap);
    let o = windows_of(s, min, gap).open->0;
    assert forall|i: int, j: int| 0 <= i < j < d.len() implies (#[trigger] d[i]).0 <= (#[trigger] d[j]).0 by {
        assert(d[i] == s[i] && d[j] == s[j]);
    }
    lemma_open_end(d, min, gap);
    if w.open is Some && t.0 - w.open->0.end_seq <= gap {
        let lo = lemma_open_is_a_run(d, min, gap);
        let p = w.open->0;
        assert(d.subrange(lo, d.len() as int) =~= s.subrange(lo, k + 1).drop_last());
        assert(s.subrange(lo, k + 1).last() == t);
        assert forall|i: int| lo <= i <= k implies stressed(#[trigger] s[i], min) by {
            if i < k {
                assert(d[i] == s[i]);
            }
        }
        assert forall|i: int, j: int|
            #![trigger s[i], s[j]]
            lo <= i < k && j == i + 1 implies s[j].0 - s[i].0 <= gap by {
            if j < k {
                assert(d[i] == s[i] && d[j] == s[j]);
            } else {
                assert(s[i] == d.last());
            }
        }
        assert forall|i: int| lo <= i <= k implies regime::regime_code((#[trigger] s[i]).1) <= regime::regime_code(o.regime) by {
            if i < k {
                assert(d[i] == s[i]);
            }
        }
        if as_bad(t.1, p.regime) {
            assert(s[k].1 == o.regime);
        } else {
            let i = choose|i: int| lo <= i <= d.len() - 1 && (#[trigger] d[i]).1 == p.regime;
            assert(s[i].1 == o.regime);
        }
        assert(d[lo] == s[lo]);
        if lo > 0 {
            assert(d[lo - 1] == s[lo - 1]);
        }
        lo
    } else {
        lemma_run_of_one(s, min, gap, o);
        if k > 0 {
            assert(d.last() == s[k - 1]);
            if stressed(s[k - 1], min) {
                assert(w.open is Some);
            }
        }
        k
    }
}

proof fn lemma_stretch_goes_on(s: Seq<Tagged>, min: Regime, gap: u64, w: WindowModel, lo: int, hi: int)
    requires
        s.len() > 0,
        is_run(s.drop_last(), min, gap, w, lo, hi),
    ensures
        is_run(s, min, gap, w, lo, hi),
{
    let d = s.drop_last();
    assert(d.subrange(lo, hi + 1) =~= s.subrange(lo, hi + 1));
    assert forall|i: int| lo <= i <= hi implies stressed(#[trigger] s[i], min) by {
        assert(d[i] == s[i]);
    }
    assert forall|i: int, j: int|
        #![trigger s[i], s[j]]
        lo <= i < hi && j == i + 1 implies s[j].0 - s[i].0 <= gap by {
        assert(d[i] == s[i] && d[j] == s[j]);
    }
    assert forall|i: int| lo <= i <= hi implies regime::regime_code((#[trigger] s[i]).1) <= regime::regime_code(w.regime) by {
        assert(d[i] == s[i]);
    }
    let i = choose|i: int| lo <= i <= hi && (#[trigger] d[i]).1 == w.regime;
    assert(s[i].1 == w.regime);
}

proof fn lemma_closed_is_a_stretch(s: Seq<Tagged>, min: Regime, gap: u64, c: int) -> (r: (int, int))
    requires
        in_order(s),
        0 <= c < windows_of(s, min, gap).closed.len(),
    ensures
        is_stretch(s, min, gap, windows_of(s, min, gap).closed[c], r.0, r.1),
        r.1 < s.len() - 1,
    decreases s.len(),
{
    let d = s.drop_last();
    let t = s[s.len() - 1];
    let w = windows_of(d, min, gap);
    let x = windows_of(s, min, gap).closed[c];
    assert forall|i: int, j: int| 0 <= i < j < d.len() implies (#[trigger] d[i]).0 <= (#[trigger] d[j]).0 by {
        assert(d[i] == s[i] && d[j] == s[j]);
    }
    if c < w.closed.len() {
        assert(x == w.closed[c]);
        let (lo, hi) = lemma_closed_is_a_stretch(d, min, gap, c);
        lemma_stretch_goes_on(s, min, gap, x, lo, hi);
        assert(d[lo] == s[lo] && d[hi] == s[hi]);
        if lo > 0 {
            assert(d[lo - 1] == s[lo - 1]);
        }
        if hi + 1 < d.len() {
            assert(d[hi + 1] == s[hi + 1]);
        }
        (lo, hi)
    } else {
        let lo = lemma_open_is_a_run(d, min, gap);
        lemma_open_end(d, min, gap);
        let hi = d.len() - 1;
        lemma_stretch_goes_on(s, min, gap, x, lo, hi);
        assert(d[lo] == s[lo] && d[hi] == s[hi]);
        if lo > 0 {
            assert(d[lo - 1] == s[lo - 1]);
        }
        (lo, hi)
    }
}

/// Every window is a stretch of stressed events that is as long as it can be.
pub proof fn windows_are_maximal_stretches(s: Seq<Tagged>, min: Regime, gap: u64, c: int)
    requires
        in_order(s),
        0 <= c < all_closed(windows_of(s, min, gap)).len(),
    ensures
        exists|lo: int, hi: int|
            is_stretch(s, min, gap, all_closed(windows_of(s, min, gap))[c], lo, hi),
{
    let w = windows_of(s, min, gap);
    if c < w.closed.len() {
        let (lo, hi) = lemma_closed_is_a_stretch(s, min, gap, c);
        assert(is_stretch(s, min, gap, all_closed(w)[c], lo, hi));
    } else {
        let lo = lemma_open_is_a_run(s, min, gap);
        assert(is_stretch(s, min, gap, all_closed(w)[c], lo, s.len() - 1));
    }
}

/// Every stressed event lies in a window.
pub proof fn stressed_events_lie_in_windows(s: Seq<Tagged>, min: Regime, gap: u64, i: int)
    requires
        in_order(s),
        0 <= i < s.len(),
        stressed(s[i], min),
    ensures
        ({
            let ws = all_closed(windows_of(s, min, gap));
            exists|c: int| 0 <= c < ws.len() && (#[trigger] ws[c]).start_seq <= s[i].0 <= ws[c].end_seq
        }),
    decreases s.len(),
{
    let d = s.drop_last();
    let t = s[s.len() - 1];
    let w = windows_of(d, min, gap);
    let a = all_closed(w);
    let b = all_closed(windows_of(s, min, gap));
    assert forall|i: int, j: int| 0 <= i < j < d.len() implies (#[trigger] d[i]).0 <= (#[trigger] d[j]).0 by {
        assert(d[i] == s[i] && d[j] == s[j]);
    }
    lemma_open_end(d, min, gap);
    lemma_open_end(s, min, gap);
    if d.len() > 0 {
        assert(s[s.len() - 2].0 <= s[s.len() - 1].0);
    }
    if i < d.len() {
        assert(d[i] == s[i]);
        stressed_events_lie_in_windows(d, min, gap, i);
        let c = choose|c: int| 0 <= c < a.len() && (#[trigger] a[c]).start_seq <= d[i].0 <= a[c].end_seq;
        assert(b[c].start_seq <= s[i].0 <= b[c].end_seq);
    } else {
        assert(b[b.len() - 1].start_seq <= s[i].0 <= b[b.len() - 1].end_seq);
    }
}

} // verus!
