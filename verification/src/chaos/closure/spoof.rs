//! Spoofing.

use crate::book::event::{EventType, SequencedEvent};
#[allow(unused_imports)]
use crate::book::event;
#[allow(unused_imports)]
use crate::chaos::closure;
use crate::chaos::detection::LargeOrder;
#[allow(unused_imports)]
use crate::chaos::detection;
use crate::chaos::flag::{ChaosEvent, ChaosKind};
#[allow(unused_imports)]
use crate::chaos::generators::spoof;
use crate::chaos::generators::tape::TapeModel;
use vstd::prelude::*;

verus! {

/// Spoof detection.
pub open spec fn spoof_detector(large: u64, window: u64) -> spec_fn(Seq<LargeOrder>, SequencedEvent) -> (
    Seq<LargeOrder>,
    Option<ChaosEvent>,
) {
    |m: Seq<LargeOrder>, e: SequencedEvent| detection::spoof_step(m, e, large, window)
}

proof fn lemma_spoof_pair(large: u64, window: u64, a: SequencedEvent, c: SequencedEvent)
    requires
        window >= 1,
        a.event.event_type == event::event_code(EventType::OrderAdd),
        c.event.event_type == event::event_code(EventType::OrderCancel),
        a.event.qty >= large,
        a.event.qty > 0,
        c.seq == a.seq + 1,
        c.event.order_id == a.event.order_id,
    ensures
        ({
            let m = detection::spoof_step(Seq::empty(), a, large, window);
            let n = detection::spoof_step(m.0, c, large, window);
            &&& m.1 is None
            &&& n.0 == Seq::<LargeOrder>::empty()
            &&& n.1 matches Some(f)
            &&& closure::telling(f, ChaosKind::Spoof)
        }),
{
    let o: LargeOrder = (a.seq, a.event.order_id, a.event.qty);
    let one = Seq::<LargeOrder>::empty().push(o);
    assert(one.drop_last() =~= Seq::<LargeOrder>::empty());
    reveal_with_fuel(detection::fresh, 2);
    reveal_with_fuel(detection::first_of, 2);
    assert(detection::fresh(one, a.seq, (window * 2) as nat) =~= one);
    assert(detection::first_of(one, c.event.order_id) == 0);
    assert(one.remove(0) =~= Seq::<LargeOrder>::empty());
}

/// Every order of a spoofing stream is flagged, one flag for each, and nothing
/// of it is remembered.
pub proof fn spoof_streams_are_flagged(
    large: u64,
    window: u64,
    g: spoof::SpoofModel,
    t: TapeModel,
    n: nat,
)
    requires
        window >= 1,
        g.qty >= large,
        g.qty > 0,
        t.out.len() == 0,
        0 <= t.seq,
        t.seq + 2 * n <= u64::MAX,
    ensures
        ({
            let r = closure::watched(spoof_detector(large, window), Seq::empty(), spoof::spoof_cycles(g, t, n).out);
            &&& r.0 == Seq::<LargeOrder>::empty()
            &&& r.1.len() == n
            &&& forall|i: int| 0 <= i < n ==> closure::telling(#[trigger] r.1[i], ChaosKind::Spoof)
        }),
        spoof::spoof_cycles(g, t, n).seq == t.seq + 2 * n,
    decreases n,
{
    let s = spoof::spoof_cycles(g, t, n).out;
    if n > 0 {
        let before = spoof::spoof_cycles(g, t, (n - 1) as nat);
        spoof_streams_are_flagged(large, window, g, t, (n - 1) as nat);
        let k = before.out.len() as int;
        assert(s.len() == k + 2);
        assert(s.drop_last().drop_last() =~= before.out);
        assert(s.drop_last().last() == s[k]);
        assert(s.last() == s[k + 1]);
        lemma_spoof_pair(large, window, s[k], s[k + 1]);
        reveal_with_fuel(closure::watched, 3);
    } else {
        assert(s =~= Seq::<SequencedEvent>::empty());
    }
}

/// Every cycle writes two events.
pub proof fn lemma_cycles_write(g: spoof::SpoofModel, t: TapeModel, n: nat)
    ensures
        spoof::spoof_cycles(g, t, n).out.len() == t.out.len() + 2 * n,
    decreases n,
{
    if n > 0 {
        lemma_cycles_write(g, t, (n - 1) as nat);
    }
}

} // verus!
