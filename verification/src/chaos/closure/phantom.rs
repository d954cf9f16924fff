//! Phantom liquidity.

use crate::book::event::{EventType, SequencedEvent};
#[allow(unused_imports)]
use crate::book::event;
#[allow(unused_imports)]
use crate::chaos::closure;
use crate::chaos::flag::{ChaosEvent, ChaosKind};
#[allow(unused_imports)]
use crate::chaos::generators::phantom;
use crate::chaos::generators::tape::TapeModel;
use crate::chaos::phantom_liquidity::{PhantomLimits, PhantomModel};
#[allow(unused_imports)]
use crate::chaos::phantom_liquidity;
use vstd::prelude::*;

verus! {

/// Phantom detection.
pub open spec fn phantom_detector(l: PhantomLimits) -> spec_fn(PhantomModel, SequencedEvent) -> (
    PhantomModel,
    Option<ChaosEvent>,
) {
    |m: PhantomModel, e: SequencedEvent| phantom_liquidity::phantom_step(m, l, e)
}

/// A detector that has seen nothing.
pub open spec fn nothing_seen() -> PhantomModel {
    PhantomModel { levels: Map::empty(), orders: Map::empty() }
}

/// Limits under which a generated order is large and short-lived.
pub open spec fn phantom_reach(l: PhantomLimits) -> bool {
    &&& l.max_tracked >= 1
    &&& l.min_qty <= 200
    &&& l.max_seq_gap >= 2
}

/// An order added and cancelled at once is flagged, and leaves no trace.
proof fn lemma_phantom_pair(l: PhantomLimits, a: SequencedEvent, c: SequencedEvent)
    requires
        phantom_reach(l),
        a.event.event_type == event::event_code(EventType::OrderAdd),
        c.event.event_type == event::event_code(EventType::OrderCancel),
        a.event.qty >= 200,
        c.seq == a.seq + 1,
        c.event.qty == a.event.qty,
        c.event.side == a.event.side,
        c.event.price == a.event.price,
        c.event.order_id == a.event.order_id,
    ensures
        ({
            let m = phantom_liquidity::phantom_step(nothing_seen(), l, a);
            let n = phantom_liquidity::phantom_step(m.0, l, c);
            &&& m.1 is None
            &&& n.0 == nothing_seen()
            &&& n.1 matches Some(f)
            &&& closure::telling(f, ChaosKind::PhantomLiquidity)
        }),
{
    let e = nothing_seen();
    assert(e.levels.dom() =~= Set::<u128>::empty());
    assert(e.levels.len() == 0);
    let m = phantom_liquidity::phantom_step(e, l, a).0;
    let key = phantom_liquidity::level_key(a.event.side, a.event.price);
    assert(m.levels == e.levels.insert(key, phantom_liquidity::new_tracker(a)));
    let n = phantom_liquidity::phantom_step(m, l, c);
    assert(n.0.levels =~= e.levels);
    assert(n.0.orders =~= e.orders);
    let t = m.levels[key].with_cancel(c.event.qty, true);
    let x = phantom_liquidity::slack(1, l.max_seq_gap);
    assert(x.0 >= 1 && x.1 == l.max_seq_gap);
    let y = phantom_liquidity::slack(
        phantom_liquidity::less_u64(c.event.ts, t.created_ts),
        l.max_time_gap_ns,
    );
    if x.0 * y.1 < y.0 * x.1 {
        assert(y.0 > 0) by (nonlinear_arith)
            requires
                x.0 * y.1 < y.0 * x.1,
                x.0 >= 0,
                y.1 >= 0,
                x.1 >= 0,
                y.0 >= 0,
        ;
    }
}

/// Every order of a phantom stream is flagged, one flag for each, and nothing
/// of it is remembered.
pub proof fn phantom_streams_are_flagged(
    l: PhantomLimits,
    g: phantom::PhantomModel,
    t: TapeModel,
    n: nat,
)
    requires
        phantom_reach(l),
        t.out.len() == 0,
        0 <= t.seq,
        t.seq + 2 * n <= u64::MAX,
    ensures
        ({
            let r = closure::watched(phantom_detector(l), nothing_seen(), phantom::phantom_cycles(g, t, n).out);
            &&& r.0 == nothing_seen()
            &&& r.1.len() == n
            &&& forall|i: int| 0 <= i < n ==> closure::telling(#[trigger] r.1[i], ChaosKind::PhantomLiquidity)
        }),
        phantom::phantom_cycles(g, t, n).seq == t.seq + 2 * n,
    decreases n,
{
    let s = phantom::phantom_cycles(g, t, n).out;
    if n > 0 {
        let before = phantom::phantom_cycles(g, t, (n - 1) as nat);
        phantom_streams_are_flagged(l, g, t, (n - 1) as nat);
        let k = before.out.len() as int;
        assert(s.len() == k + 2);
        assert(s.drop_last().drop_last() =~= before.out);
        assert(s.drop_last().last() == s[k]);
        assert(s.last() == s[k + 1]);
        lemma_phantom_pair(l, s[k], s[k + 1]);
        reveal_with_fuel(closure::watched, 3);
    } else {
        assert(s =~= Seq::<SequencedEvent>::empty());
    }
}

/// Every cycle writes two events.
pub proof fn lemma_cycles_write(g: phantom::PhantomModel, t: TapeModel, n: nat)
    ensures
        phantom::phantom_cycles(g, t, n).out.len() == t.out.len() + 2 * n,
    decreases n,
{
    if n > 0 {
        lemma_cycles_write(g, t, (n - 1) as nat);
    }
}

} // verus!
