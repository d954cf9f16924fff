//! What the generators write, the detectors find.

pub mod crash;
pub mod duals;
pub mod latency;
pub mod momentum;
pub mod phantom;
pub mod spoof;
pub mod stuffing;

use crate::book::event::SequencedEvent;
use crate::chaos::flag::{ChaosEvent, ChaosKind};
use vstd::prelude::*;

verus! {

/// A flag of a given kind that says more than nothing.
pub open spec fn telling(f: ChaosEvent, kind: ChaosKind) -> bool {
    f.kind == kind && f.severity.first.num > 0
}

/// Some flag tells of a kind.
pub open spec fn told(flags: Seq<ChaosEvent>, kind: ChaosKind) -> bool {
    exists|i: int| 0 <= i < flags.len() && telling(#[trigger] flags[i], kind)
}

/// Where a detector ends on a stream, and the flags it raises.
pub open spec fn watched<M>(
    detector: spec_fn(M, SequencedEvent) -> (M, Option<ChaosEvent>),
    m: M,
    s: Seq<SequencedEvent>,
) -> (M, Seq<ChaosEvent>)
    decreases s.len(),
{
    if s.len() == 0 {
        (m, Seq::empty())
    } else {
        let (n, fs) = watched(detector, m, s.drop_last());
        let (o, f) = detector(n, s.last());
        (
            o,
            match f {
                Some(x) => fs.push(x),
                None => fs,
            },
        )
    }
}

/// What was told of the beginning of a stream is told of all of it.
pub proof fn lemma_told_early<M>(
    detector: spec_fn(M, SequencedEvent) -> (M, Option<ChaosEvent>),
    m: M,
    s: Seq<SequencedEvent>,
    k: int,
    kind: ChaosKind,
)
    requires
        0 <= k <= s.len(),
        told(watched(detector, m, s.take(k)).1, kind),
    ensures
        told(watched(detector, m, s).1, kind),
    decreases s.len(),
{
    if k == s.len() {
        assert(s.take(k) =~= s);
    } else {
        assert(s.drop_last().take(k) =~= s.take(k));
        lemma_told_early(detector, m, s.drop_last(), k, kind);
        let fs = watched(detector, m, s.drop_last()).1;
        let i = choose|i: int| 0 <= i < fs.len() && telling(#[trigger] fs[i], kind);
        assert(watched(detector, m, s).1[i] == fs[i]);
    }
}

} // verus!
