//! Generators of adversarial streams, one for each detector.
//!
//! A generator is a function of its seed and settings: two of them that start
//! alike write the same events.

pub mod cancellation;
pub mod crash;
pub mod dial;
pub mod latency;
pub mod momentum;
pub mod phantom;
pub mod quote_stuff;
pub mod rng;
pub mod spoof;
pub mod tape;

pub use cancellation::CancellationStormGenerator;
pub use crash::FlashCrashGenerator;
pub use latency::LatencyArbProxyGenerator;
pub use momentum::MomentumIgnitionGenerator;
pub use phantom::PhantomLiquidityGenerator;
pub use quote_stuff::QuoteStuffGenerator;
pub use rng::DetRng;
pub use spoof::SpoofGenerator;

use crate::book::event::SequencedEvent;
use vstd::prelude::*;

verus! {

/// A self-paced source of adversarial events.
pub trait StormGenerator: Sized + View {
    /// Settings and state are in their ranges.
    spec fn wf(m: Self::V) -> bool;

    /// How many sequence numbers the next step can use up.
    spec fn span(m: Self::V) -> nat;

    /// The next state and the events of one step.
    spec fn stepped(m: Self::V, now_ns: u64, base_seq: u64) -> (Self::V, Seq<SequencedEvent>);

    /// When the next step is due.
    spec fn due(m: Self::V) -> u64;

    /// The programme is over.
    spec fn done(m: Self::V) -> bool;

    /// The label of the pattern.
    spec fn label(m: Self::V) -> Seq<char>;

    /// Whatever the generator did before, a step leaves it in its ranges, and its
    /// events are numbered from `base_seq` on, within its span.
    proof fn steps_are_numbered(m: Self::V, now_ns: u64, base_seq: u64)
        requires
            Self::wf(m),
            base_seq + Self::span(m) <= u64::MAX,
        ensures
            Self::wf(Self::stepped(m, now_ns, base_seq).0),
            tape::numbered(
                Self::stepped(m, now_ns, base_seq).1,
                base_seq as int,
                base_seq + Self::span(m),
            ),
    ;

    /// Writes the events of `now_ns`, numbered from `base_seq` on.
    fn step(&mut self, now_ns: u64, base_seq: u64) -> (out: Vec<SequencedEvent>)
        requires
            Self::wf(old(self)@),
            base_seq + Self::span(old(self)@) <= u64::MAX,
        ensures
            Self::wf(final(self)@),
            (final(self)@, out@) == Self::stepped(old(self)@, now_ns, base_seq),
            tape::numbered(out@, base_seq as int, base_seq + Self::span(old(self)@)),
    ;

    /// The earliest time at which the next step should be taken.
    fn next_due_ns(&self) -> (t: u64)
        ensures
            t == Self::due(self@),
    ;

    /// Whether everything was written.
    fn finished(&self) -> (b: bool)
        ensures
            b == Self::done(self@),
    ;

    /// The name of the pattern.
    fn kind_label(&self) -> (s: &'static str)
        ensures
            s@ == Self::label(self@),
    ;
}

} // verus!
