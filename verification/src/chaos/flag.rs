//! What a detector reports.

use crate::book::types::SeqNum;
use crate::flow::regime::Regime;
use crate::ratio::Fraction;
use vstd::prelude::*;

verus! {

/// Kind of aggressive pattern.
#[derive(Debug, Clone, Copy, PartialEq, Eq, Structural)]
pub enum ChaosKind {
    QuoteStuff,
    PhantomLiquidity,
    Spoof,
    CancellationStorm,
    MomentumIgnition,
    FlashCrash,
    LatencyArbitrage,
}

/// One weighted part of a severity: `tenths / 10` times `num / den`.
#[derive(Debug, Clone, Copy, PartialEq, Eq, Structural)]
pub struct Term {
    pub tenths: u8,
    pub num: u128,
    pub den: u128,
}

impl Term {
    /// A fraction between zero and one.
    pub open spec fn wf(self) -> bool {
        self.den > 0 && self.num <= self.den
    }
}

/// `num / den` capped at one. Nothing below the line counts as one.
pub open spec fn capped(tenths: u8, num: nat, den: nat) -> Term {
    if num >= den {
        Term { tenths, num: 1, den: 1 }
    } else {
        Term { tenths, num: num as u128, den: den as u128 }
    }
}

/// The absent part.
pub open spec fn no_term() -> Term {
    Term { tenths: 0, num: 0, den: 1 }
}

/// How severe a pattern is: the sum of its parts, between zero and one.
#[derive(Debug, Clone, Copy, PartialEq, Eq, Structural)]
pub struct Severity {
    pub first: Term,
    pub second: Term,
    pub third: Term,
}

impl Severity {
    /// Each part is a proper fraction and the weights add up to one.
    pub open spec fn wf(self) -> bool {
        &&& self.first.wf()
        &&& self.second.wf()
        &&& self.third.wf()
        &&& self.first.tenths + self.second.tenths + self.third.tenths == 10
    }

    /// A severity of one part.
    pub fn single(num: u128, den: u128) -> (s: Severity)
        ensures
            s == single_of(num as nat, den as nat),
            s.wf(),
    {
        Severity { first: Term::capped(10, num, den), second: Term::none(), third: Term::none() }
    }

    /// A severity of two parts.
    pub fn double(first: Term, second: Term) -> (s: Severity)
        requires
            first.wf(),
            second.wf(),
            first.tenths + second.tenths == 10,
        ensures
            s == (Severity { first, second, third: no_term() }),
            s.wf(),
    {
        Severity { first, second, third: Term::none() }
    }
}

impl Term {
    /// `num / den`, capped at one.
    pub fn capped(tenths: u8, num: u128, den: u128) -> (t: Term)
        ensures
            t == capped(tenths, num as nat, den as nat),
            t.wf(),
    {
        if num >= den {
            Term { tenths, num: 1, den: 1 }
        } else {
            Term { tenths, num, den }
        }
    }

    /// The absent part.
    pub fn none() -> (t: Term)
        ensures
            t == no_term(),
            t.wf(),
    {
        Term { tenths: 0, num: 0, den: 1 }
    }
}

/// The severity `num / den`, capped at one.
pub open spec fn single_of(num: nat, den: nat) -> Severity {
    Severity { first: capped(10, num, den), second: no_term(), third: no_term() }
}

/// Every severity lies between zero and one: multiplied out by all
/// denominators, the weighted parts add up to no more than ten tenths.
pub proof fn severity_is_normalized(s: Severity)
    requires
        s.wf(),
    ensures
        s.first.tenths * (s.first.num * (s.second.den * s.third.den)) + s.second.tenths * (s.second.num * (
        s.first.den * s.third.den)) + s.third.tenths * (s.third.num * (s.first.den * s.second.den))
            <= 10 * (s.first.den * (s.second.den * s.third.den)),
{
    let (a, b, c) = (s.first, s.second, s.third);
    let (n1, d1) = (a.num as int, a.den as int);
    let (n2, d2) = (b.num as int, b.den as int);
    let (n3, d3) = (c.num as int, c.den as int);
    let whole = d1 * (d2 * d3);
    assert(n1 * (d2 * d3) <= whole) by (nonlinear_arith)
        requires
            whole == d1 * (d2 * d3),
            0 <= n1 <= d1,
            d2 > 0,
            d3 > 0,
    ;
    assert(n2 * (d1 * d3) <= whole) by (nonlinear_arith)
        requires
            whole == d1 * (d2 * d3),
            0 <= n2 <= d2,
            d1 > 0,
            d3 > 0,
    ;
    assert(n3 * (d1 * d2) <= whole) by (nonlinear_arith)
        requires
            whole == d1 * (d2 * d3),
            0 <= n3 <= d3,
            d1 > 0,
            d2 > 0,
    ;
    let (t1, t2, t3) = (a.tenths as int, b.tenths as int, c.tenths as int);
    let (x, y, z) = (n1 * (d2 * d3), n2 * (d1 * d3), n3 * (d1 * d2));
    assert(t1 * x + t2 * y + t3 * z <= 10 * whole) by (nonlinear_arith)
        requires
            x <= whole,
            y <= whole,
            z <= whole,
            t1 >= 0,
            t2 >= 0,
            t3 >= 0,
            t1 + t2 + t3 == 10,
    {
        assert(t1 * x <= t1 * whole);
        assert(t2 * y <= t2 * whole);
        assert(t3 * z <= t3 * whole);
        assert(t1 * whole + t2 * whole + t3 * whole == (t1 + t2 + t3) * whole);
    }
}

/// Pattern-specific measures.
#[derive(Debug, Clone, Copy, PartialEq, Eq, Structural)]
pub struct ChaosFeatures {
    /// Number of events in the pattern.
    pub event_count: u64,
    /// Duration in nanoseconds.
    pub duration_ns: u64,
    /// Cancels per trade; a zero denominator says that there were no trades.
    pub cancel_trade_ratio: Fraction,
    /// Price displacement in ticks.
    pub price_displacement: i64,
    /// Quantity cancelled or traded away.
    pub depth_removed: u64,
}

/// One detected pattern.
#[derive(Debug, Clone, Copy, PartialEq, Eq, Structural)]
pub struct ChaosEvent {
    pub kind: ChaosKind,
    pub start_seq: SeqNum,
    pub end_seq: SeqNum,
    pub severity: Severity,
    /// The order that started the pattern, where it is known.
    pub initiator: Option<u64>,
    pub features: ChaosFeatures,
}

/// A stretch of stressed events.
#[derive(Debug)]
pub struct StressWindow {
    pub start_seq: SeqNum,
    pub end_seq: SeqNum,
    /// The worst regime within it.
    pub regime: Regime,
    pub chaos_events: Vec<ChaosEvent>,
}

/// A capped part is the smaller of `num` and `den`, over `den`.
pub proof fn capped_is_the_smaller(tenths: u8, num: nat, den: nat)
    requires
        0 < den <= u128::MAX,
    ensures
        capped(tenths, num, den).tenths == tenths,
        capped(tenths, num, den).den > 0,
        num <= den ==> capped(tenths, num, den).num * den == num * capped(tenths, num, den).den,
        num >= den ==> capped(tenths, num, den).num == capped(tenths, num, den).den,
        single_of(num, den).first == capped(10, num, den),
        single_of(num, den).second.num == 0,
        single_of(num, den).third.num == 0,
{
    if num == den {
        let n = num as int;
        assert(1 * n == n * 1) by (nonlinear_arith);
    }
}

/// A part of this weight: `num` over `den`, and one where `num` is no smaller.
pub open spec fn is_part(t: Term, tenths: int, num: int, den: int) -> bool {
    &&& t.tenths == tenths
    &&& t.den > 0
    &&& num < den ==> t.num * den == num * t.den
    &&& num >= den ==> t.num == t.den
}

/// What a capped part is, whatever is below the line.
pub proof fn parts_are_capped(tenths: u8, num: nat, den: nat)
    requires
        den <= u128::MAX,
    ensures
        is_part(capped(tenths, num, den), tenths as int, num as int, den as int),
        is_part(single_of(num, den).first, 10, num as int, den as int),
        single_of(num, den).second == no_term(),
        single_of(num, den).third == no_term(),
        no_term().num == 0 && no_term().tenths == 0,
{
}

} // verus!
