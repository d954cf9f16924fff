//! How severities compare, and what they come to over several flags. All of it is
//! exact: the parts are brought to a common denominator, however large that is.

use crate::chaos::clustering::ChaosCluster;
#[allow(unused_imports)]
use crate::chaos::flag;
use crate::chaos::flag::{ChaosEvent, Severity, StressWindow};
use crate::natural::Natural;
use vstd::prelude::*;

verus! {

/// A severity as one fraction: what is above the line and what is below it.
pub open spec fn share(s: Severity) -> (nat, nat) {
    let (a, b, c) = (s.first, s.second, s.third);
    let (d1, d2, d3) = (a.den as nat, b.den as nat, c.den as nat);
    (
        a.tenths as nat * (a.num as nat * (d2 * d3)) + b.tenths as nat * (b.num as nat * (d1 * d3))
            + c.tenths as nat * (c.num as nat * (d1 * d2)),
        10 * (d1 * (d2 * d3)),
    )
}

/// A severity is above another.
pub open spec fn worse(a: Severity, b: Severity) -> bool {
    share(a).0 * share(b).1 > share(b).0 * share(a).1
}

/// Where the worst flag is: the first of several.
pub open spec fn worst_at(s: Seq<ChaosEvent>) -> int
    decreases s.len(),
{
    if s.len() <= 1 {
        0
    } else {
        let k = worst_at(s.drop_last());
        if worse(s.last().severity, s[k].severity) {
            s.len() - 1
        } else {
            k
        }
    }
}

/// The severity of the worst flag.
pub open spec fn peak_of(s: Seq<ChaosEvent>) -> Option<Severity> {
    if s.len() == 0 {
        None
    } else {
        Some(s[worst_at(s)].severity)
    }
}

/// The sum of all severities, as one fraction.
pub open spec fn total_of(s: Seq<ChaosEvent>) -> (nat, nat)
    decreases s.len(),
{
    if s.len() == 0 {
        (0, 1)
    } else {
        let (n, d) = total_of(s.drop_last());
        let (x, y) = share(s.last().severity);
        (n * y + d * x, d * y)
    }
}

/// The mean of all severities, as one fraction. Of no flags it is zero.
pub open spec fn mean_of(s: Seq<ChaosEvent>) -> (nat, nat) {
    if s.len() == 0 {
        (0, 1)
    } else {
        (total_of(s).0, total_of(s).1 * s.len())
    }
}

/// A fraction of any size.
#[derive(Debug)]
pub struct Portion {
    pub num: Natural,
    pub den: Natural,
}

impl View for Portion {
    type V = (nat, nat);

    open spec fn view(&self) -> (nat, nat) {
        (self.num@, self.den@)
    }
}

impl Severity {
    /// The severity as one fraction.
    pub fn portion(&self) -> (p: Portion)
        ensures
            p@ == share(*self),
    {
        let d1: Natural = Natural::of(self.first.den);
        let d2: Natural = Natural::of(self.second.den);
        let d3: Natural = Natural::of(self.third.den);
        let first: Natural = weighed(self.first.tenths, self.first.num, &d2.times(&d3));
        let second: Natural = weighed(self.second.tenths, self.second.num, &d1.times(&d3));
        let third: Natural = weighed(self.third.tenths, self.third.num, &d1.times(&d2));
        let den: Natural = Natural::of(10).times(&d1.times(&d2.times(&d3)));
        Portion { num: first.plus(&second).plus(&third), den }
    }

    /// Whether the severity is above another.
    pub fn is_worse_than(&self, other: &Severity) -> (b: bool)
        ensures
            b == worse(*self, *other),
    {
        let (p, q): (Portion, Portion) = (self.portion(), other.portion());
        q.num.times(&p.den).is_below(&p.num.times(&q.den))
    }
}

fn weighed(tenths: u8, num: u128, rest: &Natural) -> (r: Natural)
    ensures
        r@ == tenths as nat * (num as nat * rest@),
{
    Natural::of(tenths as u128).times(&Natural::of(num).times(rest))
}

proof fn lemma_worst_at(s: Seq<ChaosEvent>)
    requires
        s.len() > 0,
    ensures
        0 <= worst_at(s) < s.len(),
    decreases s.len(),
{
    if s.len() > 1 {
        lemma_worst_at(s.drop_last());
    }
}

/// The severity of the worst of some flags.
pub fn peak_severity(events: &[ChaosEvent]) -> (r: Option<Severity>)
    ensures
        r == peak_of(events@),
{
    if events.len() == 0 {
        return None;
    }
    let mut worst: Severity = events[0].severity;
    let mut i: usize = 1;
    while i < events.len()
        invariant
            1 <= i <= events@.len(),
            worst == events@[worst_at(events@.take(i as int))].severity,
        decreases events@.len() - i,
    {
        proof {
            let t = events@.take(i + 1);
            assert(t.drop_last() =~= events@.take(i as int));
            lemma_worst_at(t.drop_last());
        }
        if events[i].severity.is_worse_than(&worst) {
            worst = events[i].severity;
        }
        i += 1;
    }
    assert(events@.take(i as int) =~= events@);
    Some(worst)
}

/// The mean severity of some flags.
pub fn mean_severity(events: &[ChaosEvent]) -> (p: Portion)
    ensures
        p@ == mean_of(events@),
{
    let mut num: Natural = Natural::zero();
    let mut den: Natural = Natural::of(1);
    let mut i: usize = 0;
    assert(events@.take(0).len() == 0);
    while i < events.len()
        invariant
            i <= events@.len(),
            (num@, den@) == total_of(events@.take(i as int)),
        decreases events@.len() - i,
    {
        assert(events@.take(i + 1).drop_last() =~= events@.take(i as int));
        let p: Portion = events[i].severity.portion();
        num = num.times(&p.den).plus(&den.times(&p.num));
        den = den.times(&p.den);
        i += 1;
    }
    assert(events@.take(i as int) =~= events@);
    if events.len() > 0 {
        den = den.times(&Natural::of(events.len() as u128));
    }
    Portion { num, den }
}

impl ChaosCluster {
    /// The worst single flag of the episode.
    pub fn peak_severity(&self) -> (r: Option<Severity>)
        ensures
            r == peak_of(self.events@),
    {
        peak_severity(self.events.as_slice())
    }

    /// How bad the episode was on average.
    pub fn mean_severity(&self) -> (p: Portion)
        ensures
            p@ == mean_of(self.events@),
    {
        mean_severity(self.events.as_slice())
    }
}

impl StressWindow {
    /// How bad the window was on average; zero without a flag.
    pub fn severity(&self) -> (p: Portion)
        ensures
            p@ == mean_of(self.chaos_events@),
    {
        mean_severity(self.chaos_events.as_slice())
    }
}

// ─── Laws ───────────────────────────────────────────────────────────

/// Every flag has a proper severity.
pub open spec fn all_proper(s: Seq<ChaosEvent>) -> bool {
    forall|i: int| 0 <= i < s.len() ==> (#[trigger] s[i]).severity.wf()
}

/// A proper severity is a fraction from zero to one.
pub proof fn shares_are_normalized(s: Severity)
    requires
        s.wf(),
    ensures
        share(s).0 <= share(s).1,
        share(s).1 > 0,
{
    flag::severity_is_normalized(s);
    let (d1, d2, d3) = (s.first.den as nat, s.second.den as nat, s.third.den as nat);
    assert(d1 * (d2 * d3) > 0) by (nonlinear_arith)
        requires
            d1 > 0,
            d2 > 0,
            d3 > 0,
    ;
}

/// Of three fractions the first is not above the last if neither is above the
/// next.
proof fn lemma_not_above(a: nat, b: nat, c: nat, d: nat, e: nat, f: nat)
    requires
        d > 0,
        a * d <= c * b,
        c * f <= e * d,
    ensures
        a * f <= e * b,
{
    assert(a * f * d <= e * b * d) by (nonlinear_arith)
        requires
            a * d <= c * b,
            c * f <= e * d,
    {
        assert(a * d * f <= c * b * f);
        assert(c * f * b <= e * d * b);
    }
    assert(a * f <= e * b) by (nonlinear_arith)
        requires
            a * f * d <= e * b * d,
            d > 0,
    ;
}

/// No flag is worse than the peak, and the peak is one of them.
pub proof fn nothing_is_worse_than_the_peak(s: Seq<ChaosEvent>, i: int)
    requires
        all_proper(s),
        0 <= i < s.len(),
    ensures
        0 <= worst_at(s) < s.len(),
        peak_of(s) == Some(s[worst_at(s)].severity),
        !worse(s[i].severity, s[worst_at(s)].severity),
    decreases s.len(),
{
    lemma_worst_at(s);
    if s.len() > 1 {
        let d = s.drop_last();
        assert forall|j: int| 0 <= j < d.len() implies (#[trigger] d[j]).severity.wf() by {
            assert(d[j] == s[j]);
        }
        lemma_worst_at(d);
        let k = worst_at(d);
        assert(d[k] == s[k]);
        assert(s[k].severity.wf());
        shares_are_normalized(s[k].severity);
        if i < d.len() {
            nothing_is_worse_than_the_peak(d, i);
            assert(d[i] == s[i]);
            if worse(s.last().severity, s[k].severity) {
                let (a, b) = share(s[i].severity);
                let (x, y) = share(s[k].severity);
                let (e, f) = share(s.last().severity);
                lemma_not_above(a, b, x, y, e, f);
            }
        }
    }
}

/// A bound on every severity bounds their sum.
proof fn lemma_total_bounded(s: Seq<ChaosEvent>, n: nat, d: nat)
    requires
        forall|i: int| 0 <= i < s.len() ==> share(#[trigger] s[i].severity).0 * d <= n * share(s[i].severity).1,
    ensures
        total_of(s).0 * d <= n * (total_of(s).1 * s.len()),
    decreases s.len(),
{
    if s.len() > 0 {
        let h = s.drop_last();
        assert forall|i: int| 0 <= i < h.len() implies share(#[trigger] h[i].severity).0 * d <= n * share(
            h[i].severity,
        ).1 by {
            assert(h[i].severity == s[i].severity);
        }
        lemma_total_bounded(h, n, d);
        let (a, b) = total_of(h);
        let last = s[s.len() - 1];
        let (x, y) = share(last.severity);
        assert(share(s[s.len() - 1].severity).0 * d <= n * share(s[s.len() - 1].severity).1);
        let k = h.len();
        assert((a * y + b * x) * d <= n * ((b * y) * (k + 1))) by (nonlinear_arith)
            requires
                a * d <= n * (b * k),
                x * d <= n * y,
        {
            assert((a * d) * y <= (n * (b * k)) * y);
            assert((x * d) * b <= (n * y) * b);
            assert((a * y + b * x) * d == (a * d) * y + (x * d) * b);
            assert((n * (b * k)) * y + (n * y) * b == n * ((b * y) * (k + 1)));
        }
    } else {
        assert(0 * d == 0 && n * (1 * 0) == 0) by (nonlinear_arith);
    }
}

/// The mean of proper severities lies between zero and one, and never above the
/// peak.
pub proof fn mean_is_at_most_the_peak(s: Seq<ChaosEvent>)
    requires
        all_proper(s),
        s.len() > 0,
    ensures
        mean_of(s).0 <= mean_of(s).1,
        mean_of(s).0 * share(peak_of(s)->0).1 <= share(peak_of(s)->0).0 * mean_of(s).1,
{
    assert forall|i: int| 0 <= i < s.len() implies share(#[trigger] s[i].severity).0 * 1 <= 1 * share(
        s[i].severity,
    ).1 by {
        assert(s[i].severity.wf());
        shares_are_normalized(s[i].severity);
    }
    lemma_total_bounded(s, 1, 1);
    let (n, d) = share(peak_of(s)->0);
    assert forall|i: int| 0 <= i < s.len() implies share(#[trigger] s[i].severity).0 * d <= n * share(
        s[i].severity,
    ).1 by {
        nothing_is_worse_than_the_peak(s, i);
    }
    lemma_worst_at(s);
    lemma_total_bounded(s, n, d);
}

/// A severity of one part is its fraction, and one of several is the sum of its parts,
/// each by its tenths.
pub proof fn shares_add_their_parts(s: Severity)
    requires
        s.wf(),
    ensures
        share(s).0 * (s.first.den * (s.second.den * s.third.den)) * 10 == share(s).1 * (s.first.tenths * (
        s.first.num * (s.second.den * s.third.den)) + s.second.tenths * (s.second.num * (s.first.den
            * s.third.den)) + s.third.tenths * (s.third.num * (s.first.den * s.second.den))),
        s.first.tenths == 10 && s.second.num == 0 && s.third.num == 0 ==> share(s).0 * s.first.den == s.first.num
            * share(s).1,
{
    let (n1, d1) = (s.first.num as int, s.first.den as int);
    let (n2, d2) = (s.second.num as int, s.second.den as int);
    let (n3, d3) = (s.third.num as int, s.third.den as int);
    let (t1, t2, t3) = (s.first.tenths as int, s.second.tenths as int, s.third.tenths as int);
    let w = d1 * (d2 * d3);
    let a = t1 * (n1 * (d2 * d3)) + t2 * (n2 * (d1 * d3)) + t3 * (n3 * (d1 * d2));
    assert(share(s).0 == a && share(s).1 == 10 * w);
    assert(a * w * 10 == 10 * w * a) by (nonlinear_arith);
    if t1 == 10 && n2 == 0 && n3 == 0 {
        assert(a * d1 == n1 * (10 * w)) by (nonlinear_arith)
            requires
                a == t1 * (n1 * (d2 * d3)) + t2 * (n2 * (d1 * d3)) + t3 * (n3 * (d1 * d2)),
                w == d1 * (d2 * d3),
                t1 == 10,
                n2 == 0,
                n3 == 0,
        {
            assert(t2 * (0 * (d1 * d3)) == 0);
            assert(t3 * (0 * (d1 * d2)) == 0);
            assert(10 * (n1 * (d2 * d3)) * d1 == n1 * (10 * (d1 * (d2 * d3))));
        }
    }
}

/// The mean over flags that all are as severe is that severity.
pub proof fn mean_of_equals_is_the_same(s: Seq<ChaosEvent>, n: nat, d: nat)
    requires
        s.len() > 0,
        forall|i: int| 0 <= i < s.len() ==> share(#[trigger] s[i].severity).0 * d == n * share(s[i].severity).1,
    ensures
        mean_of(s).0 * d == n * mean_of(s).1,
{
    lemma_total_of_equals(s, n, d);
}

proof fn lemma_total_of_equals(s: Seq<ChaosEvent>, n: nat, d: nat)
    requires
        forall|i: int| 0 <= i < s.len() ==> share(#[trigger] s[i].severity).0 * d == n * share(s[i].severity).1,
    ensures
        total_of(s).0 * d == n * (total_of(s).1 * s.len()),
    decreases s.len(),
{
    if s.len() > 0 {
        let h = s.drop_last();
        assert forall|i: int| 0 <= i < h.len() implies share(#[trigger] h[i].severity).0 * d == n * share(
            h[i].severity,
        ).1 by {
            assert(h[i].severity == s[i].severity);
        }
        lemma_total_of_equals(h, n, d);
        let (a, b) = total_of(h);
        let last = s[s.len() - 1];
        let (x, y) = share(last.severity);
        assert(share(s[s.len() - 1].severity).0 * d == n * share(s[s.len() - 1].severity).1);
        let k = h.len();
        assert((a * y + b * x) * d == n * ((b * y) * (k + 1))) by (nonlinear_arith)
            requires
                a * d == n * (b * k),
                x * d == n * y,
        {
            assert((a * y + b * x) * d == (a * d) * y + (x * d) * b);
            assert((n * (b * k)) * y + (n * y) * b == n * ((b * y) * (k + 1)));
        }
    } else {
        assert(0 * d == 0 && n * (1 * 0) == 0) by (nonlinear_arith);
    }
}

} // verus!
