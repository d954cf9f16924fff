//! Rolling latency figures of one stage.

use crate::engine::wire::StageLat;
#[allow(unused_imports)]
use crate::flow::rolling;
use crate::ratio::Ratio;
use vstd::prelude::*;

verus! {

/// Numbers in ascending order.
pub open spec fn ascending(s: Seq<u64>) -> Seq<u64> {
    s.sort_by(|a: u64, b: u64| a <= b)
}

/// The place, among `n` numbers in order, that lies `q` of the way up, rounded
/// to the nearest.
pub open spec fn place_of(n: nat, q: Ratio) -> int {
    (2 * ((n - 1) * q.num) + q.den) / (2 * q.den as int)
}

/// The number that lies `q` of the way up.
pub open spec fn quantile(s: Seq<u64>, q: Ratio) -> u64 {
    let i = place_of(s.len(), q);
    ascending(s)[if i < s.len() - 1 {
        i
    } else {
        s.len() - 1
    }]
}

/// The figures of some samples; all zero without any.
pub open spec fn lat_of(s: Seq<u64>) -> StageLat {
    if s.len() == 0 {
        StageLat { p50_ns: 0, p99_ns: 0, p999_ns: 0, max_ns: 0 }
    } else {
        StageLat {
            p50_ns: quantile(s, Ratio { num: 50, den: 100 }),
            p99_ns: quantile(s, Ratio { num: 99, den: 100 }),
            p999_ns: quantile(s, Ratio { num: 999, den: 1_000 }),
            max_ns: ascending(s).last(),
        }
    }
}

/// The newest samples, in a ring.
#[derive(Debug)]
pub struct StageStats {
    samples: Vec<u64>,
    cap: usize,
    head: usize,
}

impl View for StageStats {
    type V = Seq<u64>;

    /// The samples, oldest first.
    closed spec fn view(&self) -> Seq<u64> {
        if self.samples@.len() < self.cap {
            self.samples@
        } else {
            self.samples@.skip(self.head as int) + self.samples@.take(self.head as int)
        }
    }
}

impl StageStats {
    /// How many samples are kept.
    pub closed spec fn size(&self) -> nat {
        self.cap as nat
    }

    /// The oldest sample is where the next one goes.
    pub closed spec fn wf(&self) -> bool {
        &&& self.cap > 0
        &&& self.samples@.len() <= self.cap
        &&& self.head < self.cap
        &&& self.samples@.len() < self.cap ==> self.head == 0
    }

    /// Keeps the newest `cap` samples.
    pub fn new(cap: usize) -> (s: Self)
        requires
            cap > 0,
        ensures
            s.wf(),
            s.size() == cap,
            s@ == Seq::<u64>::empty(),
    {
        StageStats { samples: Vec::with_capacity(cap), cap, head: 0 }
    }

    /// Takes one sample in, and the oldest out once there are too many.
    pub fn push(&mut self, ns: u64)
        requires
            old(self).wf(),
        ensures
            final(self).wf(),
            final(self).size() == old(self).size(),
            final(self)@ == rolling::slide(old(self)@, old(self).size(), ns),
    {
        let ghost before = self@;
        let ghost ring = self.samples@;
        let ghost at = self.head as int;
        if self.samples.len() < self.cap {
            self.samples.push(ns);
            assert(self@ =~= before.push(ns));
        } else {
            self.samples.set(self.head, ns);
            self.head = self.head + 1;
            if self.head == self.cap {
                self.head = 0;
            }
            assert(self@ =~= before.drop_first().push(ns));
        }
    }

    /// The figures of what is kept.
    pub fn snapshot(&self) -> (l: StageLat)
        requires
            self.wf(),
        ensures
            l == lat_of(self@),
    {
        if self.samples.len() == 0 {
            return StageLat { p50_ns: 0, p99_ns: 0, p999_ns: 0, max_ns: 0 };
        }
        let sorted: Vec<u64> = sort_ascending(&self.samples);
        proof {
            lemma_ring_sorts_alike(self.samples@, self.head as int);
            assert(sorted@ == ascending(self@));
            assert(sorted@.len() == self@.len());
        }
        StageLat {
            p50_ns: pick(&sorted, Ratio { num: 50, den: 100 }),
            p99_ns: pick(&sorted, Ratio { num: 99, den: 100 }),
            p999_ns: pick(&sorted, Ratio { num: 999, den: 1_000 }),
            max_ns: sorted[sorted.len() - 1],
        }
    }
}

/// The number that lies `q` of the way up sorted numbers.
fn pick(sorted: &Vec<u64>, q: Ratio) -> (x: u64)
    requires
        sorted@.len() > 0,
        0 < q.den,
        q.num <= q.den <= 1_000,
    ensures
        ({
            let i = place_of(sorted@.len(), q);
            x == sorted@[if i < sorted@.len() - 1 {
                i
            } else {
                sorted@.len() - 1
            }]
        }),
{
    let n: usize = sorted.len();
    let m: u128 = (n - 1) as u128;
    assert(0 <= m * q.num <= 0xffff_ffff_ffff_ffff * 1_000) by (nonlinear_arith)
        requires
            0 <= m <= 0xffff_ffff_ffff_ffff,
            0 <= q.num <= 1_000,
    ;
    let w: u128 = 2 * (m * q.num as u128) + q.den as u128;
    let i: u128 = w / (2 * q.den as u128);
    assert(i >= 0);
    if i < m {
        sorted[i as usize]
    } else {
        sorted[n - 1]
    }
}

proof fn lemma_total_order()
    ensures
        vstd::relations::total_ordering(|a: u64, b: u64| a <= b),
{
    assert(vstd::relations::total_ordering(|a: u64, b: u64| a <= b));
}

/// Turning a ring does not change its order.
proof fn lemma_ring_sorts_alike(s: Seq<u64>, at: int)
    requires
        0 <= at <= s.len(),
    ensures
        ascending(s.skip(at) + s.take(at)) == ascending(s),
        ascending(s).len() == s.len(),
        (s.skip(at) + s.take(at)).len() == s.len(),
{
    let leq = |a: u64, b: u64| a <= b;
    let t = s.skip(at) + s.take(at);
    lemma_total_order();
    s.lemma_sort_by_ensures(leq);
    t.lemma_sort_by_ensures(leq);
    assert(s =~= s.take(at) + s.skip(at));
    vstd::seq_lib::lemma_multiset_commutative(s.take(at), s.skip(at));
    vstd::seq_lib::lemma_multiset_commutative(s.skip(at), s.take(at));
    assert(s.to_multiset() =~= t.to_multiset());
    vstd::seq_lib::lemma_sorted_unique(ascending(s), ascending(t), leq);
    ascending(s).to_multiset_ensures();
    s.to_multiset_ensures();
}

/// Sorted numbers.
fn sort_ascending(v: &Vec<u64>) -> (r: Vec<u64>)
    ensures
        r@ == ascending(v@),
        r@.len() == v@.len(),
{
    let ghost leq = |a: u64, b: u64| a <= b;
    let mut out: Vec<u64> = Vec::new();
    let mut i: usize = 0;
    assert(v@.take(0) =~= Seq::<u64>::empty());
    assert(out@ =~= v@.take(0));
    while i < v.len()
        invariant
            i <= v@.len(),
            out@.len() == i,
            leq == (|a: u64, b: u64| a <= b),
            vstd::relations::sorted_by(out@, leq),
            out@.to_multiset() == v@.take(i as int).to_multiset(),
        decreases v@.len() - i,
    {
        let x: u64 = v[i];
        let ghost before = out@;
        let mut at: usize = out.len();
        while at > 0 && out[at - 1] > x
            invariant
                at <= out@.len(),
                out@ == before,
                leq == (|a: u64, b: u64| a <= b),
                vstd::relations::sorted_by(before, leq),
                forall|j: int| at <= j < before.len() ==> x <= before[j],
            decreases at,
        {
            at -= 1;
        }
        out.insert(at, x);
        proof {
            assert forall|a: int, b: int| 0 <= a < b < out@.len() implies #[trigger] leq(out@[a], out@[b]) by {
                let p = if a <= at { a } else { a - 1 };
                if a != at && b != at {
                    assert(leq(before[p], before[if b < at { b } else { b - 1 }]));
                } else if b == at && at > 0 && a < at - 1 {
                    assert(leq(before[a], before[at - 1]));
                }
            }
            assert(v@.take(i + 1) =~= v@.take(i as int).push(x));
            vstd::seq_lib::to_multiset_insert(before, at as int, x);
            vstd::seq_lib::to_multiset_build(v@.take(i as int), x);
        }
        i += 1;
    }
    proof {
        assert(v@.take(i as int) =~= v@);
        lemma_total_order();
        v@.lemma_sort_by_ensures(leq);
        vstd::seq_lib::lemma_sorted_unique(out@, ascending(v@), leq);
    }
    out
}

// ─── Laws ───────────────────────────────────────────────────────────

/// The samples in order are the same samples, none before a smaller one.
pub proof fn order_keeps_the_samples(s: Seq<u64>, x: u64)
    ensures
        ascending(s).len() == s.len(),
        s.contains(x) <==> ascending(s).contains(x),
        forall|i: int, j: int| 0 <= i <= j < s.len() ==> #[trigger] ascending(s)[i] <= #[trigger] ascending(s)[j],
{
    let leq = |a: u64, b: u64| a <= b;
    lemma_total_order();
    s.lemma_sort_by_ensures(leq);
    s.to_multiset_ensures();
    ascending(s).to_multiset_ensures();
    assert(s.to_multiset().count(x) == ascending(s).to_multiset().count(x));
    assert forall|i: int, j: int| 0 <= i <= j < s.len() implies #[trigger] ascending(s)[i] <= #[trigger] ascending(
        s,
    )[j] by {
        if i < j {
            assert(leq(ascending(s)[i], ascending(s)[j]));
        }
    }
}

/// The place of a share lies that share of the way up, to the nearest.
pub proof fn places_are_nearest(n: nat, q: Ratio)
    requires
        n > 0,
        0 < q.den,
        q.num <= q.den,
    ensures
        2 * place_of(n, q) * q.den <= 2 * ((n - 1) * q.num) + q.den,
        2 * place_of(n, q) * q.den > 2 * ((n - 1) * q.num) - q.den,
        0 <= place_of(n, q) < n,
{
    let (m, num, den) = (n - 1, q.num as int, q.den as int);
    let (x, d) = (2 * (m * num) + den, 2 * den);
    let p = x / d;
    vstd::arithmetic::div_mod::lemma_fundamental_div_mod(x, d);
    vstd::arithmetic::div_mod::lemma_mod_bound(x, d);
    assert(2 * p * den == d * p) by (nonlinear_arith)
        requires
            d == 2 * den,
    ;
    assert(0 <= m * num <= m * den) by (nonlinear_arith)
        requires
            0 <= num <= den,
            m >= 0,
    ;
    assert(0 <= p <= m) by (nonlinear_arith)
        requires
            x == d * p + x % d,
            0 <= x % d < d,
            0 <= x <= 2 * (m * den) + den,
            d == 2 * den,
            den > 0,
    ;
}

/// What is told of some samples: the largest is the largest of them, and the middle and
/// the two high figures are samples that rise from one to the next. Half of the samples,
/// and all but a hundredth and a thousandth of them, are no larger than these, up to the
/// nearest sample.
pub proof fn figures_are_order_statistics(s: Seq<u64>, x: u64)
    requires
        s.len() > 0,
        s.contains(x),
    ensures
        ({
            let l = lat_of(s);
            &&& x <= l.max_ns
            &&& s.contains(l.max_ns)
            &&& s.contains(l.p50_ns) && s.contains(l.p99_ns) && s.contains(l.p999_ns)
            &&& l.p50_ns <= l.p99_ns <= l.p999_ns <= l.max_ns
            &&& l.p50_ns == ascending(s)[place_of(s.len(), Ratio { num: 50, den: 100 })]
            &&& l.p99_ns == ascending(s)[place_of(s.len(), Ratio { num: 99, den: 100 })]
            &&& l.p999_ns == ascending(s)[place_of(s.len(), Ratio { num: 999, den: 1_000 })]
        }),
{
    let n = s.len();
    let (a, b, c) = (Ratio { num: 50, den: 100 }, Ratio { num: 99, den: 100 }, Ratio { num: 999, den: 1_000 });
    let t = ascending(s);
    order_keeps_the_samples(s, x);
    places_are_nearest(n, a);
    places_are_nearest(n, b);
    places_are_nearest(n, c);
    let (i, j, k) = (place_of(n, a), place_of(n, b), place_of(n, c));
    let m = n - 1;
    assert(i == (100 * m + 100) / 200 && j == (198 * m + 100) / 200 && k == (1998 * m + 1_000) / 2_000) by {
        assert(2 * (m * 50) == 100 * m && 2 * (m * 99) == 198 * m && 2 * (m * 999) == 1998 * m) by (nonlinear_arith);
    }
    assert(i <= j <= k <= n - 1);
    let w = choose|w: int| 0 <= w < t.len() && t[w] == x;
    assert(t[w] <= t[n - 1]);
    order_keeps_the_samples(s, t[i]);
    order_keeps_the_samples(s, t[j]);
    order_keeps_the_samples(s, t[k]);
    order_keeps_the_samples(s, t[n - 1]);
    assert(t[i] <= t[j] && t[j] <= t[k] && t[k] <= t[n - 1]);
}

} // verus!
