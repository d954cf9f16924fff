//! Latency histograms over log-linear bins.

use crate::book::event::EventType;
#[allow(unused_imports)]
use crate::book::event;
#[allow(unused_imports)]
use crate::log_bins;
use crate::log_bins::{bin_of, lower_ns, N_BINS};
use crate::ratio::Ratio;
use vstd::prelude::*;

verus! {

/// The sum of some counts.
pub open spec fn sum_of(s: Seq<u64>) -> nat
    decreases s.len(),
{
    if s.len() == 0 {
        0
    } else {
        sum_of(s.drop_last()) + s.last() as nat
    }
}

/// What a histogram is.
#[verifier::ext_equal]
pub struct HistogramModel {
    pub counts: Seq<u64>,
    pub overflow: u64,
    pub n: u64,
}

impl HistogramModel {
    /// Every sample was counted once.
    pub open spec fn wf(self) -> bool {
        &&& self.counts.len() == N_BINS
        &&& sum_of(self.counts) + self.overflow == self.n
    }
}

/// A histogram with one sample more.
pub open spec fn recorded(h: HistogramModel, ns: u64) -> HistogramModel {
    let i = log_bins::bin(ns as nat) as int;
    if i >= N_BINS {
        HistogramModel { overflow: (h.overflow + 1) as u64, n: (h.n + 1) as u64, ..h }
    } else {
        HistogramModel { counts: h.counts.update(i, (h.counts[i] + 1) as u64), n: (h.n + 1) as u64, ..h }
    }
}

/// How many samples a share of them is, rounded up.
pub open spec fn share_of(n: u64, p: Ratio) -> nat {
    ((n * p.num + p.den - 1) / (p.den as int)) as nat
}

/// The lower end of the first bin, from `i` on, by which `target` samples were
/// counted; the largest number if there is none.
pub open spec fn reached(counts: Seq<u64>, target: nat, i: nat) -> u64
    decreases counts.len() - i,
{
    if i >= counts.len() {
        u64::MAX
    } else if sum_of(counts.take((i + 1) as int)) >= target {
        log_bins::lower(i) as u64
    } else {
        reached(counts, target, i + 1)
    }
}

/// The value that a share of the samples does not exceed, told by the lower end
/// of its bin. Zero if there are no samples.
pub open spec fn percentile_of(h: HistogramModel, p: Ratio) -> u64 {
    if h.n == 0 {
        0
    } else {
        reached(h.counts, share_of(h.n, p), 0)
    }
}

/// One less than the upper end of the last bin, among the first `k`, that holds
/// anything.
pub open spec fn last_filled(counts: Seq<u64>, k: nat) -> u64
    decreases k,
{
    if k == 0 {
        0
    } else if counts[k - 1] > 0 {
        (log_bins::lower(k) - 1) as u64
    } else {
        last_filled(counts, (k - 1) as nat)
    }
}

/// The largest sample, told by its bin.
pub open spec fn max_of(h: HistogramModel) -> u64 {
    if h.overflow > 0 {
        u64::MAX
    } else {
        last_filled(h.counts, N_BINS as nat)
    }
}

proof fn lemma_sum_update(s: Seq<u64>, i: int, x: u64)
    requires
        0 <= i < s.len(),
    ensures
        sum_of(s.update(i, x)) == sum_of(s) - s[i] + x,
    decreases s.len(),
{
    if i == s.len() - 1 {
        assert(s.update(i, x).drop_last() =~= s.drop_last());
    } else {
        assert(s.update(i, x).drop_last() =~= s.drop_last().update(i, x));
        lemma_sum_update(s.drop_last(), i, x);
    }
}

proof fn lemma_sum_zero(s: Seq<u64>)
    requires
        forall|i: int| 0 <= i < s.len() ==> s[i] == 0,
    ensures
        sum_of(s) == 0,
    decreases s.len(),
{
    if s.len() > 0 {
        lemma_sum_zero(s.drop_last());
    }
}

proof fn lemma_sum_take(s: Seq<u64>, i: int, j: int)
    requires
        0 <= i <= j <= s.len(),
    ensures
        sum_of(s.take(i)) <= sum_of(s.take(j)),
        i < s.len() ==> s[i] <= sum_of(s.take(i + 1)),
    decreases j - i,
{
    if i < j {
        lemma_sum_take(s, i, j - 1);
        assert(s.take(j).drop_last() =~= s.take(j - 1));
    }
    if i < s.len() {
        assert(s.take(i + 1).last() == s[i]);
    }
}

/// No samples.
pub open spec fn no_samples() -> HistogramModel {
    HistogramModel { counts: Seq::new(N_BINS as nat, |i: int| 0u64), overflow: 0, n: 0 }
}

/// Counts of samples.
#[derive(Debug)]
pub struct Histogram {
    counts: Vec<u64>,
    overflow: u64,
    n: u64,
}

impl View for Histogram {
    type V = HistogramModel;

    closed spec fn view(&self) -> HistogramModel {
        HistogramModel { counts: self.counts@, overflow: self.overflow, n: self.n }
    }
}

impl Histogram {
    /// No samples.
    pub fn new() -> (h: Self)
        ensures
            h@.wf(),
            h@ == no_samples(),
    {
        let mut counts: Vec<u64> = Vec::new();
        while counts.len() < N_BINS
            invariant
                counts@.len() <= N_BINS,
                forall|i: int| 0 <= i < counts@.len() ==> counts@[i] == 0,
            decreases N_BINS - counts@.len(),
        {
            counts.push(0);
        }
        proof {
            lemma_sum_zero(counts@);
            assert(counts@ =~= no_samples().counts);
        }
        Histogram { counts, overflow: 0, n: 0 }
    }

    /// The bin of a sample.
    pub fn bin_of(ns: u64) -> (i: usize)
        ensures
            i == log_bins::bin(ns as nat),
    {
        bin_of(ns)
    }

    /// The lower end of a bin.
    pub fn lower_ns(idx: usize) -> (ns: u64)
        requires
            idx < 496,
        ensures
            ns == log_bins::lower(idx as nat),
    {
        lower_ns(idx)
    }

    /// How many samples there are.
    pub fn samples(&self) -> (n: u64)
        ensures
            n == self@.n,
    {
        self.n
    }

    /// How many samples lie beyond the last bin.
    pub fn overflow(&self) -> (n: u64)
        ensures
            n == self@.overflow,
    {
        self.overflow
    }

    /// Counts a sample.
    pub fn record(&mut self, ns: u64)
        requires
            old(self)@.wf(),
            old(self)@.n < u64::MAX,
        ensures
            final(self)@ == recorded(old(self)@, ns),
            final(self)@.wf(),
    {
        let i: usize = bin_of(ns);
        if i >= N_BINS {
            self.overflow = self.overflow + 1;
        } else {
            let c: u64 = self.counts[i];
            proof {
                lemma_sum_take(self.counts@, i as int, self.counts@.len() as int);
                lemma_sum_take(self.counts@, i + 1, self.counts@.len() as int);
                assert(self.counts@.take(self.counts@.len() as int) =~= self.counts@);
                lemma_sum_update(self.counts@, i as int, (c + 1) as u64);
            }
            self.counts.set(i, c + 1);
        }
        self.n = self.n + 1;
    }

    /// The value that a share `p` of the samples does not exceed.
    pub fn percentile(&self, p: Ratio) -> (ns: u64)
        requires
            self@.wf(),
            p.wf(),
        ensures
            ns == percentile_of(self@, p),
    {
        if self.n == 0 {
            return 0;
        }
        assert(0 <= self.n * p.num <= 0xffff_ffff_ffff_ffff * 0xffff_ffff) by (nonlinear_arith)
            requires
                0 <= self.n <= 0xffff_ffff_ffff_ffff,
                0 <= p.num <= 0xffff_ffff,
        ;
        let target: u128 = (self.n as u128 * p.num as u128 + p.den as u128 - 1) / p.den as u128;
        let ghost counts = self.counts@;
        let ghost whole = reached(counts, target as nat, 0);
        let mut acc: u64 = 0;
        let mut i: usize = 0;
        while i < N_BINS
            invariant
                self@.wf(),
                counts == self.counts@,
                counts == self@.counts,
                i <= N_BINS,
                acc == sum_of(counts.take(i as int)),
                whole == reached(counts, target as nat, i as nat),
                whole == percentile_of(self@, p),
            decreases N_BINS - i,
        {
            proof {
                lemma_sum_take(counts, i + 1, N_BINS as int);
                assert(counts.take(N_BINS as int) =~= counts);
                assert(counts.take(i + 1).drop_last() =~= counts.take(i as int));
            }
            acc = acc + self.counts[i];
            if acc as u128 >= target {
                return lower_ns(i);
            }
            i += 1;
        }
        u64::MAX
    }

    /// The largest sample, told by its bin.
    pub fn max(&self) -> (ns: u64)
        requires
            self@.wf(),
        ensures
            ns == max_of(self@),
    {
        if self.overflow > 0 {
            return u64::MAX;
        }
        let mut k: usize = N_BINS;
        while k > 0
            invariant
                self@.wf(),
                self@.counts == self.counts@,
                k <= N_BINS,
                self@.overflow == 0,
                max_of(self@) == last_filled(self@.counts, k as nat),
            decreases k,
        {
            if self.counts[k - 1] > 0 {
                let up: u64 = lower_ns(k);
                proof {
                    vstd::arithmetic::power2::lemma_pow2_pos((k / 8) as nat);
                }
                return up - 1;
            }
            k -= 1;
        }
        0
    }
}

/// Histograms of each kind of event, and of all.
#[derive(Debug)]
pub struct PerType {
    pub add: Histogram,
    pub cancel: Histogram,
    pub trade: Histogram,
    pub modify: Histogram,
    pub total: Histogram,
}

impl PerType {
    /// All of them count right.
    pub open spec fn wf(&self) -> bool {
        &&& self.add@.wf()
        &&& self.cancel@.wf()
        &&& self.trade@.wf()
        &&& self.modify@.wf()
        &&& self.total@.wf()
        &&& self.add@.n + self.cancel@.n + self.trade@.n + self.modify@.n <= self.total@.n
    }

    /// No samples.
    pub fn new() -> (p: Self)
        ensures
            p.wf(),
            p.add@ == no_samples(),
            p.cancel@ == no_samples(),
            p.trade@ == no_samples(),
            p.modify@ == no_samples(),
            p.total@ == no_samples(),
    {
        PerType {
            add: Histogram::new(),
            cancel: Histogram::new(),
            trade: Histogram::new(),
            modify: Histogram::new(),
            total: Histogram::new(),
        }
    }

    /// Counts a sample of an event with a given code.
    pub fn record(&mut self, evt_type: u8, ns: u64)
        requires
            old(self).wf(),
            old(self).total@.n < u64::MAX,
        ensures
            final(self).wf(),
            final(self).total@ == recorded(old(self).total@, ns),
            final(self).add@ == (if evt_type == event::event_code(EventType::OrderAdd) {
                recorded(old(self).add@, ns)
            } else {
                old(self).add@
            }),
            final(self).cancel@ == (if evt_type == event::event_code(EventType::OrderCancel) {
                recorded(old(self).cancel@, ns)
            } else {
                old(self).cancel@
            }),
            final(self).trade@ == (if evt_type == event::event_code(EventType::Trade) {
                recorded(old(self).trade@, ns)
            } else {
                old(self).trade@
            }),
            final(self).modify@ == (if evt_type == event::event_code(EventType::OrderModify) {
                recorded(old(self).modify@, ns)
            } else {
                old(self).modify@
            }),
    {
        self.total.record(ns);
        if evt_type == EventType::OrderAdd.code() {
            self.add.record(ns);
        } else if evt_type == EventType::OrderCancel.code() {
            self.cancel.record(ns);
        } else if evt_type == EventType::Trade.code() {
            self.trade.record(ns);
        } else if evt_type == EventType::OrderModify.code() {
            self.modify.record(ns);
        }
    }
}

// ─── Laws ───────────────────────────────────────────────────────────

/// A larger share of the samples never has a smaller percentile.
pub proof fn percentiles_rise(h: HistogramModel, p: Ratio, q: Ratio)
    requires
        h.wf(),
        p.wf(),
        q.wf(),
        p.num * q.den <= q.num * p.den,
    ensures
        percentile_of(h, p) <= percentile_of(h, q),
{
    let (a, b) = (h.n * p.num, h.n * q.num);
    let (d, e) = (p.den as int, q.den as int);
    assert(a * e <= b * d) by (nonlinear_arith)
        requires
            a == h.n * p.num,
            b == h.n * q.num,
            d == p.den,
            e == q.den,
            p.num * q.den <= q.num * p.den,
            h.n >= 0,
    {
        assert(h.n * (p.num * q.den) <= h.n * (q.num * p.den));
    }
    assert(a >= 0 && b >= 0) by (nonlinear_arith)
        requires
            a == h.n * p.num,
            b == h.n * q.num,
            h.n >= 0,
            p.num >= 0,
            q.num >= 0,
    ;
    let (x, y) = ((a + d - 1) / d, (b + e - 1) / e);
    vstd::arithmetic::div_mod::lemma_fundamental_div_mod(a + d - 1, d);
    vstd::arithmetic::div_mod::lemma_fundamental_div_mod(b + e - 1, e);
    assert(0 <= x <= y) by (nonlinear_arith)
        requires
            a >= 0,
            d > 0,
            e > 0,
            a * e <= b * d,
            a + d - 1 == d * x + (a + d - 1) % d,
            0 <= (a + d - 1) % d < d,
            b + e - 1 == e * y + (b + e - 1) % e,
            0 <= (b + e - 1) % e < e,
    {
        assert(e * y >= b);
        assert(d * x <= a + d - 1);
        if x >= y + 1 {
            assert(d * x >= d * (y + 1));
            assert(d * y + d <= a + d - 1);
            assert(d * y < a);
            assert(d * y * e < a * e);
            assert(e * y * d >= b * d);
        }
    }
    lemma_reached_rises(h.counts, x as nat, y as nat, 0);
}

proof fn lemma_reached_rises(counts: Seq<u64>, a: nat, b: nat, i: nat)
    requires
        a <= b,
        counts.len() == N_BINS,
    ensures
        reached(counts, a, i) <= reached(counts, b, i),
        i < N_BINS ==> reached(counts, b, i) >= log_bins::lower(i),
    decreases counts.len() - i,
{
    if i < counts.len() {
        lemma_reached_rises(counts, a, b, i + 1);
        lemma_lower_small(i);
        if i + 1 < N_BINS {
            log_bins::bounds_are_monotone(i, i + 1);
        }
    }
}

proof fn lemma_lower_small(i: nat)
    requires
        i < N_BINS,
    ensures
        log_bins::lower(i) <= 0x100_0000,
{
    log_bins::bounds_are_monotone(i, N_BINS as nat);
    vstd::arithmetic::power2::lemma2_to64();
    assert(log_bins::lower(192) == 0x100_0000);
}

/// A sample raises exactly one counter by one, that of its bin, and the number of all;
/// one beyond the bins counts as overflow.
pub proof fn samples_are_counted_once(h: HistogramModel, ns: u64, i: int)
    requires
        h.wf(),
        h.n < u64::MAX,
        0 <= i < N_BINS,
    ensures
        ({
            let r = recorded(h, ns);
            &&& r.n == h.n + 1
            &&& ns < 0x100_0000 ==> r.overflow == h.overflow
            &&& ns >= 0x100_0000 ==> r.overflow == h.overflow + 1 && r.counts == h.counts
            &&& ns < 0x100_0000 && i == log_bins::bin(ns as nat) ==> r.counts[i] == h.counts[i] + 1
            &&& i != log_bins::bin(ns as nat) ==> r.counts[i] == h.counts[i]
            &&& r.wf()
        }),
{
    log_bins::bins_cover_the_range(ns as nat);
    let b = log_bins::bin(ns as nat) as int;
    if b < N_BINS {
        lemma_sum_update(h.counts, b, (h.counts[b] + 1) as u64);
        lemma_sum_take(h.counts, b, N_BINS as int);
        lemma_sum_take(h.counts, b + 1, N_BINS as int);
        assert(h.counts.take(N_BINS as int) =~= h.counts);
    }
}

proof fn lemma_reached(counts: Seq<u64>, target: nat, i: nat) -> (k: int)
    requires
        counts.len() == N_BINS,
        i <= N_BINS,
    ensures
        i <= k <= N_BINS,
        k < N_BINS ==> reached(counts, target, i) == log_bins::lower(k as nat) && sum_of(counts.take(k + 1))
            >= target,
        k == N_BINS ==> reached(counts, target, i) == u64::MAX,
        k > i ==> sum_of(counts.take(k)) < target,
    decreases counts.len() - i,
{
    if i >= counts.len() {
        i as int
    } else if sum_of(counts.take((i + 1) as int)) >= target {
        lemma_lower_small(i);
        i as int
    } else {
        lemma_reached(counts, target, i + 1)
    }
}

/// A percentile is the lower end of the first bin by which at least that share of all
/// samples is counted: with the bins before it the share is not reached, and where it is
/// reached by none the percentile is beyond all bins.
pub proof fn percentiles_cover_their_share(h: HistogramModel, p: Ratio)
    requires
        h.counts.len() == N_BINS,
        h.n > 0,
        p.num > 0,
        p.den > 0,
    ensures
        ({
            let v = percentile_of(h, p);
            ||| v == u64::MAX && sum_of(h.counts) * p.den < h.n * p.num
            ||| exists|k: int|
                0 <= k < N_BINS && v == log_bins::lower(k as nat) && sum_of(#[trigger] h.counts.take(k + 1)) * p.den
                    >= h.n * p.num && sum_of(h.counts.take(k)) * p.den < h.n * p.num
        }),
{
    let target = share_of(h.n, p);
    let (a, d) = (h.n * p.num, p.den as int);
    assert(a > 0) by (nonlinear_arith)
        requires
            a == h.n * p.num,
            h.n > 0,
            p.num > 0,
    ;
    vstd::arithmetic::div_mod::lemma_fundamental_div_mod(a + d - 1, d);
    vstd::arithmetic::div_mod::lemma_mod_bound(a + d - 1, d);
    let t = (a + d - 1) / d;
    assert(t >= 1) by (nonlinear_arith)
        requires
            a + d - 1 == d * t + (a + d - 1) % d,
            (a + d - 1) % d < d,
            a > 0,
            d > 0,
    ;
    assert(target == t);
    assert forall|x: int| x >= 0 implies (x >= t <==> #[trigger] (x * d) >= a) by {
        assert(x >= t <==> x * d >= a) by (nonlinear_arith)
            requires
                a + d - 1 == d * t + (a + d - 1) % d,
                0 <= (a + d - 1) % d < d,
                d > 0,
        ;
    }
    let k = lemma_reached(h.counts, target, 0);
    assert(h.counts.take(N_BINS as int) =~= h.counts);
    if k == 0 {
        assert(h.counts.take(0) =~= Seq::<u64>::empty());
    }
    assert((sum_of(h.counts.take(k)) as int) * d < a);
    if k < N_BINS {
        assert((sum_of(h.counts.take(k + 1)) as int) * d >= a);
    }
}

/// The largest sample is told by the last bin that holds anything: that bin holds one, all
/// bins beyond are empty, and what is told is the last number of that bin. Overflow tells
/// the largest number, and no samples tell zero.
pub proof fn the_largest_is_in_the_last_bin(h: HistogramModel, i: int)
    requires
        h.counts.len() == N_BINS,
        0 <= i < N_BINS,
    ensures
        h.overflow > 0 ==> max_of(h) == u64::MAX,
        h.overflow == 0 && h.counts[i] > 0 ==> exists|k: int|
            i < k <= N_BINS && (#[trigger] h.counts[k - 1]) > 0 && max_of(h) == log_bins::lower(k as nat) - 1
                && forall|j: int| k <= j < N_BINS ==> h.counts[j] == 0,
        (forall|j: int| 0 <= j < N_BINS ==> h.counts[j] == 0) && h.overflow == 0 ==> max_of(h) == 0,
{
    lemma_last_filled(h.counts, N_BINS as nat, i);
    if h.overflow == 0 && h.counts[i] > 0 {
        let k = choose|k: int|
            i < k <= N_BINS && (#[trigger] h.counts[k - 1]) > 0 && last_filled(h.counts, N_BINS as nat)
                == log_bins::lower(k as nat) - 1 && forall|j: int| k <= j < N_BINS ==> h.counts[j] == 0;
        assert(h.counts[k - 1] > 0);
    }
}

proof fn lemma_lower_positive(i: nat)
    requires
        i <= N_BINS,
    ensures
        1 <= log_bins::lower(i) <= 0x100_0000,
{
    log_bins::bounds_are_monotone(i, N_BINS as nat);
    vstd::arithmetic::power2::lemma2_to64();
    assert(log_bins::lower(192) == 0x100_0000);
    vstd::arithmetic::power2::lemma_pow2_pos(i / 8);
    let p = vstd::arithmetic::power2::pow2(i / 8) as int;
    assert((i % 8) * p >= 0) by (nonlinear_arith)
        requires
            p > 0,
            i >= 0,
    ;
}

proof fn lemma_last_filled(counts: Seq<u64>, n: nat, i: int)
    requires
        counts.len() == N_BINS,
        n <= N_BINS,
        0 <= i < N_BINS,
    ensures
        i < n && counts[i] > 0 ==> exists|k: int|
            i < k <= n && (#[trigger] counts[k - 1]) > 0 && last_filled(counts, n) == log_bins::lower(k as nat) - 1
                && forall|j: int| k <= j < n ==> counts[j] == 0,
        (forall|j: int| 0 <= j < n ==> counts[j] == 0) ==> last_filled(counts, n) == 0,
    decreases n,
{
    if n > 0 {
        lemma_last_filled(counts, (n - 1) as nat, i);
        if counts[n - 1] > 0 {
            lemma_lower_positive(n);
            assert(counts[n as int - 1] > 0);
        } else if i < n - 1 && counts[i] > 0 {
            let k = choose|k: int|
                i < k <= n - 1 && (#[trigger] counts[k - 1]) > 0 && last_filled(counts, (n - 1) as nat)
                    == log_bins::lower(k as nat) - 1 && forall|j: int| k <= j < n - 1 ==> counts[j] == 0;
            assert(counts[k - 1] > 0);
        }
    }
}

} // verus!
