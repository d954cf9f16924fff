//! The shape of the apply stage's latency.

#[allow(unused_imports)]
use crate::log_bins;
use crate::log_bins::{bin_of, N_BINS};
use vstd::prelude::*;

verus! {

/// The bin that a sample is counted in; the last one takes all that is larger.
pub open spec fn histo_bin(ns: u64) -> int {
    if log_bins::bin(ns as nat) < N_BINS {
        log_bins::bin(ns as nat) as int
    } else {
        N_BINS - 1
    }
}

/// The counts with one sample more. A full count stays full.
pub open spec fn histo_with(bins: Seq<u64>, ns: u64) -> Seq<u64> {
    let i = histo_bin(ns);
    bins.update(i, bins[i].saturating_add(1))
}

/// Counts of samples in log-linear bins.
#[derive(Debug)]
pub struct ApplyHisto {
    bins: Vec<u64>,
}

impl View for ApplyHisto {
    type V = Seq<u64>;

    closed spec fn view(&self) -> Seq<u64> {
        self.bins@
    }
}

impl ApplyHisto {
    /// There is a count for each bin.
    pub open spec fn wf(&self) -> bool {
        self@.len() == N_BINS
    }

    /// No samples.
    pub fn new() -> (h: Self)
        ensures
            h.wf(),
            h@ == Seq::new(N_BINS as nat, |i: int| 0u64),
    {
        let mut bins: Vec<u64> = Vec::new();
        while bins.len() < N_BINS
            invariant
                bins@.len() <= N_BINS,
                forall|i: int| 0 <= i < bins@.len() ==> bins@[i] == 0,
            decreases N_BINS - bins@.len(),
        {
            bins.push(0);
        }
        ApplyHisto { bins }
    }

    /// Counts a sample.
    pub fn record(&mut self, ns: u64)
        requires
            old(self).wf(),
        ensures
            final(self).wf(),
            final(self)@ == histo_with(old(self)@, ns),
    {
        let i: usize = bin_of(ns);
        let at: usize = if i < N_BINS {
            i
        } else {
            N_BINS - 1
        };
        let c: u64 = self.bins[at];
        self.bins.set(at, c.saturating_add(1));
    }

    /// The counts.
    pub fn counts(&self) -> (r: Vec<u64>)
        ensures
            r@ == self@,
    {
        let mut r: Vec<u64> = Vec::new();
        let mut i: usize = 0;
        assert(r@ =~= self.bins@.take(0));
        while i < self.bins.len()
            invariant
                i <= self.bins@.len(),
                r@ == self.bins@.take(i as int),
            decreases self.bins@.len() - i,
        {
            r.push(self.bins[i]);
            i += 1;
            assert(r@ =~= self.bins@.take(i as int));
        }
        assert(self.bins@.take(i as int) =~= self.bins@);
        r
    }
}

// ─── Laws ───────────────────────────────────────────────────────────

/// A sample raises one count by one and no other: that of the bin which begins no later
/// than it and less than an eighth below it, or the last one for samples beyond all bins.
pub proof fn samples_raise_one_count(bins: Seq<u64>, ns: u64, i: int)
    requires
        bins.len() == N_BINS,
        0 <= i < N_BINS,
    ensures
        ({
            let r = histo_with(bins, ns);
            let k = histo_bin(ns);
            &&& 0 <= k < N_BINS
            &&& bins[k] < u64::MAX ==> r[k] == bins[k] + 1
            &&& i != k ==> r[i] == bins[i]
            &&& r.len() == bins.len()
            &&& ns >= 0x100_0000 ==> k == N_BINS - 1
            &&& 0 < ns < 0x100_0000 ==> log_bins::lower(k as nat) <= ns && 8 * (ns - log_bins::lower(k as nat))
                < log_bins::lower(k as nat)
            &&& ns == 0 ==> k == 0
        }),
{
    log_bins::bins_cover_the_range(ns as nat);
    if 0 < ns < 0x100_0000 {
        log_bins::bins_are_tight(ns as nat);
    }
}

} // verus!
