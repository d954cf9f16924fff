//! Rolling spread.

use crate::book::hot_book::HotOrderBook;
#[allow(unused_imports)]
use crate::book::hot_book;
use crate::flow::rolling::slide_in;
#[allow(unused_imports)]
use crate::flow::rolling;
use crate::ratio::{cross, Fraction};
use std::collections::VecDeque;
use vstd::prelude::*;

verus! {

/// Spread against its rolling mean.
#[derive(Debug, Clone, Copy, PartialEq, Eq, Structural)]
pub struct SpreadMetrics {
    pub current: u64,
    /// Mean of the window.
    pub mean: Fraction,
    /// Current over mean; above one the spread is wider than usual. One when
    /// the mean is zero.
    pub blowout_ratio: Fraction,
}

/// The metrics of a window whose newest entry is `current`.
pub open spec fn metrics_of(window: Seq<u64>, current: u64) -> SpreadMetrics {
    let sum = rolling::total(window);
    SpreadMetrics {
        current,
        mean: Fraction { num: sum as u128, den: window.len() as u128 },
        blowout_ratio: if sum > 0 {
            Fraction { num: (current * window.len()) as u128, den: sum as u128 }
        } else {
            Fraction { num: 1, den: 1 }
        },
    }
}

/// The last spreads and their sum.
#[derive(Debug)]
pub struct SpreadTracker {
    history: VecDeque<u64>,
    window: usize,
    running_sum: u64,
}

impl SpreadTracker {
    /// The recorded spreads, oldest first.
    pub closed spec fn spreads(&self) -> Seq<u64> {
        self.history@
    }

    /// How many spreads are kept.
    pub closed spec fn size(&self) -> nat {
        self.window as nat
    }

    /// The cached sum is the sum of what is kept.
    pub closed spec fn wf(&self) -> bool {
        self.running_sum == rolling::total(self.history@)
    }

    /// A tracker of the last `window` spreads.
    pub fn new(window: usize) -> (t: Self)
        ensures
            t.wf(),
            t.size() == window,
            t.spreads() == Seq::<u64>::empty(),
    {
        SpreadTracker { history: VecDeque::with_capacity(window), window, running_sum: 0 }
    }

    /// Whether the sum of the spreads has room for that of a book.
    pub fn has_room<const N: usize>(&self, book: &HotOrderBook<N>) -> (b: bool)
        requires
            self.wf(),
            book.wf(),
        ensures
            b == (hot_book::spread_of(book.bid_seq(), book.ask_seq()) matches Some(s) ==> rolling::total(
                self.spreads(),
            ) + s <= u64::MAX),
    {
        match book.spread() {
            Some(s) => s <= u64::MAX - self.running_sum,
            None => true,
        }
    }

    /// Records the spread of the book, if it has one.
    pub fn record<const N: usize>(&mut self, book: &HotOrderBook<N>) -> (r: Option<SpreadMetrics>)
        requires
            old(self).wf(),
            book.wf(),
            hot_book::spread_of(book.bid_seq(), book.ask_seq()) matches Some(s) ==> rolling::total(
                old(self).spreads(),
            ) + s <= u64::MAX,
        ensures
            final(self).wf(),
            final(self).size() == old(self).size(),
            match hot_book::spread_of(book.bid_seq(), book.ask_seq()) {
                None => r is None && final(self).spreads() == old(self).spreads(),
                Some(s) => {
                    &&& final(self).spreads() == rolling::slide(old(self).spreads(), old(self).size(), s)
                    &&& r == Some(metrics_of(final(self).spreads(), s))
                },
            },
    {
        let spread: u64 = match book.spread() {
            Some(s) => s,
            None => {
                return None;
            },
        };
        proof {
            rolling::lemma_total_slide(self.history@, self.window as nat, spread);
        }
        if let Some(gone) = slide_in(&mut self.history, self.window, spread) {
            self.running_sum = self.running_sum - gone;
        }
        self.running_sum = self.running_sum + spread;
        let n: usize = self.history.len();
        let blowout: Fraction = if self.running_sum > 0 {
            Fraction { num: cross(spread, n as u64), den: self.running_sum as u128 }
        } else {
            Fraction { num: 1, den: 1 }
        };
        Some(
            SpreadMetrics {
                current: spread,
                mean: Fraction { num: self.running_sum as u128, den: n as u128 },
                blowout_ratio: blowout,
            },
        )
    }
}

// ─── Laws ───────────────────────────────────────────────────────────

/// The mean is the sum of the window over its length, and the blowout is the current
/// spread over that mean: it is above one exactly where the current spread is wider
/// than the mean, and below one exactly where it is narrower. A window of zeros has a
/// blowout of one.
pub proof fn blowout_is_current_over_mean(window: Seq<u64>, current: u64)
    requires
        0 < window.len() <= u64::MAX,
        rolling::total(window) <= u64::MAX,
        window.contains(current),
    ensures
        ({
            let m = metrics_of(window, current);
            &&& m.current == current
            &&& m.mean.num == rolling::total(window)
            &&& m.mean.den == window.len()
            &&& m.blowout_ratio.den > 0
            &&& m.blowout_ratio.num * m.mean.num == current * m.mean.den * m.blowout_ratio.den
            &&& m.blowout_ratio.num > m.blowout_ratio.den <==> current * window.len() > rolling::total(window)
            &&& m.blowout_ratio.num < m.blowout_ratio.den <==> current * window.len() < rolling::total(window)
        }),
{
    let (c, n) = (current as int, window.len() as int);
    let t = rolling::total(window) as int;
    assert(0 <= c * n <= 0xffff_ffff_ffff_ffff * 0xffff_ffff_ffff_ffff) by (nonlinear_arith)
        requires
            0 <= c <= 0xffff_ffff_ffff_ffff,
            0 <= n <= 0xffff_ffff_ffff_ffff,
    ;
    rolling::totals_add(window, 0);
    let k = choose|k: int| 0 <= k < window.len() && window[k] == current;
    assert(current <= t);
    if t == 0 {
        assert(c * n == 0 && 1 * t == c * n * 1) by (nonlinear_arith)
            requires
                c == 0,
                t == 0,
        ;
    } else {
        assert((c * n) * t == c * n * t);
    }
}

} // verus!
