//! Volume-synchronised probability of informed trading.

use crate::book::event::{Event, EventType, Side};
#[allow(unused_imports)]
use crate::book::event;
use crate::flow::rolling::slide_in;
#[allow(unused_imports)]
use crate::flow::rolling;
use crate::ratio::{cross, Fraction};
use std::collections::VecDeque;
use vstd::prelude::*;

verus! {

/// Who started a trade: the buyer, the seller, or nobody known.
pub open spec fn buy_share(qty: u64, aggressor: i8) -> u64 {
    if aggressor == 1 {
        qty
    } else if aggressor == -1 {
        0
    } else {
        (qty / 2) as u64
    }
}

/// The running bucket and the completed ones.
#[verifier::ext_equal]
pub struct VpinModel {
    pub buy: u64,
    pub sell: u64,
    /// Absolute difference of bought and sold volume of each bucket kept.
    pub diffs: Seq<u64>,
}

/// Absolute difference.
pub open spec fn gap(a: u64, b: u64) -> u64 {
    if a >= b {
        (a - b) as u64
    } else {
        (b - a) as u64
    }
}

/// One trade. A bucket is complete once it holds `bucket_size`; the trade that
/// completes it belongs to it whole.
pub open spec fn vpin_step(
    m: VpinModel,
    bucket_size: u64,
    num_buckets: nat,
    qty: u64,
    aggressor: i8,
) -> VpinModel {
    if qty == 0 {
        m
    } else {
        let buy = (m.buy + buy_share(qty, aggressor)) as u64;
        let sell = (m.sell + (qty - buy_share(qty, aggressor))) as u64;
        if buy + sell >= bucket_size {
            VpinModel { buy: 0, sell: 0, diffs: rolling::slide(m.diffs, num_buckets, gap(buy, sell)) }
        } else {
            VpinModel { buy, sell, diffs: m.diffs }
        }
    }
}

/// Mean difference of the kept buckets over the bucket size.
pub open spec fn vpin_of(diffs: Seq<u64>, bucket_size: u64) -> Fraction {
    if diffs.len() == 0 {
        Fraction { num: 0, den: 1 }
    } else {
        Fraction { num: rolling::total(diffs) as u128, den: (diffs.len() * bucket_size) as u128 }
    }
}

/// Bucketed order-flow toxicity.
#[derive(Debug)]
pub struct VpinCalculator {
    bucket_size: u64,
    num_buckets: usize,
    current_buy_vol: u64,
    current_sell_vol: u64,
    buckets: VecDeque<u64>,
    running_abs_diff: u128,
}

impl View for VpinCalculator {
    type V = VpinModel;

    closed spec fn view(&self) -> VpinModel {
        VpinModel {
            buy: self.current_buy_vol,
            sell: self.current_sell_vol,
            diffs: self.buckets@,
        }
    }
}

impl VpinCalculator {
    /// The cached sum is the sum of the kept differences.
    pub closed spec fn wf(&self) -> bool {
        self.running_abs_diff == rolling::total(self.buckets@)
    }

    /// Volume of a bucket.
    pub closed spec fn size(&self) -> u64 {
        self.bucket_size
    }

    /// Number of buckets kept.
    pub closed spec fn kept(&self) -> nat {
        self.num_buckets as nat
    }

    /// Keeps the last `num_buckets` buckets of `bucket_size` volume.
    pub fn new(bucket_size: u64, num_buckets: usize) -> (v: Self)
        ensures
            v.wf(),
            v.size() == bucket_size,
            v.kept() == num_buckets,
            v@ == (VpinModel { buy: 0, sell: 0, diffs: Seq::empty() }),
    {
        VpinCalculator {
            bucket_size,
            num_buckets,
            current_buy_vol: 0,
            current_sell_vol: 0,
            buckets: VecDeque::with_capacity(num_buckets),
            running_abs_diff: 0,
        }
    }

    /// Whether the running bucket has room for a quantity.
    pub fn has_room(&self, qty: u64) -> (b: bool)
        ensures
            b == (self@.buy + self@.sell + qty <= u64::MAX),
    {
        self.current_sell_vol <= u64::MAX - self.current_buy_vol && qty <= u64::MAX - self.current_buy_vol
            - self.current_sell_vol
    }

    /// One trade event, signed by the side it carries. Anything but a trade
    /// with a known side is ignored. Returns the measure when a bucket fills.
    pub fn process_trade(&mut self, event: &Event) -> (r: Option<Fraction>)
        requires
            old(self).wf(),
            old(self)@.buy + old(self)@.sell + event.qty <= u64::MAX,
        ensures
            final(self).wf(),
            final(self).size() == old(self).size(),
            final(self).kept() == old(self).kept(),
            ({
                let counts = event.event_type == event::event_code(EventType::Trade) && event.side <= 1;
                let sign: i8 = if event.side == 0 {
                    1i8
                } else {
                    -1i8
                };
                if counts {
                    &&& final(self)@ == vpin_step(
                        old(self)@,
                        old(self).size(),
                        old(self).kept(),
                        event.qty,
                        sign,
                    )
                    &&& r == completed(old(self)@, final(self)@, old(self).size(), event.qty)
                } else {
                    &&& final(self)@ == old(self)@
                    &&& r is None
                }
            }),
    {
        if event.event_type != EventType::Trade.code() {
            return None;
        }
        match Side::from_u8(event.side) {
            Some(Side::Bid) => self.process_signed(event.qty, 1),
            Some(Side::Ask) => self.process_signed(event.qty, -1),
            None => None,
        }
    }

    /// One trade with its aggressor: 1 for the buyer, -1 for the seller,
    /// anything else is split evenly. Returns the measure when a bucket fills.
    pub fn process_trade_signed(&mut self, qty: u64, aggressor: i8) -> (r: Option<Fraction>)
        requires
            old(self).wf(),
            old(self)@.buy + old(self)@.sell + qty <= u64::MAX,
        ensures
            final(self).wf(),
            final(self).size() == old(self).size(),
            final(self).kept() == old(self).kept(),
            final(self)@ == vpin_step(old(self)@, old(self).size(), old(self).kept(), qty, aggressor),
            r == completed(old(self)@, final(self)@, old(self).size(), qty),
    {
        self.process_signed(qty, aggressor)
    }

    fn process_signed(&mut self, qty: u64, aggressor: i8) -> (r: Option<Fraction>)
        requires
            old(self).wf(),
            old(self)@.buy + old(self)@.sell + qty <= u64::MAX,
        ensures
            final(self).wf(),
            final(self).size() == old(self).size(),
            final(self).kept() == old(self).kept(),
            final(self)@ == vpin_step(old(self)@, old(self).size(), old(self).kept(), qty, aggressor),
            r == completed(old(self)@, final(self)@, old(self).size(), qty),
    {
        if qty == 0 {
            return None;
        }
        let bought: u64 = if aggressor == 1 {
            qty
        } else if aggressor == -1 {
            0
        } else {
            qty / 2
        };
        self.current_buy_vol = self.current_buy_vol + bought;
        self.current_sell_vol = self.current_sell_vol + (qty - bought);
        if self.current_buy_vol + self.current_sell_vol >= self.bucket_size {
            let diff: u64 = if self.current_buy_vol >= self.current_sell_vol {
                self.current_buy_vol - self.current_sell_vol
            } else {
                self.current_sell_vol - self.current_buy_vol
            };
            proof {
                rolling::lemma_total_slide(self.buckets@, self.num_buckets as nat, diff);
            }
            if let Some(gone) = slide_in(&mut self.buckets, self.num_buckets, diff) {
                self.running_abs_diff = self.running_abs_diff - gone as u128;
            }
            proof {
                rolling::lemma_total_bound(self.buckets@);
                let n = self.buckets@.len();
                let k = self.buckets.len() as nat;
                assert(n == k);
                assert(n * u64::MAX <= 0xffff_ffff_ffff_ffff * 0xffff_ffff_ffff_ffff) by (nonlinear_arith)
                    requires
                        n <= 0xffff_ffff_ffff_ffff,
                ;
            }
            self.running_abs_diff = self.running_abs_diff + diff as u128;
            self.current_buy_vol = 0;
            self.current_sell_vol = 0;
            Some(self.vpin())
        } else {
            None
        }
    }

    /// The current measure, zero before the first bucket fills.
    pub fn vpin(&self) -> (r: Fraction)
        requires
            self.wf(),
        ensures
            r == vpin_of(self@.diffs, self.size()),
    {
        if self.buckets.len() == 0 {
            return Fraction { num: 0, den: 1 };
        }
        Fraction {
            num: self.running_abs_diff,
            den: cross(self.buckets.len() as u64, self.bucket_size),
        }
    }
}

/// The measure is handed out by the trade that fills a bucket.
pub open spec fn completed(old_m: VpinModel, new_m: VpinModel, bucket_size: u64, qty: u64) -> Option<Fraction> {
    if qty > 0 && old_m.buy + old_m.sell + qty >= bucket_size {
        Some(vpin_of(new_m.diffs, bucket_size))
    } else {
        None
    }
}

/// The volume of a trade is split without loss, and a trade of unknown origin
/// in halves that differ by at most one.
pub proof fn trade_volume_is_conserved(qty: u64, aggressor: i8)
    ensures
        buy_share(qty, aggressor) <= qty,
        aggressor != 1 && aggressor != -1 ==> {
            let sell = qty - buy_share(qty, aggressor);
            0 <= sell - buy_share(qty, aggressor) <= 1
        },
{
}

/// Where trades are no larger than what is missing from the bucket, no bucket
/// differs by more than its size, so the measure never exceeds one.
pub proof fn vpin_is_at_most_one(m: VpinModel, bucket_size: u64, num_buckets: nat, qty: u64, aggressor: i8)
    requires
        m.buy + m.sell + qty <= bucket_size,
        forall|i: int| 0 <= i < m.diffs.len() ==> #[trigger] m.diffs[i] <= bucket_size,
    ensures
        ({
            let n = vpin_step(m, bucket_size, num_buckets, qty, aggressor);
            &&& forall|i: int| 0 <= i < n.diffs.len() ==> #[trigger] n.diffs[i] <= bucket_size
            &&& rolling::total(n.diffs) <= n.diffs.len() * bucket_size
        }),
{
    let n = vpin_step(m, bucket_size, num_buckets, qty, aggressor);
    assert forall|i: int| 0 <= i < n.diffs.len() implies #[trigger] n.diffs[i] <= bucket_size by {
        if n.diffs.len() == m.diffs.len() + 1 && i < m.diffs.len() {
            assert(n.diffs[i] == m.diffs[i]);
        } else if n.diffs != m.diffs && i < n.diffs.len() - 1 {
            assert(n.diffs[i] == m.diffs[i + 1]);
        }
    }
    lemma_total_within(n.diffs, bucket_size);
}

proof fn lemma_total_within(s: Seq<u64>, cap: u64)
    requires
        forall|i: int| 0 <= i < s.len() ==> #[trigger] s[i] <= cap,
    ensures
        rolling::total(s) <= s.len() * cap,
    decreases s.len(),
{
    if s.len() > 0 {
        let d = s.drop_last();
        assert forall|i: int| 0 <= i < d.len() implies #[trigger] d[i] <= cap by {
            assert(d[i] == s[i]);
        }
        lemma_total_within(d, cap);
        assert(s.last() == s[s.len() - 1]);
        assert(s.len() * cap == (s.len() - 1) * cap + cap) by (nonlinear_arith);
    }
}

/// What a trade does to the running bucket: a buyer's trade is bought volume, a
/// seller's sold volume, and any other is split in halves, the odd unit sold. Until the
/// bucket is full that is all.
pub proof fn trades_fill_the_bucket(m: VpinModel, bucket_size: u64, num_buckets: nat, qty: u64, aggressor: i8)
    requires
        m.buy + m.sell + qty < bucket_size,
    ensures
        ({
            let n = vpin_step(m, bucket_size, num_buckets, qty, aggressor);
            &&& n.diffs == m.diffs
            &&& aggressor == 1 ==> n.buy == m.buy + qty && n.sell == m.sell
            &&& aggressor == -1 ==> n.sell == m.sell + qty && n.buy == m.buy
            &&& aggressor != 1 && aggressor != -1 ==> {
                &&& n.buy - m.buy + n.sell - m.sell == qty
                &&& n.sell - m.sell == n.buy - m.buy || n.sell - m.sell == n.buy - m.buy + 1
            }
            &&& completed(m, n, bucket_size, qty) is None
        }),
{
}

/// What was bought and sold in a bucket with the trade that fills it.
pub open spec fn sides_with(m: VpinModel, qty: u64, aggressor: i8, buy: int, sell: int) -> bool {
    &&& aggressor == 1 ==> buy == m.buy + qty && sell == m.sell
    &&& aggressor == -1 ==> buy == m.buy && sell == m.sell + qty
    &&& aggressor != 1 && aggressor != -1 ==> buy == m.buy + qty / 2 && sell == m.sell + (qty - qty / 2)
}

/// The trade that fills a bucket adds one entry: the absolute difference of bought and
/// sold volume, whichever is more. The newest entries stay, a new bucket begins empty,
/// and the measure is handed out.
pub proof fn a_full_bucket_adds_its_difference(
    m: VpinModel,
    bucket_size: u64,
    num_buckets: nat,
    qty: u64,
    aggressor: i8,
    buy: int,
    sell: int,
)
    requires
        qty > 0,
        bucket_size <= m.buy + m.sell + qty <= u64::MAX,
        sides_with(m, qty, aggressor, buy, sell),
    ensures
        ({
            let n = vpin_step(m, bucket_size, num_buckets, qty, aggressor);
            let d = n.diffs.last();
            &&& n.buy == 0
            &&& n.sell == 0
            &&& n.diffs.len() > 0
            &&& d == buy - sell || d == sell - buy
            &&& m.diffs.len() < num_buckets ==> n.diffs.drop_last() == m.diffs
            &&& m.diffs.len() >= num_buckets && m.diffs.len() > 0 ==> n.diffs.drop_last() == m.diffs.drop_first()
            &&& completed(m, n, bucket_size, qty) == Some(vpin_of(n.diffs, bucket_size))
        }),
{
    let n = vpin_step(m, bucket_size, num_buckets, qty, aggressor);
    if m.diffs.len() < num_buckets {
        assert(n.diffs.drop_last() =~= m.diffs);
    } else if m.diffs.len() > 0 {
        assert(n.diffs.drop_last() =~= m.diffs.drop_first());
    }
}

/// The measure is the mean difference of the kept buckets over their size.
pub proof fn vpin_is_the_mean_difference(diffs: Seq<u64>, bucket_size: u64)
    requires
        0 < diffs.len() <= u64::MAX,
    ensures
        vpin_of(diffs, bucket_size).num == rolling::total(diffs),
        vpin_of(diffs, bucket_size).den == diffs.len() * bucket_size,
        vpin_of(Seq::empty(), bucket_size).num == 0,
{
    rolling::lemma_total_bound(diffs);
    let n = diffs.len() as int;
    let b = bucket_size as int;
    assert(n * 0xffff_ffff_ffff_ffff <= 0xffff_ffff_ffff_ffff * 0xffff_ffff_ffff_ffff && n * b
        <= 0xffff_ffff_ffff_ffff * 0xffff_ffff_ffff_ffff) by (nonlinear_arith)
        requires
            0 <= n <= 0xffff_ffff_ffff_ffff,
            0 <= b <= 0xffff_ffff_ffff_ffff,
    ;
}

/// A series of trades, each with its aggressor.
pub open spec fn vpin_run(m: VpinModel, bucket_size: u64, num_buckets: nat, ts: Seq<(u64, i8)>) -> VpinModel
    decreases ts.len(),
{
    if ts.len() == 0 {
        m
    } else {
        vpin_step(
            vpin_run(m, bucket_size, num_buckets, ts.drop_last()),
            bucket_size,
            num_buckets,
            ts.last().0,
            ts.last().1,
        )
    }
}

/// Buying and selling weigh the same: with the aggressor of every trade exchanged,
/// the measure after any series is the same, and the running bucket has its sides
/// exchanged. An odd trade of unknown origin, whose odd unit counts as sold either way,
/// is outside of it.
pub proof fn vpin_does_not_take_sides(
    m: VpinModel,
    n: VpinModel,
    bucket_size: u64,
    num_buckets: nat,
    a: Seq<(u64, i8)>,
    b: Seq<(u64, i8)>,
)
    requires
        m.buy == n.sell,
        m.sell == n.buy,
        m.diffs == n.diffs,
        a.len() == b.len(),
        forall|i: int|
            #![trigger a[i]]
            0 <= i < a.len() ==> {
                &&& a[i].0 == b[i].0
                &&& a[i].1 == 1 && b[i].1 == -1 || a[i].1 == -1 && b[i].1 == 1 || a[i].1 == 0 && b[i].1 == 0
                    && a[i].0 % 2 == 0
            },
    ensures
        ({
            let x = vpin_run(m, bucket_size, num_buckets, a);
            let y = vpin_run(n, bucket_size, num_buckets, b);
            &&& x.diffs == y.diffs
            &&& x.buy == y.sell
            &&& x.sell == y.buy
            &&& vpin_of(x.diffs, bucket_size) == vpin_of(y.diffs, bucket_size)
        }),
    decreases a.len(),
{
    if a.len() > 0 {
        let (c, d) = (a.drop_last(), b.drop_last());
        assert forall|i: int|
            #![trigger c[i]]
            0 <= i < c.len() implies {
            &&& c[i].0 == d[i].0
            &&& c[i].1 == 1 && d[i].1 == -1 || c[i].1 == -1 && d[i].1 == 1 || c[i].1 == 0 && d[i].1 == 0
                && c[i].0 % 2 == 0
        } by {
            assert(c[i] == a[i]);
        }
        vpin_does_not_take_sides(m, n, bucket_size, num_buckets, c, d);
        assert(a[a.len() - 1].0 == b[b.len() - 1].0);
    }
}

/// A bucket filled from one side alone, be it bought or sold, differs by its whole
/// volume.
pub proof fn one_sided_buckets_differ_by_all(
    m: VpinModel,
    bucket_size: u64,
    num_buckets: nat,
    qty: u64,
    aggressor: i8,
)
    requires
        qty > 0,
        bucket_size <= m.buy + m.sell + qty <= u64::MAX,
        aggressor == 1 && m.sell == 0 || aggressor == -1 && m.buy == 0,
    ensures
        vpin_step(m, bucket_size, num_buckets, qty, aggressor).diffs.last() == m.buy + m.sell + qty,
{
}

} // verus!
