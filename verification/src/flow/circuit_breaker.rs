//! Trading-side risk gate.
//!
//! Every prospective order passes through [`CircuitBreaker::check`]. Once a
//! guard trips, the breaker latches: every later check is blocked with the same
//! reason until [`CircuitBreaker::reset`] or [`CircuitBreaker::start_of_day`].
//! Time is handed in, in nanoseconds of a monotonic clock.

#[allow(unused_imports)]
use crate::ratio;
use crate::ratio::Ratio;
use std::collections::HashMap;
use vstd::prelude::*;

verus! {

/// Why the breaker is tripped.
#[derive(Debug, Clone, Copy, PartialEq, Eq, Structural)]
pub enum HaltReason {
    RateLimit,
    PositionCap,
    DailyLossFloor,
    OrderToTradeRatio,
    FeedGap,
    Manual,
}

/// Outcome of a check.
#[derive(Debug, Clone, Copy, PartialEq, Eq, Structural)]
pub enum Decision {
    Allow,
    Block(HaltReason),
}

/// Side of an order.
#[derive(Debug, Clone, Copy, PartialEq, Eq, Structural)]
pub enum Side {
    Buy,
    Sell,
}

/// A prospective order.
#[derive(Debug, Clone, Copy)]
pub struct Intent {
    pub instrument_id: u32,
    pub side: Side,
    pub qty: u32,
    /// Limit price in ticks.
    pub price_ticks: u64,
}

/// An execution report.
#[derive(Debug, Clone, Copy)]
pub struct Fill {
    pub instrument_id: u32,
    pub side: Side,
    pub qty: u32,
    pub price_ticks: u64,
}

/// Limits. A guard left `None` is off.
#[derive(Debug, Clone, Copy)]
pub struct BreakerConfig {
    pub max_orders_per_sec: Option<u32>,
    pub max_position: Option<i64>,
    /// The cash flow, in ticks times quantity, may not fall below minus this.
    pub max_daily_loss_ticks: Option<i64>,
    /// Orders per trade, once `otr_warmup` orders are out.
    pub max_order_to_trade_ratio: Option<Ratio>,
    pub otr_warmup: u64,
    /// Feed gaps within `gap_window_ns` that trip the breaker.
    pub gap_threshold: Option<u32>,
    pub gap_window_ns: u64,
}

/// The limits of a breaker that is not told otherwise.
pub open spec fn default_limits() -> BreakerConfig {
    BreakerConfig {
        max_orders_per_sec: Some(5_000),
        max_position: Some(10_000),
        max_daily_loss_ticks: Some(5_000_000_000),
        max_order_to_trade_ratio: Some(Ratio { num: 100, den: 1 }),
        otr_warmup: 100,
        gap_threshold: Some(16),
        gap_window_ns: 60_000_000_000,
    }
}

impl Default for BreakerConfig {
    fn default() -> (c: Self)
        ensures
            c == default_limits(),
    {
        BreakerConfig {
            max_orders_per_sec: Some(5_000),
            max_position: Some(10_000),
            max_daily_loss_ticks: Some(5_000_000_000),
            max_order_to_trade_ratio: Some(Ratio { num: 100, den: 1 }),
            otr_warmup: 100,
            gap_threshold: Some(16),
            gap_window_ns: 60_000_000_000,
        }
    }
}

/// One token of the rate limit, in the unit the bucket counts in. A rate of
/// `r` orders a second adds `r` units every nanosecond.
pub const TOKEN: u64 = 1_000_000_000;

/// A consistent reading of the breaker's counters.
#[derive(Debug, Clone, Copy)]
pub struct BreakerSnapshot {
    pub halted: bool,
    pub reason: Option<HaltReason>,
    pub orders_sent: u64,
    pub trades_done: u64,
    /// Net quantity over all instruments.
    pub net_position: i64,
    pub cash_flow_ticks: i64,
    /// Gaps in the window as of the last one.
    pub gaps_in_window: usize,
}

/// Everything the breaker remembers.
#[verifier::ext_equal]
pub struct BreakerModel {
    pub halt: Option<HaltReason>,
    pub orders: u64,
    pub trades: u64,
    /// Cash in less cash out: sells less buys, in ticks times quantity.
    pub cash: int,
    pub positions: Map<u32, i64>,
    pub net: int,
    /// Units in the token bucket and when it was last filled up.
    pub tokens: nat,
    pub refilled_ns: u64,
    pub gaps: Seq<u64>,
}

/// A breaker that begins: nothing was sent, and the bucket is full.
pub open spec fn fresh_breaker(cfg: BreakerConfig, now_ns: u64) -> BreakerModel {
    BreakerModel {
        halt: None,
        orders: 0,
        trades: 0,
        cash: 0,
        positions: Map::empty(),
        net: 0,
        tokens: burst(cfg),
        refilled_ns: now_ns,
        gaps: Seq::empty(),
    }
}

/// Signed quantity: bought is positive.
pub open spec fn signed(side: Side, qty: u32) -> int {
    match side {
        Side::Buy => qty as int,
        Side::Sell => -(qty as int),
    }
}

/// What the bucket can hold: one second's worth of orders.
pub open spec fn burst(cfg: BreakerConfig) -> nat {
    (match cfg.max_orders_per_sec {
        Some(r) => r,
        None => u32::MAX,
    } * TOKEN) as nat
}

/// The bucket filled up over `elapsed` nanoseconds, up to its burst.
pub open spec fn refill(tokens: nat, elapsed: nat, rate: nat, cap: nat) -> nat {
    if tokens + elapsed * rate <= cap {
        tokens + elapsed * rate
    } else {
        cap
    }
}

/// The position in one instrument.
pub open spec fn position(m: BreakerModel, instrument: u32) -> int {
    if m.positions.contains_key(instrument) {
        m.positions[instrument] as int
    } else {
        0
    }
}

/// The breaker with `reason` latched, unless another one is already.
pub open spec fn latched(m: BreakerModel, reason: HaltReason) -> BreakerModel {
    BreakerModel {
        halt: match m.halt {
            Some(r) => Some(r),
            None => Some(reason),
        },
        ..m
    }
}

/// The bucket brought up to date.
pub open spec fn topped_up(cfg: BreakerConfig, m: BreakerModel, now: u64) -> BreakerModel {
    match cfg.max_orders_per_sec {
        None => m,
        Some(rate) => BreakerModel {
            tokens: refill(
                m.tokens,
                if now >= m.refilled_ns {
                    (now - m.refilled_ns) as nat
                } else {
                    0
                },
                rate as nat,
                burst(cfg),
            ),
            refilled_ns: now,
            ..m
        },
    }
}

/// No token is left for an order.
pub open spec fn over_rate(cfg: BreakerConfig, m: BreakerModel, now: u64) -> bool {
    cfg.max_orders_per_sec is Some && topped_up(cfg, m, now).tokens < TOKEN
}

/// The bucket after a check: filled up, and one token less if there was one.
pub open spec fn metered(cfg: BreakerConfig, m: BreakerModel, now: u64) -> BreakerModel {
    let t = topped_up(cfg, m, now);
    if cfg.max_orders_per_sec is Some && t.tokens >= TOKEN {
        BreakerModel { tokens: (t.tokens - TOKEN) as nat, ..t }
    } else {
        t
    }
}

/// The order, as if filled, takes the position beyond the cap.
pub open spec fn over_position(cfg: BreakerConfig, m: BreakerModel, i: Intent) -> bool {
    cfg.max_position matches Some(cap) && {
        let after = position(m, i.instrument_id) + signed(i.side, i.qty);
        after > cap || -after > cap
    }
}

/// The cash flow is below the floor.
pub open spec fn below_floor(cfg: BreakerConfig, m: BreakerModel) -> bool {
    cfg.max_daily_loss_ticks matches Some(floor) && m.cash < -floor
}

/// Too many orders for the trades done, once warmed up.
pub open spec fn over_otr(cfg: BreakerConfig, m: BreakerModel) -> bool {
    cfg.max_order_to_trade_ratio matches Some(limit) && m.orders >= cfg.otr_warmup && ratio::above(
        m.orders as nat,
        if m.trades == 0 {
            1
        } else {
            m.trades as nat
        },
        limit,
    )
}

/// The guards in their order: a latched breaker blocks at once; then rate,
/// position, loss, order-to-trade ratio. The first that trips is latched.
pub open spec fn check_outcome(
    cfg: BreakerConfig,
    m: BreakerModel,
    i: Intent,
    now: u64,
) -> (BreakerModel, Decision) {
    let t = metered(cfg, m, now);
    match m.halt {
        Some(r) => (m, Decision::Block(r)),
        None => if over_rate(cfg, m, now) {
            (latched(t, HaltReason::RateLimit), Decision::Block(HaltReason::RateLimit))
        } else if over_position(cfg, m, i) {
            (latched(t, HaltReason::PositionCap), Decision::Block(HaltReason::PositionCap))
        } else if below_floor(cfg, m) {
            (latched(t, HaltReason::DailyLossFloor), Decision::Block(HaltReason::DailyLossFloor))
        } else if over_otr(cfg, m) {
            (
                latched(t, HaltReason::OrderToTradeRatio),
                Decision::Block(HaltReason::OrderToTradeRatio),
            )
        } else {
            (BreakerModel { orders: t.orders.wrapping_add(1), ..t }, Decision::Allow)
        },
    }
}

/// Signed cash of a fill: money spent on a buy is negative.
pub open spec fn fill_cash(f: Fill) -> int {
    -signed(f.side, f.qty) * (f.price_ticks as i64)
}

/// One fill booked.
pub open spec fn filled(m: BreakerModel, f: Fill) -> BreakerModel {
    BreakerModel {
        trades: m.trades.wrapping_add(1),
        positions: m.positions.insert(
            f.instrument_id,
            (position(m, f.instrument_id) + signed(f.side, f.qty)) as i64,
        ),
        net: m.net + signed(f.side, f.qty),
        cash: m.cash + fill_cash(f),
        ..m
    }
}

/// The fill stays within the machine's counters.
pub open spec fn fill_fits(m: BreakerModel, f: Fill) -> bool {
    &&& i64::MIN <= position(m, f.instrument_id) + signed(f.side, f.qty) <= i64::MAX
    &&& i64::MIN <= m.net + signed(f.side, f.qty) <= i64::MAX
    &&& i64::MIN <= fill_cash(f) <= i64::MAX
    &&& i64::MIN <= m.cash + fill_cash(f) <= i64::MAX
}

/// The gaps of the log that are not older than the window.
pub open spec fn recent(log: Seq<u64>, now: u64, window: u64) -> Seq<u64>
    decreases log.len(),
{
    if log.len() == 0 {
        Seq::empty()
    } else {
        let kept = recent(log.drop_last(), now, window);
        if log.last() + window >= now {
            kept.push(log.last())
        } else {
            kept
        }
    }
}

proof fn lemma_recent_len(log: Seq<u64>, now: u64, window: u64)
    ensures
        recent(log, now, window).len() <= log.len(),
    decreases log.len(),
{
    if log.len() > 0 {
        lemma_recent_len(log.drop_last(), now, window);
    }
}

/// One feed gap: old ones are forgotten, this one is logged, and the breaker
/// trips once the log holds the threshold.
pub open spec fn gapped(cfg: BreakerConfig, m: BreakerModel, now: u64) -> BreakerModel {
    match cfg.gap_threshold {
        None => m,
        Some(threshold) => {
            let n = BreakerModel { gaps: recent(m.gaps, now, cfg.gap_window_ns).push(now), ..m };
            if n.gaps.len() >= threshold {
                latched(n, HaltReason::FeedGap)
            } else {
                n
            }
        },
    }
}

/// Latched reason and its day's counters gone; the bucket is left as it is.
pub open spec fn fresh_day(m: BreakerModel) -> BreakerModel {
    BreakerModel {
        halt: None,
        orders: 0,
        trades: 0,
        cash: 0,
        net: 0,
        positions: Map::empty(),
        gaps: Seq::empty(),
        ..m
    }
}

/// Lazily filled token bucket.
#[derive(Debug)]
struct TokenBucket {
    tokens: u64,
    last_ns: u64,
    capacity: u64,
}

impl TokenBucket {
    fn new(capacity: u64, now: u64) -> (b: Self)
        ensures
            b.tokens == capacity,
            b.capacity == capacity,
            b.last_ns == now,
    {
        TokenBucket { tokens: capacity, last_ns: now, capacity }
    }

    /// Fills the bucket up to `now` and takes one token, if there is one.
    fn try_take(&mut self, rate: u32, now: u64) -> (ok: bool)
        requires
            old(self).tokens <= old(self).capacity,
        ensures
            final(self).capacity == old(self).capacity,
            final(self).last_ns == now,
            final(self).tokens <= final(self).capacity,
            ({
                let t = refill(
                    old(self).tokens as nat,
                    if now >= old(self).last_ns {
                        (now - old(self).last_ns) as nat
                    } else {
                        0
                    },
                    rate as nat,
                    old(self).capacity as nat,
                );
                &&& ok == (t >= TOKEN)
                &&& final(self).tokens == (if ok {
                    t - TOKEN
                } else {
                    t as int
                })
            }),
    {
        let elapsed: u64 = now.saturating_sub(self.last_ns);
        self.last_ns = now;
        let gained: u128 = crate::ratio::cross(elapsed, rate as u64);
        let sum: u128 = self.tokens as u128 + gained;
        self.tokens = if sum <= self.capacity as u128 { sum as u64 } else { self.capacity };
        if self.tokens >= TOKEN {
            self.tokens = self.tokens - TOKEN;
            true
        } else {
            false
        }
    }
}

/// The breaker.
#[derive(Debug)]
pub struct CircuitBreaker {
    cfg: BreakerConfig,
    reason: Option<HaltReason>,
    orders_sent: u64,
    trades_done: u64,
    cash_flow_ticks: i64,
    positions: HashMap<u32, i64>,
    net: i64,
    rate: TokenBucket,
    gap_log: Vec<u64>,
}

impl View for CircuitBreaker {
    type V = BreakerModel;

    closed spec fn view(&self) -> BreakerModel {
        BreakerModel {
            halt: self.reason,
            orders: self.orders_sent,
            trades: self.trades_done,
            cash: self.cash_flow_ticks as int,
            positions: self.positions@,
            net: self.net as int,
            tokens: self.rate.tokens as nat,
            refilled_ns: self.rate.last_ns,
            gaps: self.gap_log@,
        }
    }
}

impl CircuitBreaker {
    /// The configured limits.
    pub closed spec fn config(&self) -> BreakerConfig {
        self.cfg
    }

    /// The bucket holds no more than its burst.
    pub closed spec fn wf(&self) -> bool {
        &&& self.rate.capacity == burst(self.cfg)
        &&& self.rate.tokens <= self.rate.capacity
    }

    /// The bucket never holds more than one second's worth of orders.
    pub proof fn lemma_wf(&self)
        requires
            self.wf(),
        ensures
            self@.tokens <= burst(self.config()),
    {
    }

    /// A breaker at the start of its first day, with a full bucket.
    pub fn new(cfg: BreakerConfig, now_ns: u64) -> (b: Self)
        ensures
            b.wf(),
            b.config() == cfg,
            b@ == fresh_breaker(cfg, now_ns),
    {
        let rate: u32 = match cfg.max_orders_per_sec {
            Some(r) => r,
            None => u32::MAX,
        };
        CircuitBreaker {
            cfg,
            reason: None,
            orders_sent: 0,
            trades_done: 0,
            cash_flow_ticks: 0,
            positions: HashMap::new(),
            net: 0,
            rate: TokenBucket::new(rate as u64 * TOKEN, now_ns),
            gap_log: Vec::new(),
        }
    }

    /// Whether a reason is latched.
    pub fn is_halted(&self) -> (h: bool)
        ensures
            h == (self@.halt is Some),
    {
        self.reason.is_some()
    }

    /// The latched reason.
    pub fn halt_reason(&self) -> (r: Option<HaltReason>)
        ensures
            r == self@.halt,
    {
        self.reason
    }

    /// Checks a prospective order. An allowed one counts as sent.
    pub fn check(&mut self, intent: &Intent, now_ns: u64) -> (d: Decision)
        requires
            old(self).wf(),
            old(self)@.halt is None && old(self).config().max_position is Some ==> i64::MIN < position(
                old(self)@,
                intent.instrument_id,
            ) + signed(intent.side, intent.qty) <= i64::MAX,
            old(self)@.halt is None ==> (old(self).config().max_daily_loss_ticks matches Some(floor)
                ==> floor > i64::MIN),
        ensures
            final(self).wf(),
            final(self).config() == old(self).config(),
            (final(self)@, d) == check_outcome(old(self).config(), old(self)@, *intent, now_ns),
    {
        if let Some(r) = self.reason {
            return Decision::Block(r);
        }
        if let Some(rate) = self.cfg.max_orders_per_sec {
            if !self.rate.try_take(rate, now_ns) {
                return self.latch(HaltReason::RateLimit);
            }
        }
        if let Some(cap) = self.cfg.max_position {
            let current: i64 = match self.positions.get(&intent.instrument_id) {
                Some(p) => *p,
                None => 0,
            };
            let after: i64 = match intent.side {
                Side::Buy => current + intent.qty as i64,
                Side::Sell => current - intent.qty as i64,
            };
            let size: i64 = if after < 0 { -after } else { after };
            if size > cap {
                return self.latch(HaltReason::PositionCap);
            }
        }
        if let Some(floor) = self.cfg.max_daily_loss_ticks {
            if self.cash_flow_ticks < -floor {
                return self.latch(HaltReason::DailyLossFloor);
            }
        }
        if let Some(limit) = self.cfg.max_order_to_trade_ratio {
            if self.orders_sent >= self.cfg.otr_warmup {
                let trades: u64 = if self.trades_done == 0 { 1 } else { self.trades_done };
                if limit.is_exceeded_by(self.orders_sent, trades) {
                    return self.latch(HaltReason::OrderToTradeRatio);
                }
            }
        }
        self.orders_sent = self.orders_sent.wrapping_add(1);
        Decision::Allow
    }

    /// Books an execution.
    pub fn record_fill(&mut self, fill: &Fill)
        requires
            old(self).wf(),
            fill_fits(old(self)@, *fill),
        ensures
            final(self).wf(),
            final(self).config() == old(self).config(),
            final(self)@ == filled(old(self)@, *fill),
    {
        self.trades_done = self.trades_done.wrapping_add(1);
        let signed_qty: i64 = match fill.side {
            Side::Buy => fill.qty as i64,
            Side::Sell => -(fill.qty as i64),
        };
        let current: i64 = match self.positions.get(&fill.instrument_id) {
            Some(p) => *p,
            None => 0,
        };
        self.positions.insert(fill.instrument_id, current + signed_qty);
        self.net = self.net + signed_qty;
        self.cash_flow_ticks = self.cash_flow_ticks + (-signed_qty) * (fill.price_ticks as i64);
    }

    /// Books a feed gap.
    pub fn record_gap(&mut self, now_ns: u64)
        requires
            old(self).wf(),
        ensures
            final(self).wf(),
            final(self).config() == old(self).config(),
            final(self)@ == gapped(old(self).config(), old(self)@, now_ns),
    {
        let threshold: u32 = match self.cfg.gap_threshold {
            Some(t) => t,
            None => {
                return;
            },
        };
        let window: u64 = self.cfg.gap_window_ns;
        let mut kept: Vec<u64> = Vec::new();
        let mut i: usize = 0;
        assert(self.gap_log@.take(0) =~= Seq::<u64>::empty());
        while i < self.gap_log.len()
            invariant
                i <= self.gap_log@.len(),
                kept@ == recent(self.gap_log@.take(i as int), now_ns, window),
            decreases self.gap_log@.len() - i,
        {
            let t: u64 = self.gap_log[i];
            assert(self.gap_log@.take(i + 1).drop_last() =~= self.gap_log@.take(i as int));
            if now_ns.saturating_sub(t) <= window {
                kept.push(t);
            }
            i += 1;
        }
        assert(self.gap_log@.take(i as int) =~= self.gap_log@);
        kept.push(now_ns);
        let count: usize = kept.len();
        self.gap_log = kept;
        if count as u64 >= threshold as u64 {
            self.latch(HaltReason::FeedGap);
        }
    }

    /// Halts by hand.
    pub fn manual_halt(&mut self)
        requires
            old(self).wf(),
        ensures
            final(self).wf(),
            final(self).config() == old(self).config(),
            final(self)@ == latched(old(self)@, HaltReason::Manual),
    {
        self.latch(HaltReason::Manual);
    }

    /// Clears the latch and nothing else.
    pub fn reset(&mut self)
        requires
            old(self).wf(),
        ensures
            final(self).wf(),
            final(self).config() == old(self).config(),
            final(self)@ == (BreakerModel { halt: None, ..old(self)@ }),
    {
        self.reason = None;
    }

    /// Clears the latch and all that the day accumulated.
    pub fn start_of_day(&mut self)
        requires
            old(self).wf(),
        ensures
            final(self).wf(),
            final(self).config() == old(self).config(),
            final(self)@ == fresh_day(old(self)@),
    {
        self.orders_sent = 0;
        self.trades_done = 0;
        self.cash_flow_ticks = 0;
        self.positions.clear();
        self.net = 0;
        self.gap_log.clear();
        self.reset();
    }

    /// A reading of all counters.
    pub fn snapshot(&self) -> (s: BreakerSnapshot)
        requires
            self.wf(),
        ensures
            s.halted == (self@.halt is Some),
            s.reason == self@.halt,
            s.orders_sent == self@.orders,
            s.trades_done == self@.trades,
            s.net_position == self@.net,
            s.cash_flow_ticks == self@.cash,
            s.gaps_in_window == self@.gaps.len(),
    {
        BreakerSnapshot {
            halted: self.reason.is_some(),
            reason: self.reason,
            orders_sent: self.orders_sent,
            trades_done: self.trades_done,
            net_position: self.net,
            cash_flow_ticks: self.cash_flow_ticks,
            gaps_in_window: self.gap_log.len(),
        }
    }

    fn latch(&mut self, reason: HaltReason) -> (d: Decision)
        requires
            old(self).wf(),
        ensures
            final(self).wf(),
            final(self).config() == old(self).config(),
            final(self)@ == latched(old(self)@, reason),
            d == Decision::Block(final(self)@.halt->0),
    {
        match self.reason {
            Some(r) => Decision::Block(r),
            None => {
                self.reason = Some(reason);
                Decision::Block(reason)
            },
        }
    }
}

// ─── Laws ───────────────────────────────────────────────────────────

/// What can happen to a breaker between two recoveries.
pub enum BreakerEvent {
    Check(Intent, u64),
    Filled(Fill),
    Gap(u64),
    Manual,
}

/// One such event.
pub open spec fn breaker_step(cfg: BreakerConfig, m: BreakerModel, e: BreakerEvent) -> BreakerModel {
    match e {
        BreakerEvent::Check(i, now) => check_outcome(cfg, m, i, now).0,
        BreakerEvent::Filled(f) => filled(m, f),
        BreakerEvent::Gap(now) => gapped(cfg, m, now),
        BreakerEvent::Manual => latched(m, HaltReason::Manual),
    }
}

/// A run of such events.
pub open spec fn breaker_run(
    cfg: BreakerConfig,
    m: BreakerModel,
    es: Seq<BreakerEvent>,
) -> BreakerModel
    decreases es.len(),
{
    if es.len() == 0 {
        m
    } else {
        breaker_step(cfg, breaker_run(cfg, m, es.drop_last()), es.last())
    }
}

/// Fail closed: once halted, whatever happens short of a recovery, the breaker
/// keeps its reason and blocks every order with it.
pub proof fn breaker_stays_halted(
    cfg: BreakerConfig,
    m: BreakerModel,
    es: Seq<BreakerEvent>,
    i: Intent,
    now: u64,
)
    requires
        m.halt is Some,
    ensures
        breaker_run(cfg, m, es).halt == m.halt,
        check_outcome(cfg, breaker_run(cfg, m, es), i, now) == (
            breaker_run(cfg, m, es),
            Decision::Block(m.halt->0),
        ),
    decreases es.len(),
{
    if es.len() > 0 {
        breaker_stays_halted(cfg, m, es.drop_last(), i, now);
    }
}

/// A blocked order always leaves the breaker halted for the reason given, and
/// is never counted as sent.
pub proof fn blocked_means_halted(cfg: BreakerConfig, m: BreakerModel, i: Intent, now: u64)
    ensures
        check_outcome(cfg, m, i, now).1 matches Decision::Block(r) ==> {
            &&& check_outcome(cfg, m, i, now).0.halt == Some(r)
            &&& check_outcome(cfg, m, i, now).0.orders == m.orders
        },
{
}

/// An allowed order passed every guard: it was within the rate, keeps the
/// position within its cap, and found the cash flow and the order-to-trade
/// ratio within their limits.
pub proof fn allowed_means_all_guards_pass(cfg: BreakerConfig, m: BreakerModel, i: Intent, now: u64)
    requires
        check_outcome(cfg, m, i, now).1 == Decision::Allow,
    ensures
        m.halt is None,
        !over_rate(cfg, m, now),
        !over_position(cfg, m, i),
        !below_floor(cfg, m),
        !over_otr(cfg, m),
        check_outcome(cfg, m, i, now).0.halt is None,
{
}

/// A new day after a reset is the same new day, and it always allows again
/// whatever was halted before.
pub proof fn new_day_clears_the_latch(m: BreakerModel)
    ensures
        fresh_day(m).halt is None,
        fresh_day(BreakerModel { halt: None, ..m }) == fresh_day(m),
        fresh_day(fresh_day(m)) == fresh_day(m),
        forall|k: u32| position(fresh_day(m), k) == 0,
{
}

/// The position after an order, as if it were filled: what is held and what it buys, or
/// less what it sells.
pub open spec fn held_after(m: BreakerModel, i: Intent, after: int) -> bool {
    let held = if m.positions.contains_key(i.instrument_id) {
        m.positions[i.instrument_id] as int
    } else {
        0
    };
    &&& i.side == Side::Buy ==> after == held + i.qty
    &&& i.side == Side::Sell ==> after == held - i.qty
}

/// An allowed order never takes a position beyond the cap, long or short; and one that
/// would is blocked, whatever the other guards say.
pub proof fn positions_stay_within_the_cap(cfg: BreakerConfig, m: BreakerModel, i: Intent, now: u64, after: int)
    requires
        held_after(m, i, after),
        cfg.max_position is Some,
    ensures
        check_outcome(cfg, m, i, now).1 == Decision::Allow ==> -cfg.max_position->0 <= after <= cfg.max_position->0,
        after > cfg.max_position->0 || after < -cfg.max_position->0 ==> check_outcome(cfg, m, i, now).1 is Block,
        check_outcome(cfg, m, i, now).1 == Decision::Block(HaltReason::PositionCap) && m.halt is None ==> after
            > cfg.max_position->0 || after < -cfg.max_position->0,
{
}

/// Two breakers that differ in the sign of every position.
pub open spec fn mirrored(m: BreakerModel, n: BreakerModel) -> bool {
    &&& n == (BreakerModel { positions: n.positions, ..m })
    &&& n.positions.dom() == m.positions.dom()
    &&& forall|k: u32| #[trigger] m.positions.contains_key(k) ==> n.positions[k] == -m.positions[k]
}

/// Long and short weigh the same: with every position and the side of the order
/// negated, a check ends the same way.
pub proof fn checks_do_not_take_sides(
    cfg: BreakerConfig,
    m: BreakerModel,
    n: BreakerModel,
    i: Intent,
    j: Intent,
    now: u64,
)
    requires
        mirrored(m, n),
        j.instrument_id == i.instrument_id,
        j.qty == i.qty,
        i.side == Side::Buy <==> j.side == Side::Sell,
    ensures
        check_outcome(cfg, m, i, now).1 == check_outcome(cfg, n, j, now).1,
        check_outcome(cfg, m, i, now).0.halt == check_outcome(cfg, n, j, now).0.halt,
{
    let k = i.instrument_id;
    assert(m.positions.contains_key(k) <==> n.positions.contains_key(k)) by {
        assert(m.positions.dom().contains(k) <==> n.positions.dom().contains(k));
    }
}

/// With nothing halted and no guard against it an order is allowed: a rate that has a
/// token left, a position within the cap, no loss beyond the floor, and no more orders
/// per trade than the limit, or too few orders to tell. It counts as sent. With any
/// guard against it it is blocked.
pub proof fn checks_allow_exactly_what_the_limits_allow(
    cfg: BreakerConfig,
    m: BreakerModel,
    i: Intent,
    now: u64,
    after: int,
)
    requires
        held_after(m, i, after),
    ensures
        ({
            let o = check_outcome(cfg, m, i, now);
            let trades = if m.trades == 0 { 1int } else { m.trades as int };
            let since = if now >= m.refilled_ns { now - m.refilled_ns } else { 0 };
            let rate_ok = cfg.max_orders_per_sec matches Some(r) ==> m.tokens + since * r >= 1_000_000_000
                && r >= 1;
            let position_ok = cfg.max_position matches Some(cap) ==> -cap <= after <= cap;
            let loss_ok = cfg.max_daily_loss_ticks matches Some(floor) ==> m.cash >= -floor;
            let otr_ok = cfg.max_order_to_trade_ratio matches Some(l) ==> m.orders < cfg.otr_warmup || m.orders
                * l.den <= l.num * trades;
            &&& o.1 == Decision::Allow <==> m.halt is None && rate_ok && position_ok && loss_ok && otr_ok
            &&& o.1 == Decision::Allow ==> o.0.halt is None && o.0.orders == m.orders.wrapping_add(1)
            &&& m.halt is None && !rate_ok ==> o.1 == Decision::Block(HaltReason::RateLimit)
            &&& m.halt is None && rate_ok && !position_ok ==> o.1 == Decision::Block(HaltReason::PositionCap)
            &&& m.halt is None && rate_ok && position_ok && !loss_ok ==> o.1 == Decision::Block(
                HaltReason::DailyLossFloor,
            )
            &&& m.halt is None && rate_ok && position_ok && loss_ok && !otr_ok ==> o.1 == Decision::Block(
                HaltReason::OrderToTradeRatio,
            )
            &&& m.halt matches Some(r) ==> o == (m, Decision::Block(r))
            &&& o.0.trades == m.trades
            &&& o.0.cash == m.cash
            &&& o.0.positions == m.positions
            &&& o.0.net == m.net
            &&& o.0.gaps == m.gaps
        }),
{
}

/// What a fill does: the position in its instrument grows by what was bought or falls
/// by what was sold, and no other; money is spent on a buy and comes in on a sell, at
/// the price of the fill; and it counts as one trade.
pub proof fn fills_are_booked(m: BreakerModel, f: Fill, k: u32)
    requires
        fill_fits(m, f),
        f.price_ticks <= i64::MAX,
    ensures
        ({
            let n = filled(m, f);
            let held = if m.positions.contains_key(f.instrument_id) {
                m.positions[f.instrument_id] as int
            } else {
                0
            };
            &&& n.positions.contains_key(f.instrument_id)
            &&& f.side == Side::Buy ==> {
                &&& n.positions[f.instrument_id] == held + f.qty
                &&& n.net == m.net + f.qty
                &&& n.cash == m.cash - f.qty * f.price_ticks
            }
            &&& f.side == Side::Sell ==> {
                &&& n.positions[f.instrument_id] == held - f.qty
                &&& n.net == m.net - f.qty
                &&& n.cash == m.cash + f.qty * f.price_ticks
            }
            &&& k != f.instrument_id ==> (n.positions.contains_key(k) <==> m.positions.contains_key(k)) && (
            m.positions.contains_key(k) ==> n.positions[k] == m.positions[k])
            &&& n.trades == m.trades.wrapping_add(1)
            &&& n.orders == m.orders
            &&& n.halt == m.halt
        }),
{
    let (q, p) = (f.qty as int, f.price_ticks as int);
    assert(f.price_ticks as i64 == p);
    assert(-q * p == -(q * p) && -(-q) * p == q * p) by (nonlinear_arith);
}

/// Buying and selling the same at one price leaves position, net and cash as they were.
pub proof fn a_round_trip_leaves_nothing(m: BreakerModel, f: Fill, g: Fill)
    requires
        fill_fits(m, f),
        fill_fits(filled(m, f), g),
        f.price_ticks <= i64::MAX,
        g.instrument_id == f.instrument_id,
        g.qty == f.qty,
        g.price_ticks == f.price_ticks,
        f.side != g.side,
    ensures
        filled(filled(m, f), g).net == m.net,
        filled(filled(m, f), g).cash == m.cash,
        position(filled(filled(m, f), g), f.instrument_id) == position(m, f.instrument_id),
        filled(filled(m, f), g).trades == m.trades.wrapping_add(1).wrapping_add(1),
{
    fills_are_booked(m, f, 0);
    fills_are_booked(filled(m, f), g, 0);
}

/// How many of some orders are allowed, and the breaker afterwards, each with its time.
pub open spec fn checked(cfg: BreakerConfig, m: BreakerModel, s: Seq<(Intent, u64)>) -> (BreakerModel, nat)
    decreases s.len(),
{
    if s.len() == 0 {
        (m, 0)
    } else {
        let (n, c) = checked(cfg, m, s.drop_last());
        let (o, d) = check_outcome(cfg, n, s.last().0, s.last().1);
        (
            o,
            c + if d == Decision::Allow {
                1nat
            } else {
                0
            },
        )
    }
}

/// Over any time no more orders are allowed than the rate permits: what the bucket held
/// at the start, one second's worth at most, and the rate times the time that passed.
pub proof fn allowed_orders_keep_the_rate(
    cfg: BreakerConfig,
    m: BreakerModel,
    s: Seq<(Intent, u64)>,
    rate: u32,
    until: u64,
)
    requires
        cfg.max_orders_per_sec == Some(rate),
        m.refilled_ns <= until,
        forall|i: int| 0 <= i < s.len() ==> m.refilled_ns <= (#[trigger] s[i]).1 <= until,
        forall|i: int, j: int| 0 <= i <= j < s.len() ==> (#[trigger] s[i]).1 <= (#[trigger] s[j]).1,
        m.tokens <= rate * 1_000_000_000,
    ensures
        checked(cfg, m, s).1 * 1_000_000_000 <= m.tokens + (until - m.refilled_ns) * rate,
        checked(cfg, m, s).1 * 1_000_000_000 <= rate * 1_000_000_000 + (until - m.refilled_ns) * rate,
{
    lemma_tokens_pay(cfg, m, s, rate);
    let (n, c) = checked(cfg, m, s);
    let r = rate as int;
    assert((n.refilled_ns - m.refilled_ns) * r <= (until - m.refilled_ns) * r) by (nonlinear_arith)
        requires
            n.refilled_ns - m.refilled_ns <= until - m.refilled_ns,
            r >= 0,
    ;
}

proof fn lemma_tokens_pay(cfg: BreakerConfig, m: BreakerModel, s: Seq<(Intent, u64)>, rate: u32)
    requires
        cfg.max_orders_per_sec == Some(rate),
        forall|i: int| 0 <= i < s.len() ==> m.refilled_ns <= (#[trigger] s[i]).1,
        forall|i: int, j: int| 0 <= i <= j < s.len() ==> (#[trigger] s[i]).1 <= (#[trigger] s[j]).1,
    ensures
        ({
            let (n, c) = checked(cfg, m, s);
            &&& n.tokens + c * 1_000_000_000 <= m.tokens + (n.refilled_ns - m.refilled_ns) * rate
            &&& m.refilled_ns <= n.refilled_ns
            &&& n.refilled_ns == m.refilled_ns || (s.len() > 0 && n.refilled_ns <= s.last().1)
        }),
    decreases s.len(),
{
    let r = rate as int;
    if s.len() == 0 {
        assert((m.refilled_ns - m.refilled_ns) * r == 0) by (nonlinear_arith);
    } else {
        let d = s.drop_last();
        assert forall|i: int| 0 <= i < d.len() implies m.refilled_ns <= (#[trigger] d[i]).1 by {
            assert(d[i] == s[i]);
        }
        assert forall|i: int, j: int| 0 <= i <= j < d.len() implies (#[trigger] d[i]).1 <= (#[trigger] d[j]).1 by {
            assert(d[i] == s[i] && d[j] == s[j]);
        }
        lemma_tokens_pay(cfg, m, d, rate);
        let (n, c) = checked(cfg, m, d);
        let now = s[s.len() - 1].1;
        if d.len() > 0 {
            assert(s[s.len() - 2].1 <= s[s.len() - 1].1);
        }
        let a = (n.refilled_ns - m.refilled_ns) as int;
        let b = (now - n.refilled_ns) as int;
        assert(a * r + b * r == (a + b) * r) by (nonlinear_arith);
    }
}

/// Whoever waits long enough is not over the rate.
pub proof fn waiting_earns_a_token(cfg: BreakerConfig, m: BreakerModel, i: Intent, now: u64, rate: u32)
    requires
        cfg.max_orders_per_sec == Some(rate),
        m.halt is None,
        rate >= 1,
        now >= m.refilled_ns,
        (now - m.refilled_ns) * rate >= 1_000_000_000,
    ensures
        check_outcome(cfg, m, i, now).1 != Decision::Block(HaltReason::RateLimit),
{
    checks_allow_exactly_what_the_limits_allow(cfg, m, i, now, position(m, i.instrument_id) + signed(i.side, i.qty));
}

/// A breaker after gaps at these times.
pub open spec fn gapped_at(cfg: BreakerConfig, m: BreakerModel, times: Seq<u64>) -> BreakerModel
    decreases times.len(),
{
    if times.len() == 0 {
        m
    } else {
        gapped(cfg, gapped_at(cfg, m, times.drop_last()), times.last())
    }
}

/// How many of the times lie no further back than the window.
pub open spec fn within_window(times: Seq<u64>, now: u64, window: u64) -> nat
    decreases times.len(),
{
    if times.len() == 0 {
        0
    } else {
        within_window(times.drop_last(), now, window) + if now - times.last() <= window {
            1nat
        } else {
            0
        }
    }
}

proof fn lemma_recent_counts(log: Seq<u64>, now: u64, window: u64)
    ensures
        recent(log, now, window).len() == within_window(log, now, window),
    decreases log.len(),
{
    if log.len() > 0 {
        lemma_recent_counts(log.drop_last(), now, window);
    }
}

proof fn lemma_recent_again(log: Seq<u64>, then_: u64, now: u64, window: u64)
    requires
        then_ <= now,
    ensures
        recent(recent(log, then_, window), now, window) == recent(log, now, window),
    decreases log.len(),
{
    if log.len() > 0 {
        let d = log.drop_last();
        lemma_recent_again(d, then_, now, window);
        let a = recent(log, then_, window);
        if log.last() + window >= then_ {
            assert(a.drop_last() =~= recent(d, then_, window));
        }
    }
}

proof fn lemma_gap_log(cfg: BreakerConfig, m: BreakerModel, times: Seq<u64>)
    requires
        m.gaps.len() == 0,
        cfg.gap_threshold is Some,
        times.len() > 0,
        forall|i: int, j: int| 0 <= i <= j < times.len() ==> #[trigger] times[i] <= #[trigger] times[j],
    ensures
        gapped_at(cfg, m, times).gaps == recent(times, times.last(), cfg.gap_window_ns),
    decreases times.len(),
{
    let d = times.drop_last();
    let now = times.last();
    let w = cfg.gap_window_ns;
    if d.len() > 0 {
        assert forall|i: int, j: int| 0 <= i <= j < d.len() implies #[trigger] d[i] <= #[trigger] d[j] by {
            assert(d[i] == times[i] && d[j] == times[j]);
        }
        lemma_gap_log(cfg, m, d);
        assert(times[times.len() - 2] <= times[times.len() - 1]);
        lemma_recent_again(d, d.last(), now, w);
    } else {
        assert(d =~= Seq::<u64>::empty());
        assert(gapped_at(cfg, m, d).gaps =~= Seq::<u64>::empty());
        assert(recent(d, now, w) =~= Seq::<u64>::empty());
        assert(recent(gapped_at(cfg, m, d).gaps, now, w) =~= Seq::<u64>::empty());
    }
}

/// Gaps halt a breaker exactly when as many as the threshold lie within the window, the
/// latest of them included: gaps that are further back do not count, and none within it
/// is forgotten.
pub proof fn gaps_halt_by_the_window(cfg: BreakerConfig, m: BreakerModel, times: Seq<u64>)
    requires
        m.gaps.len() == 0,
        cfg.gap_threshold is Some,
        times.len() > 0,
        gapped_at(cfg, m, times.drop_last()).halt is None,
        forall|i: int, j: int| 0 <= i <= j < times.len() ==> #[trigger] times[i] <= #[trigger] times[j],
    ensures
        ({
            let n = gapped_at(cfg, m, times);
            let seen = within_window(times, times.last(), cfg.gap_window_ns);
            &&& n.gaps.len() == seen
            &&& seen >= cfg.gap_threshold->0 ==> n.halt == Some(HaltReason::FeedGap)
            &&& seen < cfg.gap_threshold->0 ==> n.halt is None
        }),
{
    lemma_gap_log(cfg, m, times);
    lemma_recent_counts(times, times.last(), cfg.gap_window_ns);
}

/// A reason that is latched is the first: a later one changes nothing.
pub proof fn the_first_reason_stays(m: BreakerModel, a: HaltReason, b: HaltReason)
    requires
        m.halt is None,
    ensures
        latched(m, a).halt == Some(a),
        latched(latched(m, a), b) == latched(m, a),
        latched(m, a).orders == m.orders,
        latched(m, a).tokens == m.tokens,
        latched(m, a).positions == m.positions,
{
}

/// A new day begins with nothing held, sent, traded, earned or logged, and with the
/// tokens that were left.
pub proof fn a_new_day_begins_with_nothing(m: BreakerModel)
    ensures
        fresh_day(m).orders == 0,
        fresh_day(m).trades == 0,
        fresh_day(m).cash == 0,
        fresh_day(m).net == 0,
        fresh_day(m).positions == Map::<u32, i64>::empty(),
        fresh_day(m).gaps.len() == 0,
        fresh_day(m).tokens == m.tokens,
        fresh_day(m).refilled_ns == m.refilled_ns,
{
}

/// What holds unless other limits are given: five thousand orders a second, ten thousand
/// held, five thousand million ticks lost, a hundred orders for each trade once there were a
/// hundred orders, and sixteen gaps within a minute.
pub proof fn limits_unless_others_are_given()
    ensures
        ({
            let l = default_limits();
            &&& l.max_orders_per_sec == Some(5_000u32)
            &&& l.max_position matches Some(p) && p == 10_000
            &&& l.max_daily_loss_ticks matches Some(x) && x == 5_000_000_000
            &&& l.max_order_to_trade_ratio matches Some(r) && r.den > 0 && r.num == 100 * r.den
            &&& l.otr_warmup == 100
            &&& l.gap_threshold matches Some(g) && g == 16
            &&& l.gap_window_ns == 60 * 1_000_000_000
        }),
{
}

/// A breaker begins with nothing held, counted, lost or halted, and with a full second of
/// orders to spend, or as many as can be counted where no rate is set. What is spent is
/// measured in thousand millionths of an order, one for each nanosecond and order a second.
pub proof fn breakers_begin_full(cfg: BreakerConfig, now_ns: u64)
    ensures
        ({
            let m = fresh_breaker(cfg, now_ns);
            &&& m.halt is None && m.orders == 0 && m.trades == 0 && m.cash == 0 && m.net == 0 && m.gaps.len() == 0
            &&& forall|id: u32| !#[trigger] m.positions.contains_key(id)
            &&& m.refilled_ns == now_ns
            &&& cfg.max_orders_per_sec matches Some(r) ==> m.tokens == r * 1_000_000_000
            &&& cfg.max_orders_per_sec is None ==> m.tokens == u32::MAX * 1_000_000_000
        }),
{
}

} // verus!
