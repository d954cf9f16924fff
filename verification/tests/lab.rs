use flowlab::book::event::{Event, EventType, SequencedEvent, Side};
use flowlab::book::orderbook::OrderBook;
use flowlab::chaos::cancellation_storm::{RateSample, StormVerdict};
use flowlab::chaos::chain::ChaosChain;
use flowlab::chaos::flag::ChaosKind;
use flowlab::lab::executor::{ExecutorConfig, StrategyExecutor};
use flowlab::lab::strategy::{Fill, StormJudge, Strategy, StrategyOrder};
use flowlab::ratio::Ratio;

/// Never trades, never has profit or inventory.
struct NoopStrat;

impl Strategy for NoopStrat {
    fn name(&self) -> String {
        "noop".to_string()
    }
    fn on_event(&mut self, _ev: &SequencedEvent, _book: &OrderBook) -> Vec<StrategyOrder> {
        Vec::new()
    }
    fn on_fill(&mut self, _fill: &Fill) {}
    fn pnl(&self) -> i64 {
        0
    }
    fn inventory(&self) -> i64 {
        0
    }
}

fn ev(
    seq: u64,
    ts: u64,
    etype: EventType,
    side: Side,
    price: u64,
    qty: u64,
    order_id: u64,
) -> SequencedEvent {
    SequencedEvent {
        seq,
        channel_id: 0,
        event: Event {
            ts,
            price,
            qty,
            order_id,
            instrument_id: 1,
            event_type: etype.code(),
            side: side.code(),
            _pad: [0; 2],
        },
    }
}

/// Running mean and deviation of the usual rates of cancels.
struct Baseline {
    n: u64,
    mean: f64,
    m2: f64,
    sigma_floor: f64,
    k_sigma: f64,
}

impl Baseline {
    fn new(sigma_floor: f64, k_sigma: f64) -> Self {
        Self { n: 0, mean: 0.0, m2: 0.0, sigma_floor, k_sigma }
    }

    fn update(&mut self, r: RateSample) {
        let x = r.cancels as f64 / r.total as f64;
        self.n += 1;
        let delta = x - self.mean;
        self.mean += delta / self.n as f64;
        self.m2 += delta * (x - self.mean);
    }

    fn sigma(&self) -> f64 {
        let s = if self.n < 2 { 0.0 } else { (self.m2 / (self.n - 1) as f64).sqrt() };
        s.max(self.sigma_floor)
    }

    fn threshold(&self) -> f64 {
        self.mean + self.k_sigma * self.sigma()
    }

    fn verdict(&self, r: Option<RateSample>) -> StormVerdict {
        match r {
            None => StormVerdict { above: false, severity: Ratio::new(0, 1) },
            Some(r) => {
                let rate = r.cancels as f64 / r.total as f64;
                let z = ((rate - self.mean) / self.sigma()).max(0.0);
                let severity = (z / (z + 3.0)).clamp(0.0, 1.0);
                StormVerdict {
                    above: rate > self.threshold(),
                    severity: Ratio::new((severity * 1e6) as u32, 1_000_000),
                }
            }
        }
    }
}

impl StormJudge for Baseline {
    fn judge(&mut self, rate: Option<RateSample>) -> StormVerdict {
        self.verdict(rate)
    }
    fn learn(&mut self, rate: RateSample) {
        self.update(rate);
    }
}

fn judge() -> Baseline {
    Baseline::new(0.05, 4.0)
}

/// Without a chain attached, the report has empty chaos fields.
#[test]
fn no_chain_means_empty_chaos_fields() {
    let mut exec = StrategyExecutor::new(ExecutorConfig::default());
    let mut book = OrderBook::new(1);
    let mut strat = NoopStrat;
    let events: Vec<SequencedEvent> = (1u64..=20)
        .map(|i| ev(i, i * 1_000, EventType::OrderAdd, Side::Bid, 10_000, 100, i))
        .collect();

    let report = exec.run(&mut strat, &mut judge(), &events, &mut book);
    assert_eq!(report.events_processed, 20);
    assert!(report.chaos_events.is_empty());
    assert!(report.chaos_counts.is_empty());
}

/// With a chain attached, a crafted phantom-liquidity cycle
/// surfaces in `report.chaos_events` and the per-kind counts
/// reflect the same flag.
#[test]
fn chain_attached_surfaces_phantom_event() {
    let mut exec = StrategyExecutor::new(ExecutorConfig::default())
        .with_chaos_chain(ChaosChain::default_itch());
    let mut book = OrderBook::new(1);
    let mut strat = NoopStrat;

    // Big add then quick full cancel = textbook phantom cycle.
    // Same order_id on both events so the phantom detector links
    // the cancel back to the original add.
    let events = vec![
        ev(1, 1_000, EventType::OrderAdd, Side::Bid, 10_000, 1_000, 42),
        ev(5, 5_000, EventType::OrderCancel, Side::Bid, 10_000, 1_000, 42),
    ];

    let report = exec.run(&mut strat, &mut judge(), &events, &mut book);
    assert_eq!(report.events_processed, 2);
    assert_eq!(report.chaos_counts.len(), 5, "all five kinds reported");
    let phantom_count = report
        .chaos_counts
        .iter()
        .find(|(k, _)| *k == ChaosKind::PhantomLiquidity)
        .map(|(_, c)| *c)
        .unwrap_or(0);
    assert!(
        phantom_count >= 1,
        "phantom liquidity should fire: counts={:?}",
        report.chaos_counts
    );
    assert!(
        report
            .chaos_events
            .iter()
            .any(|e| e.kind == ChaosKind::PhantomLiquidity),
        "phantom event missing from report.chaos_events"
    );
}

/// Its profit follows a script.
struct Scripted {
    pnls: Vec<i64>,
    seen: usize,
}

impl Strategy for Scripted {
    fn name(&self) -> String {
        "scripted".to_string()
    }
    fn on_event(&mut self, ev: &SequencedEvent, book: &OrderBook) -> Vec<StrategyOrder> {
        assert_eq!(book.best_bid(), Some(ev.event.price));
        self.seen += 1;
        Vec::new()
    }
    fn on_fill(&mut self, _fill: &Fill) {}
    fn pnl(&self) -> i64 {
        self.pnls[self.seen.saturating_sub(1)]
    }
    fn inventory(&self) -> i64 {
        self.seen as i64
    }
}

fn rising(n: u64) -> Vec<SequencedEvent> {
    (1..=n).map(|i| ev(i, i * 1_000, EventType::OrderAdd, Side::Bid, 100 + i, 10, i)).collect()
}

#[test]
fn drawdown_is_the_deepest_fall_from_the_peak() {
    let mut exec = StrategyExecutor::new(ExecutorConfig::default());
    let mut strat = Scripted { pnls: vec![5, 20, 12, 25, 4, 30], seen: 0 };
    let report = exec.run(&mut strat, &mut judge(), &rising(6), &mut OrderBook::new(1));
    assert_eq!(report.max_drawdown, 21);
    assert_eq!((report.final_pnl, report.final_inventory, report.fills), (30, 6, 0));
    assert_eq!(report.strategy_name, "scripted");
}

#[test]
fn losses_from_the_start_count() {
    let mut exec = StrategyExecutor::new(ExecutorConfig::default());
    let mut strat = Scripted { pnls: vec![-3, -9, -1], seen: 0 };
    let report = exec.run(&mut strat, &mut judge(), &rising(3), &mut OrderBook::new(1));
    assert_eq!(report.max_drawdown, 9);
    exec.note_pnl(i64::MAX);
    exec.note_pnl(i64::MIN);
    let mut idle = Scripted { pnls: vec![0], seen: 0 };
    let after = exec.run(&mut idle, &mut judge(), &[], &mut OrderBook::new(1));
    assert_eq!(after.max_drawdown, u64::MAX);
    assert_eq!(after.events_processed, 0);
}

#[test]
fn runs_go_on_where_the_last_one_ended() {
    let chain = ChaosChain::default_itch();
    let mut exec = StrategyExecutor::new(ExecutorConfig::default()).with_chaos_chain(chain);
    let mut book = OrderBook::new(1);
    let mut strat = NoopStrat;
    let mut j = judge();
    let add = ev(1, 1_000, EventType::OrderAdd, Side::Bid, 10_000, 1_000, 42);
    let cancel = ev(5, 5_000, EventType::OrderCancel, Side::Bid, 10_000, 1_000, 42);
    let first = exec.run(&mut strat, &mut j, &[add], &mut book);
    assert!(first.chaos_events.is_empty());
    let second = exec.run(&mut strat, &mut j, &[cancel], &mut book);
    let kinds: Vec<ChaosKind> = second.chaos_counts.iter().map(|c| c.0).collect();
    assert_eq!(
        kinds,
        vec![
            ChaosKind::PhantomLiquidity,
            ChaosKind::CancellationStorm,
            ChaosKind::MomentumIgnition,
            ChaosKind::FlashCrash,
            ChaosKind::LatencyArbitrage,
        ]
    );
    assert_eq!(second.chaos_counts[0].1, 1);
    assert_eq!(exec.chaos_counts(), second.chaos_counts);
}

/// Writes down what it is shown.
struct Witness {
    seen: Vec<(u64, Option<u64>)>,
}

impl Strategy for Witness {
    fn name(&self) -> String {
        "witness".to_string()
    }
    fn on_event(&mut self, ev: &SequencedEvent, book: &OrderBook) -> Vec<StrategyOrder> {
        self.seen.push((ev.seq, book.best_bid()));
        Vec::new()
    }
    fn on_fill(&mut self, _fill: &Fill) {
        panic!("nothing is filled");
    }
    fn pnl(&self) -> i64 {
        10 - self.seen.len() as i64
    }
    fn inventory(&self) -> i64 {
        0
    }
}

/// Writes down the rates that it is shown.
struct Clerk {
    shown: Vec<Option<RateSample>>,
    learnt: usize,
}

impl StormJudge for Clerk {
    fn judge(&mut self, rate: Option<RateSample>) -> StormVerdict {
        self.shown.push(rate);
        StormVerdict { above: false, severity: Ratio::new(0, 1) }
    }
    fn learn(&mut self, _rate: RateSample) {
        self.learnt += 1;
    }
}

/// Strategy and judge see every event once, in order; the strategy with the book
/// that the event left.
#[test]
fn every_event_is_shown_once_and_in_order() {
    let events = rising(600);
    let mut strat = Witness { seen: Vec::new() };
    let mut clerk = Clerk { shown: Vec::new(), learnt: 0 };
    let mut exec = StrategyExecutor::new(ExecutorConfig::default())
        .with_chaos_chain(ChaosChain::default_itch());
    let report = exec.run(&mut strat, &mut clerk, &events, &mut OrderBook::new(1));
    let want: Vec<(u64, Option<u64>)> =
        events.iter().map(|e| (e.seq, Some(e.event.price))).collect();
    assert_eq!(strat.seen, want);
    assert_eq!(clerk.shown.len(), events.len());
    assert_eq!(clerk.shown.iter().flatten().count(), clerk.learnt);
    assert!(clerk.learnt > 0);
    assert_eq!((report.final_pnl, report.max_drawdown), (-590, 599));

    let mut plain = StrategyExecutor::new(ExecutorConfig::default());
    let mut clerk = Clerk { shown: Vec::new(), learnt: 0 };
    plain.run(&mut strat, &mut clerk, &events, &mut OrderBook::new(1));
    assert!(clerk.shown.iter().all(|r| r.is_none()) && clerk.learnt == 0);
}
