use flowlab::book::event::{Event, EventType, Side};
use flowlab::book::hot_book::HotOrderBook;
use flowlab::flow::circuit_breaker::{
    BreakerConfig, CircuitBreaker, Decision, Fill, HaltReason, Intent, Side as Way,
};
use flowlab::flow::imbalance::{book_imbalance, depth_snapshot};
use flowlab::flow::impact::{Impact, ImpactTracker};
use flowlab::flow::regime::Regime;
use flowlab::flow::spread::SpreadTracker;
use flowlab::flow::vpin::VpinCalculator;
use flowlab::ratio::{Fraction, Ratio, SignedFraction};

fn event(kind: EventType, side: Side, price: u64, qty: u64, order_id: u64) -> Event {
    Event {
        ts: 0,
        price,
        qty,
        order_id,
        instrument_id: 1,
        event_type: kind.code(),
        side: side.code(),
        _pad: [0; 2],
    }
}

fn trade(side: Side, price: u64, qty: u64) -> Event {
    event(EventType::Trade, side, price, qty, 0)
}

fn value(f: Fraction) -> f64 {
    f.num as f64 / f.den as f64
}

fn quoted(bid: u64, bid_qty: u64, ask: u64, ask_qty: u64) -> HotOrderBook<8> {
    let mut book = HotOrderBook::<8>::new(1);
    book.apply(&event(EventType::OrderAdd, Side::Bid, bid, bid_qty, 1));
    book.apply(&event(EventType::OrderAdd, Side::Ask, ask, ask_qty, 2));
    book
}

#[test]
fn ratios_compare_by_cross_multiplication() {
    let third = Ratio::new(1, 3);
    assert!(third.is_reached_by(1, 3));
    assert!(!third.is_exceeded_by(1, 3));
    assert!(third.is_exceeded_by(2, 5));
    assert!(!third.is_reached_by(1, 4));
    assert!(Ratio::new(u32::MAX, 1).is_reached_by(u64::MAX, 1));
}

#[test]
fn vpin_of_one_sided_flow_is_one() {
    let mut v = VpinCalculator::new(100, 3);
    assert_eq!(v.process_trade(&trade(Side::Bid, 10, 60)), None);
    let full = v.process_trade(&trade(Side::Bid, 10, 40)).unwrap();
    assert_eq!(value(full), 1.0);
    assert_eq!(value(v.vpin()), 1.0);
}

#[test]
fn vpin_of_unknown_flow_is_split() {
    let mut v = VpinCalculator::new(100, 3);
    let even = v.process_trade_signed(100, 0).unwrap();
    assert_eq!(value(even), 0.0);
    let half = v.process_trade_signed(100, 1).unwrap();
    assert_eq!(value(half), 0.5);
}

#[test]
fn vpin_ignores_other_events() {
    let mut v = VpinCalculator::new(10, 2);
    assert_eq!(v.process_trade(&event(EventType::OrderAdd, Side::Bid, 10, 1_000, 1)), None);
    assert_eq!(value(v.vpin()), 0.0);
}

#[test]
fn spread_blows_out_against_its_mean() {
    let mut t = SpreadTracker::new(4);
    for _ in 0..3 {
        let m = t.record(&quoted(100, 1, 102, 1)).unwrap();
        assert_eq!(m.current, 2);
    }
    let wide = t.record(&quoted(100, 1, 110, 1)).unwrap();
    assert_eq!(wide.current, 10);
    assert_eq!(value(wide.mean), 4.0);
    assert_eq!(value(wide.blowout_ratio), 2.5);
    assert!(t.record(&HotOrderBook::<8>::new(1)).is_none());
}

#[test]
fn imbalance_runs_from_minus_one_to_one() {
    assert_eq!(book_imbalance(&HotOrderBook::<8>::new(1), 5), SignedFraction { num: 0, den: 1 });
    let even = book_imbalance(&quoted(100, 30, 101, 10), 5);
    assert_eq!(even.num as f64 / even.den as f64, 0.5);
    let mut lone = HotOrderBook::<8>::new(1);
    lone.apply(&event(EventType::OrderAdd, Side::Ask, 101, 10, 2));
    let all = book_imbalance(&lone, 5);
    assert_eq!(all.num as f64 / all.den as f64, -1.0);
    let s = depth_snapshot(&quoted(100, 30, 101, 10), 5);
    assert_eq!((s.bid_depth, s.ask_depth, s.bid_levels, s.ask_levels), (30, 10, 1, 1));
}

#[test]
fn impact_is_price_move_per_unit() {
    let mut t = ImpactTracker::new(2);
    assert_eq!(t.process_trade(&trade(Side::Bid, 100, 10)), None);
    assert_eq!(t.process_trade(&trade(Side::Bid, 104, 8)), Some(Impact { price_move: 4, qty: 8 }));
    assert_eq!(t.process_trade(&trade(Side::Bid, 101, 3)), Some(Impact { price_move: 3, qty: 3 }));
    assert_eq!(t.process_trade(&trade(Side::Bid, 90, 0)), Some(Impact { price_move: 0, qty: 1 }));
    assert_eq!(
        t.impacts(),
        vec![Impact { price_move: 3, qty: 3 }, Impact { price_move: 0, qty: 1 }]
    );
    assert_eq!(t.process_trade(&event(EventType::OrderAdd, Side::Bid, 1, 1, 1)), None);
}

#[test]
fn the_highest_threshold_counts() {
    assert_eq!(Regime::from_thresholds(false, false, false), Regime::Calm);
    assert_eq!(Regime::from_thresholds(true, false, false), Regime::Volatile);
    assert_eq!(Regime::from_thresholds(true, true, false), Regime::Aggressive);
    assert_eq!(Regime::from_thresholds(false, false, true), Regime::Crisis);
    assert_eq!(Regime::Crisis.code(), 3);
    assert!(Regime::Calm < Regime::Crisis);
}

fn intent(side: Way, qty: u32) -> Intent {
    Intent { instrument_id: 1, side, qty, price_ticks: 100 }
}

#[test]
fn tokens_come_back_with_time() {
    let cfg = BreakerConfig { max_orders_per_sec: Some(2), ..BreakerConfig::default() };
    let mut cb = CircuitBreaker::new(cfg, 0);
    assert_eq!(cb.check(&intent(Way::Buy, 1), 0), Decision::Allow);
    assert_eq!(cb.check(&intent(Way::Buy, 1), 0), Decision::Allow);
    assert_eq!(cb.check(&intent(Way::Buy, 1), 500_000_000), Decision::Allow);
    assert_eq!(cb.check(&intent(Way::Buy, 1), 500_000_001), Decision::Block(HaltReason::RateLimit));
    assert_eq!(cb.check(&intent(Way::Buy, 1), 9_000_000_000), Decision::Block(HaltReason::RateLimit));
    assert_eq!(cb.halt_reason(), Some(HaltReason::RateLimit));
}

#[test]
fn snapshots_tell_the_counters() {
    let mut cb = CircuitBreaker::new(BreakerConfig::default(), 0);
    cb.check(&intent(Way::Buy, 1), 0);
    cb.record_fill(&Fill { instrument_id: 1, side: Way::Buy, qty: 3, price_ticks: 100 });
    cb.record_fill(&Fill { instrument_id: 1, side: Way::Sell, qty: 1, price_ticks: 110 });
    cb.record_gap(5);
    let s = cb.snapshot();
    assert!(!s.halted);
    assert_eq!((s.orders_sent, s.trades_done), (1, 2));
    assert_eq!(s.net_position, 2);
    assert_eq!(s.cash_flow_ticks, -190);
    assert_eq!(s.gaps_in_window, 1);
}

#[test]
fn old_gaps_are_forgotten() {
    let cfg = BreakerConfig { gap_threshold: Some(2), gap_window_ns: 10, ..BreakerConfig::default() };
    let mut cb = CircuitBreaker::new(cfg, 0);
    cb.record_gap(0);
    cb.record_gap(100);
    assert!(!cb.is_halted());
    cb.record_gap(105);
    assert_eq!(cb.halt_reason(), Some(HaltReason::FeedGap));
    cb.start_of_day();
    assert_eq!(cb.snapshot().gaps_in_window, 0);
    assert!(!cb.is_halted());
}
