use flowlab::flow::circuit_breaker::{
    BreakerConfig, CircuitBreaker, Decision, Fill, HaltReason, Intent, Side,
};
use flowlab::ratio::Ratio;

fn intent(side: Side, qty: u32) -> Intent {
    Intent {
        instrument_id: 1,
        side,
        qty,
        price_ticks: 100_0000, // $100.0000
    }
}

#[test]
fn default_allows_normal_order() {
    let mut cb = CircuitBreaker::new(BreakerConfig::default(), 0);
    assert_eq!(cb.check(&intent(Side::Buy, 10), 0), Decision::Allow);
    assert!(!cb.is_halted());
}

#[test]
fn rate_limit_trips_and_latches() {
    let mut cb = CircuitBreaker::new(BreakerConfig {
        max_orders_per_sec: Some(5),
        ..BreakerConfig::default()
    }, 0);
    // First 5 pass — bucket full.
    for _ in 0..5 {
        assert_eq!(cb.check(&intent(Side::Buy, 1), 0), Decision::Allow);
    }
    assert_eq!(
        cb.check(&intent(Side::Buy, 1), 0),
        Decision::Block(HaltReason::RateLimit)
    );
    // Latched.
    assert!(cb.is_halted());
    assert_eq!(
        cb.check(&intent(Side::Sell, 1), 0),
        Decision::Block(HaltReason::RateLimit)
    );
}

#[test]
fn position_cap_rejects_overshoot() {
    let mut cb = CircuitBreaker::new(BreakerConfig {
        max_position: Some(100),
        max_orders_per_sec: None,
        max_daily_loss_ticks: None,
        max_order_to_trade_ratio: None,
        gap_threshold: None,
        ..BreakerConfig::default()
    }, 0);
    // Simulate 90 existing long via fills.
    cb.record_fill(&Fill {
        instrument_id: 1,
        side: Side::Buy,
        qty: 90,
        price_ticks: 100,
    });
    // A further +20 would push us to 110 → block.
    assert_eq!(
        cb.check(&intent(Side::Buy, 20), 0),
        Decision::Block(HaltReason::PositionCap)
    );
    assert!(cb.is_halted());
}

#[test]
fn daily_loss_floor_blocks_after_tripping() {
    let mut cb = CircuitBreaker::new(BreakerConfig {
        max_position: None,
        max_orders_per_sec: None,
        max_daily_loss_ticks: Some(1_000),
        max_order_to_trade_ratio: None,
        gap_threshold: None,
        ..BreakerConfig::default()
    }, 0);
    // Book a losing round-trip: buy 10 @ 200, sell 10 @ 100 → cash -1000.
    cb.record_fill(&Fill {
        instrument_id: 1,
        side: Side::Buy,
        qty: 10,
        price_ticks: 200,
    });
    cb.record_fill(&Fill {
        instrument_id: 1,
        side: Side::Sell,
        qty: 10,
        price_ticks: 100,
    });
    // cash = -10*200 + 10*100 = -1000 (not below floor -1000)
    assert_eq!(cb.check(&intent(Side::Buy, 1), 0), Decision::Allow);
    // One more losing buy → -1200 < -1000 after next fill.
    cb.record_fill(&Fill {
        instrument_id: 1,
        side: Side::Buy,
        qty: 2,
        price_ticks: 100,
    });
    assert_eq!(
        cb.check(&intent(Side::Buy, 1), 0),
        Decision::Block(HaltReason::DailyLossFloor)
    );
}

#[test]
fn otr_trips_after_warmup() {
    let mut cb = CircuitBreaker::new(BreakerConfig {
        max_position: None,
        max_orders_per_sec: None,
        max_daily_loss_ticks: None,
        max_order_to_trade_ratio: Some(Ratio::new(2, 1)),
        otr_warmup: 5,
        gap_threshold: None,
        ..BreakerConfig::default()
    }, 0);
    // Send 10 orders, 1 fill → ratio 10 > 2 → trip (after warmup=5).
    for _ in 0..5 {
        assert_eq!(cb.check(&intent(Side::Buy, 1), 0), Decision::Allow);
    }
    cb.record_fill(&Fill {
        instrument_id: 1,
        side: Side::Buy,
        qty: 1,
        price_ticks: 1,
    });
    // Ratio now 5/1 = 5 > 2 → next order blocks.
    assert_eq!(
        cb.check(&intent(Side::Buy, 1), 0),
        Decision::Block(HaltReason::OrderToTradeRatio)
    );
}

#[test]
fn feed_gap_trips_after_threshold() {
    let mut cb = CircuitBreaker::new(BreakerConfig {
        max_position: None,
        max_orders_per_sec: None,
        max_daily_loss_ticks: None,
        max_order_to_trade_ratio: None,
        gap_threshold: Some(3),
        gap_window_ns: 60_000_000_000,
        ..BreakerConfig::default()
    }, 0);
    cb.record_gap(0);
    assert!(!cb.is_halted());
    cb.record_gap(0);
    assert!(!cb.is_halted());
    cb.record_gap(0);
    assert!(cb.is_halted());
    assert_eq!(
        cb.check(&intent(Side::Buy, 1), 0),
        Decision::Block(HaltReason::FeedGap)
    );
}

#[test]
fn manual_halt_and_reset() {
    let mut cb = CircuitBreaker::new(BreakerConfig::default(), 0);
    cb.manual_halt();
    assert_eq!(
        cb.check(&intent(Side::Buy, 1), 0),
        Decision::Block(HaltReason::Manual)
    );
    cb.reset();
    assert_eq!(cb.check(&intent(Side::Buy, 1), 0), Decision::Allow);
}

#[test]
fn start_of_day_clears_all_state() {
    let mut cb = CircuitBreaker::new(BreakerConfig::default(), 0);
    cb.record_fill(&Fill {
        instrument_id: 1,
        side: Side::Buy,
        qty: 50,
        price_ticks: 100,
    });
    cb.manual_halt();
    cb.start_of_day();
    assert!(!cb.is_halted());
    assert_eq!(cb.halt_reason(), None);
}

/// Without a cap on positions, and once halted, the size of a position does not
/// matter.
#[test]
fn positions_matter_under_a_cap_only() {
    let mut cb = CircuitBreaker::new(BreakerConfig {
        max_position: None,
        max_orders_per_sec: Some(1),
        max_daily_loss_ticks: None,
        max_order_to_trade_ratio: None,
        gap_threshold: None,
        ..BreakerConfig::default()
    }, 0);
    assert_eq!(cb.check(&intent(Side::Buy, u32::MAX), 0), Decision::Allow);
    assert_eq!(cb.check(&intent(Side::Buy, 1), 0), Decision::Block(HaltReason::RateLimit));
    assert_eq!(cb.check(&intent(Side::Sell, u32::MAX), 0), Decision::Block(HaltReason::RateLimit));
}
