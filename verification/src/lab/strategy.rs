//! What a strategy is.

use crate::book::event::{SequencedEvent, Side};
use crate::book::orderbook::OrderBook;
use crate::book::types::{OrderId, Price, Qty};
use crate::chaos::cancellation_storm::{RateSample, StormVerdict};
use vstd::prelude::*;

verus! {

/// An order that a strategy hands in.
#[derive(Debug, Clone, Copy, PartialEq, Eq, Structural)]
pub struct StrategyOrder {
    pub side: Side,
    pub price: Price,
    pub qty: Qty,
}

/// A fill that a strategy gets.
#[derive(Debug, Clone, Copy, PartialEq, Eq, Structural)]
pub struct Fill {
    pub order_id: OrderId,
    pub price: Price,
    pub qty: Qty,
    pub side: Side,
}

/// A strategy. Nothing is taken for granted of what it does.
pub trait Strategy {
    /// Sees an event, and the book after it. Returns the orders to hand in.
    fn on_event(&mut self, event: &SequencedEvent, book: &OrderBook) -> Vec<StrategyOrder>;

    /// Sees a fill.
    fn on_fill(&mut self, fill: &Fill);

    /// The name in reports.
    fn name(&self) -> String;

    /// The profit so far, in ticks.
    fn pnl(&self) -> i64;

    /// The net position.
    fn inventory(&self) -> i64;
}

/// Tells unusual rates of cancels from usual ones. Nothing is taken for granted
/// of how it does so.
pub trait StormJudge {
    /// How far above the usual level a rate is.
    fn judge(&mut self, rate: Option<RateSample>) -> StormVerdict;

    /// Takes a rate into the usual level.
    fn learn(&mut self, rate: RateSample);
}

} // verus!
