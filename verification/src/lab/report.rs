//! The outcome of a run.

use crate::chaos::flag::{ChaosEvent, ChaosKind};
use vstd::prelude::*;

verus! {

/// What a strategy went through.
#[derive(Debug, Clone)]
pub struct StressReport {
    pub strategy_name: String,
    pub events_processed: u64,
    /// In ticks.
    pub final_pnl: i64,
    /// The deepest fall below the peak so far, in ticks.
    pub max_drawdown: u64,
    pub final_inventory: i64,
    pub fills: u64,
    /// All flags of the run, in the order of the stream. Empty without a chain.
    pub chaos_events: Vec<ChaosEvent>,
    /// How often the chain flagged each kind, in a fixed order. Empty without a
    /// chain.
    pub chaos_counts: Vec<(ChaosKind, u64)>,
}

} // verus!
