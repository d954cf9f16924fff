//! Strategies against replayed events.

pub mod executor;
pub mod report;
pub mod strategy;

pub use executor::{ExecutorConfig, StrategyExecutor};
pub use report::StressReport;
pub use strategy::{Fill, Strategy, StrategyOrder};
