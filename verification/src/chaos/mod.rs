//! Detection, generation and grouping of aggressive trading patterns.

pub mod cancellation_storm;
pub mod chain;
pub mod closure;
pub mod clustering;
pub mod detection;
pub mod flag;
pub mod flash_crash;
pub mod generators;
pub mod latency_arb_proxy;
pub mod mini_book;
pub mod momentum_ignition;
pub mod order_tracker;
pub mod phantom_liquidity;
pub mod scale;
pub mod storm;
pub mod window;

pub use flag::{ChaosEvent, ChaosFeatures, ChaosKind, Severity, StressWindow, Term};
