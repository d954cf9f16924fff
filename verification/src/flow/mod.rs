//! Order-flow analytics and the trading-side risk gate.

pub mod circuit_breaker;
pub mod imbalance;
pub mod impact;
pub mod regime;
pub mod rolling;
pub mod spread;
pub mod vpin;
