//! Synthetic workloads and latency histograms.

pub mod histogram;
pub mod market;
pub mod phases;
pub mod xorshift;

pub use histogram::{Histogram, PerType};
pub use market::{bursty_events, crashy_events, realistic_events, warmup_events, MarketConfig};
pub use xorshift::XorShift64;
