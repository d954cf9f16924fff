//! Order books, market analytics, detectors of disorderly trading, and the
//! pieces of an engine that drives them.

pub mod bench;
pub mod book;
pub mod chaos;
pub mod engine;
pub mod flow;
pub mod lab;
pub mod log_bins;
pub mod natural;
pub mod ordered;
pub mod ratio;
