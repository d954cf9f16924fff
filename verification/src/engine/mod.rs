//! What drives events through the book, the analytics and the detectors.

pub mod config;
pub mod histo;
pub mod ich;
pub mod pipeline;
pub mod print;
pub mod stage_stats;
pub mod symbol_lock;
pub mod symbols;
pub mod synthetic;
pub mod tsc;
pub mod wire;

pub use config::EngineConfig;
pub use pipeline::Engine;
pub use synthetic::SyntheticSource;
