//! Canonical events, order books and replay state.

pub mod digest;
pub mod event;
pub mod hot_book;
pub mod ladder;
pub mod laws;
pub mod model;
pub mod orderbook;
pub mod state;
pub mod types;
