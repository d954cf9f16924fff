//! Scalar names shared by the whole library.

use vstd::prelude::*;

verus! {

/// Price in raw ticks.
pub type Price = u64;

/// Quantity in fixed-point units.
pub type Qty = u64;

/// Order identifier given by the exchange.
pub type OrderId = u64;

/// Instrument identifier.
pub type InstrumentId = u32;

/// Global monotonic sequence number.
pub type SeqNum = u64;

/// Channel identifier of a multi-feed source.
pub type ChannelId = u32;

} // verus!
