//! How the engine is set up.

use vstd::prelude::*;

verus! {

/// Settings of the engine.
#[derive(Debug, Clone, Copy, PartialEq, Eq, Structural)]
pub struct EngineConfig {
    pub instrument_id: u32,
    /// The instrument to follow. Without one the first to print enough trades
    /// is followed.
    pub track_instrument: Option<u32>,
    pub auto_lock_threshold: u32,
    /// Ticks published per second.
    pub tick_publish_hz: u32,
    /// Ladders published per second.
    pub book_publish_hz: u32,
    /// Levels of a ladder, and of the depth figures.
    pub depth_levels: usize,
    pub vpin_bucket: u64,
    pub vpin_buckets: usize,
    pub spread_window: usize,
}

impl Default for EngineConfig {
    fn default() -> (c: Self)
        ensures
            c == (EngineConfig {
                instrument_id: 1,
                track_instrument: None,
                auto_lock_threshold: 5,
                tick_publish_hz: 50,
                book_publish_hz: 10,
                depth_levels: 10,
                vpin_bucket: 10_000,
                vpin_buckets: 50,
                spread_window: 256,
            }),
    {
        EngineConfig {
            instrument_id: 1,
            track_instrument: None,
            auto_lock_threshold: 5,
            tick_publish_hz: 50,
            book_publish_hz: 10,
            depth_levels: 10,
            vpin_bucket: 10_000,
            vpin_buckets: 50,
            spread_window: 256,
        }
    }
}

/// Nanoseconds of a second.
pub const SECOND: u64 = 1_000_000_000;

/// The time between two of `hz` a second, to the nearest nanosecond.
pub open spec fn period_of(hz: u32) -> u64 {
    ((2 * SECOND + hz) / (2 * hz)) as u64
}

/// The time between two of `hz` a second.
pub fn period_ns(hz: u32) -> (t: u64)
    requires
        hz > 0,
    ensures
        t == period_of(hz),
{
    (2 * SECOND + hz as u64) / (2 * hz as u64)
}

/// So many periods a second fill it up to half a period each way.
pub proof fn periods_fill_a_second(hz: u32)
    requires
        hz > 0,
    ensures
        2 * period_of(hz) * hz <= 2 * 1_000_000_000 + hz,
        2 * period_of(hz) * hz > 2 * 1_000_000_000 - hz,
{
    let (n, d) = (2 * SECOND + hz, 2 * (hz as int));
    let q = n / d;
    vstd::arithmetic::div_mod::lemma_fundamental_div_mod(n, d);
    vstd::arithmetic::div_mod::lemma_mod_bound(n, d);
    assert(0 <= q <= n) by (nonlinear_arith)
        requires
            n == d * q + n % d,
            0 <= n % d < d,
            n >= 0,
            d >= 1,
    ;
    assert(2 * q * hz == d * q) by (nonlinear_arith)
        requires
            d == 2 * (hz as int),
    ;
}

} // verus!
