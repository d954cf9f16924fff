//! Time in cycles of the processor's counter.

use vstd::prelude::*;

verus! {

/// The cycles from one reading of the counter to another, less what reading it
/// costs. The counter may have wrapped in between. Never below zero.
pub fn net_cycles(start: u64, end: u64, overhead: u64) -> (n: u64)
    ensures
        ({
            let raw = if end >= start {
                end - start
            } else {
                end + 0x1_0000_0000_0000_0000 - start
            };
            n == (if raw >= overhead {
                raw - overhead
            } else {
                0
            })
        }),
{
    end.wrapping_sub(start).saturating_sub(overhead)
}

} // verus!
