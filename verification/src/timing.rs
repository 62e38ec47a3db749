//! Intervals and bounds, in milliseconds unless said otherwise.

use vstd::prelude::*;

verus! {

/// An interval or a bound of nothing counts as one millisecond.
pub fn positive_ms(ms: u64) -> (r: u64)
    ensures
        r == if ms == 0 {
            1
        } else {
            ms
        },
{
    if ms == 0 {
        1
    } else {
        ms
    }
}

/// How often a watchdog looks at an idle window, in microseconds: four times
/// per window, and not more often than every ten milliseconds.
pub fn idle_tick_us(idle_ms: u64) -> (r: u64)
    ensures
        r as nat == if idle_ms * 250 > u64::MAX {
            u64::MAX as nat
        } else if idle_ms * 250 < 10_000 {
            10_000
        } else {
            (idle_ms * 250) as nat
        },
{
    if idle_ms > u64::MAX / 250 {
        u64::MAX
    } else if idle_ms * 250 < 10_000 {
        10_000
    } else {
        idle_ms * 250
    }
}

} // verus!
