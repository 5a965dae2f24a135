//! Counting timer interrupts.

use vstd::prelude::*;

verus! {

/// Interval between two timer interrupts, in clock cycles.
pub const INTERVAL: usize = 100000;

/// Count one timer interrupt: the new tick count, and whether it is a
/// multiple of `100` (the kernel then reports it and breaks into the
/// debugger).
pub fn count_tick(ticks: usize) -> (r: (usize, bool))
    requires
        ticks < usize::MAX,
    ensures
        r.0 == ticks + 1,
        r.1 == ((ticks + 1) % 100 == 0),
{
    let t = ticks + 1;
    (t, t % 100 == 0)
}

/// Time of the next timer interrupt after `now`.
pub fn next_timeout(now: usize) -> (r: usize)
    requires
        now + INTERVAL <= usize::MAX,
    ensures
        r == now + INTERVAL,
{
    now + INTERVAL
}

} // verus!
