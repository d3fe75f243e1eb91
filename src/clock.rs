use vstd::prelude::*;

verus! {

/// Nanoseconds in one second.
pub const NANOS_PER_SEC: u64 = 1_000_000_000;

/// Ticks per second of a clock that advanced `ticks` ticks in `nanos`
/// nanoseconds, truncated, and capped at the largest counter value.
pub open spec fn frequency_of(ticks: u64, nanos: u64) -> u64 {
    let f = ticks as int * NANOS_PER_SEC as int / nanos as int;
    if f > u64::MAX as int {
        u64::MAX
    } else {
        f as u64
    }
}

/// Calibration of a tick counter against wall-clock time. The caller reads
/// the counter at both ends of a wall-clock window and hands the readings
/// over.
pub struct TimeMeasurer;

impl TimeMeasurer {
    /// Frequency of a counter that read `clocks_at_start` and then
    /// `clocks_at_end` across a window of `window_nanos` nanoseconds.
    pub fn detect_clock_frequency(&self, clocks_at_start: u64, clocks_at_end: u64, window_nanos: u64) -> (r: u64)
        requires
            window_nanos > 0,
            clocks_at_start <= clocks_at_end,
        ensures
            r == frequency_of((clocks_at_end - clocks_at_start) as u64, window_nanos),
    {
        let ticks = clocks_at_end - clocks_at_start;
        assert(ticks as int * NANOS_PER_SEC as int <= u64::MAX as int * NANOS_PER_SEC as int)
            by (nonlinear_arith)
            requires
                ticks <= u64::MAX,
        ;
        let f: u128 = (ticks as u128) * (NANOS_PER_SEC as u128) / (window_nanos as u128);
        if f > u64::MAX as u128 {
            u64::MAX
        } else {
            f as u64
        }
    }
}

} // verus!
