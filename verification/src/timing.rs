//! The computation of the single-shot timing harness: an elapsed time of
//! whole seconds and subsecond nanoseconds, as a monotonic clock reports
//! it, converted to whole milliseconds. Capturing the clock itself is left
//! to the caller at the process edge.

use vstd::prelude::*;

verus! {

/// Milliseconds of an elapsed time, truncating: a thousand per second plus
/// one per million subsecond nanoseconds.
pub fn elapsed_millis(secs: u64, nanos: u32) -> (r: u64)
    requires
        nanos < 1_000_000_000,
        secs * 1000 + 999 <= u64::MAX,
    ensures
        r == secs * 1000 + nanos / 1_000_000,
{
    secs * 1000 + (nanos / 1_000_000) as u64
}

} // verus!
