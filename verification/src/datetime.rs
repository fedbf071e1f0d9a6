use vstd::prelude::*;

verus! {

/// An instant of universal time: whole seconds since the Unix epoch and the
/// nanoseconds into that second.
#[derive(Debug, Clone, Copy, PartialEq, Eq, Structural)]
pub struct UtcInstant {
    pub secs: i64,
    pub nanos: u32,
}

impl UtcInstant {
    /// The nanoseconds stay within one second.
    pub open spec fn wf(self) -> bool {
        self.nanos < 1_000_000_000
    }
}

/// Splits a non-negative count of milliseconds since the Unix epoch into the
/// instant it denotes: whole seconds, and the remaining milliseconds as
/// nanoseconds.
pub fn unix_ms_to_utc(ts: i64) -> (r: UtcInstant)
    requires
        0 <= ts,
    ensures
        r.secs == ts / 1000,
        r.nanos == (ts % 1000) * 1_000_000,
        r.wf(),
{
    let secs = ts / 1000;
    let nanos = (ts % 1000) as u32 * 1_000_000;
    UtcInstant { secs, nanos }
}

} // verus!
