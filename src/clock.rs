//! Instants of wall-clock time, held as an offset from the Unix epoch.

use vstd::prelude::*;

verus! {

/// Nanoseconds in one second.
pub const NANOS_PER_SECOND: u32 = 1_000_000_000;

/// An instant: whole seconds since 1970-01-01T00:00:00Z (negative before it,
/// rounded down) and the nanoseconds past that second.
#[derive(Clone, Copy, Debug, PartialEq, Eq)]
pub struct UtcTime {
    pub unix_seconds: i64,
    pub subsec_nanos: u32,
}

impl UtcTime {
    /// The nanosecond part is below one second.
    pub open spec fn wf(&self) -> bool {
        self.subsec_nanos < NANOS_PER_SECOND
    }

    /// The instant in nanoseconds relative to the Unix epoch.
    pub open spec fn total_nanos(&self) -> int {
        self.unix_seconds * 1_000_000_000 + self.subsec_nanos
    }

    /// The instant `secs` seconds and `nanos` nanoseconds after the Unix epoch,
    /// or before it where `before_epoch` holds. Offsets beyond the range of
    /// `i64` seconds are clamped to its ends.
    pub fn from_epoch_offset(before_epoch: bool, secs: u64, nanos: u32) -> (r: UtcTime)
        requires
            nanos < NANOS_PER_SECOND,
        ensures
            r.wf(),
            secs < i64::MAX && !before_epoch ==> r.total_nanos() == secs * 1_000_000_000
                + nanos,
            secs < i64::MAX && before_epoch ==> r.total_nanos() == -(secs * 1_000_000_000
                + nanos),
            secs >= i64::MAX && !before_epoch ==> r == (UtcTime {
                unix_seconds: i64::MAX,
                subsec_nanos: 0,
            }),
            secs >= i64::MAX && before_epoch ==> r == (UtcTime {
                unix_seconds: i64::MIN,
                subsec_nanos: 0,
            }),
    {
        if secs >= i64::MAX as u64 {
            if before_epoch {
                UtcTime { unix_seconds: i64::MIN, subsec_nanos: 0 }
            } else {
                UtcTime { unix_seconds: i64::MAX, subsec_nanos: 0 }
            }
        } else if !before_epoch {
            UtcTime { unix_seconds: secs as i64, subsec_nanos: nanos }
        } else if nanos == 0 {
            UtcTime { unix_seconds: -(secs as i64), subsec_nanos: 0 }
        } else {
            UtcTime { unix_seconds: -(secs as i64) - 1, subsec_nanos: NANOS_PER_SECOND - nanos }
        }
    }

    /// The instant at which the system clock is read.
    pub fn now() -> (r: UtcTime)
        ensures
            r.wf(),
    {
        let (before_epoch, secs, nanos) = read_system_clock();
        UtcTime::from_epoch_offset(before_epoch, secs, nanos)
    }
}

/// Relies on std::time::SystemTime::now, read as its distance from
/// std::time::UNIX_EPOCH through SystemTime::duration_since: whether the
/// instant lies before the epoch, then the whole seconds and the nanoseconds of
/// that distance (Duration::subsec_nanos is always below one billion).
#[verifier::external_body]
fn read_system_clock() -> (r: (bool, u64, u32))
    ensures
        r.2 < NANOS_PER_SECOND,
{
    match std::time::SystemTime::now().duration_since(std::time::UNIX_EPOCH) {
        Ok(d) => (false, d.as_secs(), d.subsec_nanos()),
        Err(e) => (true, e.duration().as_secs(), e.duration().subsec_nanos()),
    }
}

} // verus!
