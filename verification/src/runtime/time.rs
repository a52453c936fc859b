//! Points in time as a clock with nanosecond resolution gives them.

use vstd::prelude::*;

verus! {

/// Nanoseconds in a second.
pub const NANOS_PER_SEC: u32 = 1_000_000_000;

/// A length of time in whole seconds and nanoseconds below a second.
#[derive(Debug, Clone, Copy, PartialEq, Eq, Structural)]
pub struct Elapsed {
    pub secs: u64,
    pub nanos: u32,
}

impl Elapsed {
    /// The length of time in nanoseconds.
    pub open spec fn total_nanos(self) -> nat {
        (self.secs * NANOS_PER_SEC + self.nanos) as nat
    }
}

/// A point in time, as the time since the origin of a clock that counts
/// nanoseconds.
#[derive(Debug, Clone, Copy, PartialEq, Eq, Structural)]
pub struct PerformanceInstant {
    pub since_origin: Elapsed,
}

/// The largest number of nanoseconds that an instant can hold.
pub open spec fn max_total_nanos() -> nat {
    (u64::MAX * NANOS_PER_SEC + (NANOS_PER_SEC - 1)) as nat
}

impl PerformanceInstant {
    /// The nanoseconds of the instant below a second are below a second.
    pub open spec fn wf(self) -> bool {
        self.since_origin.nanos < NANOS_PER_SEC
    }

    /// The instant `total_nanos` nanoseconds after the origin, or the last
    /// instant there is if that is earlier.
    pub fn from_nanos(total_nanos: u128) -> (instant: PerformanceInstant)
        ensures
            instant.wf(),
            instant.since_origin.total_nanos() == if total_nanos <= max_total_nanos() {
                total_nanos as nat
            } else {
                max_total_nanos()
            },
    {
        let secs = total_nanos / (NANOS_PER_SEC as u128);
        let nanos = (total_nanos % (NANOS_PER_SEC as u128)) as u32;
        if secs > u64::MAX as u128 {
            PerformanceInstant {
                since_origin: Elapsed { secs: u64::MAX, nanos: NANOS_PER_SEC - 1 },
            }
        } else {
            assert(total_nanos == secs * NANOS_PER_SEC + nanos) by (nonlinear_arith)
                requires
                    secs == total_nanos / (NANOS_PER_SEC as u128),
                    nanos == total_nanos % (NANOS_PER_SEC as u128),
                    NANOS_PER_SEC == 1_000_000_000,
            ;
            PerformanceInstant { since_origin: Elapsed { secs: secs as u64, nanos } }
        }
    }

    /// The time from `earlier` to this instant; none if `earlier` is the
    /// later of the two.
    pub fn duration_since(&self, earlier: PerformanceInstant) -> (elapsed: Elapsed)
        requires
            self.wf(),
            earlier.wf(),
        ensures
            elapsed.nanos < NANOS_PER_SEC,
            elapsed.total_nanos() == if self.since_origin.total_nanos()
                >= earlier.since_origin.total_nanos() {
                self.since_origin.total_nanos() - earlier.since_origin.total_nanos()
            } else {
                0
            },
    {
        let now = self.since_origin;
        let then = earlier.since_origin;
        if now.secs < then.secs || (now.secs == then.secs && now.nanos < then.nanos) {
            Elapsed { secs: 0, nanos: 0 }
        } else if now.nanos >= then.nanos {
            Elapsed { secs: now.secs - then.secs, nanos: now.nanos - then.nanos }
        } else {
            Elapsed {
                secs: now.secs - then.secs - 1,
                nanos: now.nanos + NANOS_PER_SEC - then.nanos,
            }
        }
    }
}

} // verus!
