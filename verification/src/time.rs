//! Instants and millisecond arithmetic.

use crate::numbers;
use crate::sorted_map::Duplicate;
use vstd::prelude::*;

verus! {

/// An instant: nanoseconds since the Unix epoch.
#[derive(Debug, Clone, Copy, PartialEq, Eq, Structural)]
pub struct Timestamp {
    pub nanos: i128,
}

impl DeepView for Timestamp {
    type V = int;

    open spec fn deep_view(&self) -> int {
        self.nanos as int
    }
}

impl Duplicate for Timestamp {
    fn duplicate(&self) -> (r: Self) {
        *self
    }
}

/// The instant `millis` milliseconds after `t`.
pub open spec fn instant_after(t: int, millis: int) -> int {
    numbers::clamped(t + millis * 1_000_000, i128::MIN as int, i128::MAX as int)
}

/// Whole milliseconds since the epoch, rounded down.
pub open spec fn whole_millis(t: int) -> int {
    numbers::clamped(t / 1_000_000, i64::MIN as int, i64::MAX as int)
}

/// The first millisecond of the calendar that instants of the store cover.
pub const FIRST_MILLI: i64 = -8_334_601_228_800_000;

/// The last millisecond of the calendar that instants of the store cover.
pub const LAST_MILLI: i64 = 8_210_266_876_799_999;

impl Timestamp {
    /// The instant `millis` milliseconds after the epoch, where the calendar covers it.
    pub fn from_millis(millis: i64) -> (r: Option<Timestamp>)
        ensures
            r is Some <==> FIRST_MILLI <= millis <= LAST_MILLI,
            r is Some ==> r->0.nanos == millis * 1_000_000,
    {
        if FIRST_MILLI <= millis && millis <= LAST_MILLI {
            Some(Timestamp { nanos: millis as i128 * 1_000_000 })
        } else {
            None
        }
    }

    pub fn plus_millis(self, millis: i32) -> (r: Timestamp)
        ensures
            r.nanos == instant_after(self.nanos as int, millis as int),
    {
        let step: i128 = millis as i128 * 1_000_000;
        if step >= 0 && self.nanos > i128::MAX - step {
            Timestamp { nanos: i128::MAX }
        } else if step < 0 && self.nanos < i128::MIN - step {
            Timestamp { nanos: i128::MIN }
        } else {
            Timestamp { nanos: self.nanos + step }
        }
    }

    /// Whole milliseconds since the epoch, rounded down.
    pub fn millis(self) -> (r: i64)
        ensures
            r == whole_millis(self.nanos as int),
    {
        let n: i128 = self.nanos;
        let q: i128 = if n >= 0 {
            n / 1_000_000
        } else {
            -((-(n + 1)) / 1_000_000) - 1
        };
        proof {
            if n < 0 {
                let m = -(n + 1);
                vstd::arithmetic::div_mod::lemma_fundamental_div_mod(m as int, 1_000_000);
                vstd::arithmetic::div_mod::lemma_fundamental_div_mod_converse(n as int, 1_000_000, -(m as int / 1_000_000) - 1, 999_999 - m as int % 1_000_000);
            }
            assert(q == n as int / 1_000_000);
        }
        if q < i64::MIN as i128 {
            i64::MIN
        } else if q > i64::MAX as i128 {
            i64::MAX
        } else {
            q as i64
        }
    }
}

/// The later of two instants.
pub open spec fn later(a: int, b: int) -> int {
    if a < b {
        b
    } else {
        a
    }
}

/// The earlier of two instants.
pub open spec fn earlier(a: int, b: int) -> int {
    if b < a {
        b
    } else {
        a
    }
}

} // verus!
