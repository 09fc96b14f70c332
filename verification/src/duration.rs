//! A span of time, to the nanosecond.

use vstd::prelude::*;

verus! {

/// A span of `secs` seconds and `nanos` nanoseconds.
#[derive(Debug, Clone, Copy, PartialEq, Eq, Structural, Default)]
pub struct Duration {
    pub secs: u64,
    pub nanos: u32,
}

impl Duration {
    /// The whole span in nanoseconds.
    pub open spec fn total(self) -> nat {
        (self.secs * 1_000_000_000 + self.nanos) as nat
    }

    /// The whole span in nanoseconds, as it fits a 64-bit clock: modulo 2^64.
    pub open spec fn ticks(self) -> nat {
        self.total() % 0x1_0000_0000_0000_0000
    }

    /// No time at all.
    pub fn zero() -> (d: Self)
        ensures
            d == (Duration { secs: 0, nanos: 0 }),
            d.total() == 0,
    {
        Duration { secs: 0, nanos: 0 }
    }

    /// `secs` whole seconds.
    pub fn from_secs(secs: u64) -> (d: Self)
        ensures
            d == (Duration { secs, nanos: 0 }),
            d.total() == secs * 1_000_000_000,
    {
        Duration { secs, nanos: 0 }
    }

    /// `millis` milliseconds.
    pub fn from_millis(millis: u64) -> (d: Self)
        ensures
            d == (Duration { secs: millis / 1000, nanos: ((millis % 1000) * 1_000_000) as u32 }),
            d.total() == millis * 1_000_000,
    {
        Duration { secs: millis / 1000, nanos: ((millis % 1000) * 1_000_000) as u32 }
    }

    /// The whole seconds of the span.
    pub fn as_secs(&self) -> (s: u64)
        ensures
            s == self.secs,
    {
        self.secs
    }

    /// The whole span in nanoseconds.
    pub fn as_nanos(&self) -> (n: u128)
        ensures
            n == self.total(),
    {
        self.secs as u128 * 1_000_000_000 + self.nanos as u128
    }

    /// The whole span in nanoseconds, cut to 64 bits.
    pub fn as_ticks(&self) -> (n: u64)
        ensures
            n == self.ticks(),
    {
        let x: u128 = self.as_nanos();
        assert(#[verifier::truncate] (x as u64) == x % 0x1_0000_0000_0000_0000u128)
            by (bit_vector);
        #[verifier::truncate]
        let t: u64 = x as u64;
        t
    }
}

} // verus!
