//! Spans of time, kept as a whole number of nanoseconds.

use vstd::prelude::*;

verus! {

/// The longest span: `u64::MAX` seconds and 999 999 999 nanoseconds.
pub const MAX_NANOS: u128 = 18_446_744_073_709_551_615_999_999_999;

/// A span of time with nanosecond precision.
#[derive(Debug, Clone, Copy, PartialEq, Eq, Structural, PartialOrd, Ord)]
pub struct Duration {
    nanos: u128,
}

impl Duration {
    #[verifier::type_invariant]
    spec fn inv(self) -> bool {
        self.nanos <= MAX_NANOS
    }

    /// The span in nanoseconds.
    pub closed spec fn nanos(self) -> nat {
        self.nanos as nat
    }

    pub fn zero() -> (d: Self)
        ensures
            d.nanos() == 0,
    {
        Duration { nanos: 0 }
    }

    pub fn from_secs(secs: u64) -> (d: Self)
        ensures
            d.nanos() == secs * 1_000_000_000,
    {
        Duration { nanos: secs as u128 * 1_000_000_000 }
    }

    pub fn from_millis(ms: u64) -> (d: Self)
        ensures
            d.nanos() == ms * 1_000_000,
    {
        Duration { nanos: ms as u128 * 1_000_000 }
    }

    /// `secs` seconds and `subsec_nanos` nanoseconds.
    pub fn from_parts(secs: u64, subsec_nanos: u32) -> (d: Self)
        requires
            subsec_nanos < 1_000_000_000,
        ensures
            d.nanos() == secs * 1_000_000_000 + subsec_nanos,
    {
        Duration { nanos: secs as u128 * 1_000_000_000 + subsec_nanos as u128 }
    }

    /// Whole seconds.
    pub fn as_secs(&self) -> (s: u64)
        ensures
            s == self.nanos() / 1_000_000_000,
    {
        proof {
            use_type_invariant(self);
        }
        (self.nanos / 1_000_000_000) as u64
    }

    /// The nanoseconds past the whole seconds.
    pub fn subsec_nanos(&self) -> (n: u32)
        ensures
            n == self.nanos() % 1_000_000_000,
    {
        (self.nanos % 1_000_000_000) as u32
    }

    /// Whole milliseconds.
    pub fn as_millis(&self) -> (ms: u128)
        ensures
            ms == self.nanos() / 1_000_000,
    {
        self.nanos / 1_000_000
    }

    /// The span in nanoseconds.
    pub fn as_nanos(&self) -> (n: u128)
        ensures
            n == self.nanos(),
    {
        self.nanos
    }

    /// `self * k`; the product must not exceed the longest span.
    pub fn times(&self, k: u32) -> (d: Self)
        requires
            self.nanos() * k <= MAX_NANOS,
        ensures
            d.nanos() == self.nanos() * k,
    {
        proof {
            assert(self.nanos * k <= MAX_NANOS);
        }
        Duration { nanos: self.nanos * k as u128 }
    }

    /// `self + other`; the sum must not exceed the longest span.
    pub fn plus(&self, other: &Self) -> (d: Self)
        requires
            self.nanos() + other.nanos() <= MAX_NANOS,
        ensures
            d.nanos() == self.nanos() + other.nanos(),
    {
        Duration { nanos: self.nanos + other.nanos }
    }

    /// The longer of the two spans.
    pub fn longest(&self, other: &Self) -> (d: Self)
        ensures
            d.nanos() == if self.nanos() >= other.nanos() { self.nanos() } else { other.nanos() },
    {
        if self.nanos >= other.nanos {
            *self
        } else {
            *other
        }
    }
}

} // verus!
