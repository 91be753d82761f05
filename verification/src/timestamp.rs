//! Instants on the UTC time line.

use vstd::prelude::*;

verus! {

/// An instant: whole seconds since 1970-01-01T00:00:00 UTC and the nanoseconds
/// past that second. During a leap second `nanos` runs from 1_000_000_000 up.
#[derive(Clone, Copy, Debug, PartialEq, Eq, Structural, PartialOrd, Ord, Hash)]
pub struct Timestamp {
    pub secs: i64,
    pub nanos: u32,
}

/// An instant together with the offset from UTC, in seconds east, of the clock
/// that displayed it.
#[derive(Clone, Copy, Debug, PartialEq, Eq, Structural)]
pub struct ZonedTimestamp {
    pub instant: Timestamp,
    pub offset: i32,
}

impl View for Timestamp {
    type V = int;

    /// The position of the instant on the time line: instants are ordered as
    /// their views are, first by seconds and then by nanoseconds.
    open spec fn view(&self) -> int {
        self.secs * 0x1_0000_0000 + self.nanos
    }
}

impl Timestamp {
    pub fn new(secs: i64, nanos: u32) -> (t: Timestamp)
        ensures
            t == (Timestamp { secs, nanos }),
    {
        Timestamp { secs, nanos }
    }

    /// Whether `self` is strictly earlier than `other`.
    pub fn lt(&self, other: &Timestamp) -> (r: bool)
        ensures
            r == (self@ < other@),
    {
        self.secs < other.secs || (self.secs == other.secs && self.nanos < other.nanos)
    }

    /// Whether `self` is not later than `other`.
    pub fn le(&self, other: &Timestamp) -> (r: bool)
        ensures
            r == (self@ <= other@),
    {
        self.secs < other.secs || (self.secs == other.secs && self.nanos <= other.nanos)
    }

    /// Whether `self` is strictly later than `other`.
    pub fn gt(&self, other: &Timestamp) -> (r: bool)
        ensures
            r == (self@ > other@),
    {
        other.lt(self)
    }

    /// Whether `self` is not earlier than `other`.
    pub fn ge(&self, other: &Timestamp) -> (r: bool)
        ensures
            r == (self@ >= other@),
    {
        other.le(self)
    }
}

/// Two instants with the same view are the same instant.
pub proof fn lemma_view_injective(a: Timestamp, b: Timestamp)
    ensures
        a@ == b@ <==> a == b,
{
}

} // verus!
