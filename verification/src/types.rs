//! Plain value types the ledger and the exporter work over.
use vstd::prelude::*;

verus! {

/// A logical time unit: a (period, thread) pair, ordered by period first.
#[derive(Clone, Copy, PartialEq, Eq, Structural, Debug, Hash)]
pub struct Slot {
    pub period: u64,
    pub thread: u8,
}

/// Strict total order on slots: period first, thread second.
pub open spec fn slot_lt(a: Slot, b: Slot) -> bool {
    a.period < b.period || (a.period == b.period && a.thread < b.thread)
}

impl Slot {
    /// Decides the strict slot order.
    pub fn lt(&self, other: &Slot) -> (r: bool)
        ensures
            r == slot_lt(*self, *other),
    {
        self.period < other.period || (self.period == other.period && self.thread < other.thread)
    }
}

/// An account identifier, carried as a plain number.
#[derive(Clone, Copy, PartialEq, Eq, Structural, Debug, Hash)]
pub struct Address {
    pub val: u64,
}

/// A coin amount; the ledger only needs equality and a zero test.
#[derive(Clone, Copy, PartialEq, Eq, Structural, Debug, Hash)]
pub struct Amount {
    pub raw: u64,
}

impl Amount {
    /// True exactly on the zero amount.
    pub fn is_zero(&self) -> (r: bool)
        ensures
            r == (self.raw == 0),
    {
        self.raw == 0
    }
}

} // verus!
