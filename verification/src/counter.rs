//! A counter that several threads share and update with relaxed atomics.

use std::sync::atomic::AtomicUsize;
use std::sync::atomic::Ordering;
use vstd::prelude::*;

verus! {

/// A shared counter. Every operation is a single relaxed atomic step, so a
/// value read from it may already be stale when the caller looks at it.
#[derive(Debug, Default)]
pub struct RelaxedCounter {
    cell: AtomicUsize,
}

impl RelaxedCounter {
    /// A counter that starts at `value`.
    pub fn new(value: usize) -> (counter: Self) {
        RelaxedCounter { cell: AtomicUsize::new(value) }
    }

    /// Adds `amount`, wrapping on overflow, and returns the value before.
    pub fn add(&self, amount: usize) -> (before: usize) {
        self.cell.fetch_add(amount, Ordering::Relaxed)
    }

    /// Subtracts `amount`, wrapping on underflow, and returns the value before.
    pub fn sub(&self, amount: usize) -> (before: usize) {
        self.cell.fetch_sub(amount, Ordering::Relaxed)
    }

    /// Adds one and returns the value before.
    pub fn inc(&self) -> (before: usize) {
        self.add(1)
    }

    /// Subtracts one and returns the value before.
    pub fn dec(&self) -> (before: usize) {
        self.sub(1)
    }

    /// The value at some moment during the call.
    pub fn get(&self) -> (value: usize) {
        self.cell.load(Ordering::Relaxed)
    }

    /// Sets the counter to zero and returns the value before.
    pub fn reset(&self) -> (before: usize) {
        self.cell.swap(0, Ordering::Relaxed)
    }
}

} // verus!
