//! A cumulative counter used by the read path to account for bytes fetched
//! from storage.

use vstd::prelude::*;

verus! {

/// A monotone tally; additions wrap modulo 2^64, as a machine counter does.
#[derive(Debug)]
pub struct Count {
    value: u64,
}

impl Count {
    /// A counter starting at `value`.
    pub fn new(value: u64) -> (r: Self)
        ensures
            r@ == value,
    {
        Count { value }
    }

    /// The current tally.
    pub fn get(&self) -> (r: u64)
        ensures
            r == self@,
    {
        self.value
    }

    /// Adds one; returns the tally before the addition.
    pub fn inc(&mut self) -> (r: u64)
        ensures
            r == old(self)@,
            final(self)@ == (old(self)@ + 1) % 0x1_0000_0000_0000_0000,
    {
        self.add(1)
    }

    /// Adds `value`; returns the tally before the addition.
    pub fn add(&mut self, value: u64) -> (r: u64)
        ensures
            r == old(self)@,
            final(self)@ == (old(self)@ + value) % 0x1_0000_0000_0000_0000,
    {
        let r = self.value;
        self.value = self.value.wrapping_add(value);
        r
    }
}

impl View for Count {
    type V = int;

    closed spec fn view(&self) -> int {
        self.value as int
    }
}

impl Default for Count {
    /// A counter starting at zero.
    fn default() -> (r: Self)
        ensures
            r@ == 0,
    {
        Count::new(0)
    }
}

} // verus!
