//! A bounded event counter with an overflow flag.
//!
//! The counter counts up and down and latches a flag once an increment
//! starts at or above the configured bound; the flag stays set until a
//! reset. Incrementing wraps at the machine-word limit, as a fetch-and-add
//! on the underlying word would. The operations here take exclusive access;
//! sharing between threads goes through an exclusive lock or an atomic cell
//! outside this crate.

use vstd::prelude::*;
use vstd::wrapping::usize_specs;

verus! {

pub struct AtomicCounter {
    count: usize,
    max_value: usize,
    overflow_flag: bool,
}

impl AtomicCounter {
    pub closed spec fn spec_count(&self) -> usize {
        self.count
    }

    pub closed spec fn spec_max(&self) -> usize {
        self.max_value
    }

    pub closed spec fn spec_overflowed(&self) -> bool {
        self.overflow_flag
    }

    pub fn new(max_value: usize) -> (c: Self)
        ensures
            c.spec_count() == 0,
            c.spec_max() == max_value,
            !c.spec_overflowed(),
    {
        AtomicCounter { count: 0, max_value, overflow_flag: false }
    }

    /// Counts one up and returns the new value; latches the overflow flag
    /// when the count had already reached the bound.
    pub fn increment(&mut self) -> (r: usize)
        requires
            old(self).spec_count() < usize::MAX,
        ensures
            final(self).spec_count() == old(self).spec_count() + 1,
            r == final(self).spec_count(),
            final(self).spec_max() == old(self).spec_max(),
            final(self).spec_overflowed() == (old(self).spec_overflowed() || old(self).spec_count()
                >= old(self).spec_max()),
    {
        let current = self.count;
        if current >= self.max_value {
            self.overflow_flag = true;
        }
        self.count = current + 1;
        current + 1
    }

    /// Counts one down, wrapping at zero, and returns the old value less
    /// one, saturated at zero.
    pub fn decrement(&mut self) -> (r: usize)
        ensures
            final(self).spec_count() == usize_specs::wrapping_sub(old(self).spec_count(), 1),
            r == (if old(self).spec_count() == 0 {
                0usize
            } else {
                (old(self).spec_count() - 1) as usize
            }),
            final(self).spec_max() == old(self).spec_max(),
            final(self).spec_overflowed() == old(self).spec_overflowed(),
    {
        let previous = self.count;
        self.count = previous.wrapping_sub(1);
        if previous == 0 {
            0
        } else {
            previous - 1
        }
    }

    pub fn get(&self) -> (r: usize)
        ensures
            r == self.spec_count(),
    {
        self.count
    }

    pub fn reset(&mut self)
        ensures
            final(self).spec_count() == 0,
            !final(self).spec_overflowed(),
            final(self).spec_max() == old(self).spec_max(),
    {
        self.count = 0;
        self.overflow_flag = false;
    }

    pub fn has_overflowed(&self) -> (r: bool)
        ensures
            r == self.spec_overflowed(),
    {
        self.overflow_flag
    }

    /// Replaces the count with `new` only if it currently equals `current`,
    /// reporting the value seen either way.
    pub fn compare_and_swap(&mut self, current: usize, new: usize) -> (r: Result<usize, usize>)
        ensures
            final(self).spec_max() == old(self).spec_max(),
            final(self).spec_overflowed() == old(self).spec_overflowed(),
            match r {
                Ok(prev) => old(self).spec_count() == current && prev == current && final(self).spec_count() == new,
                Err(actual) => old(self).spec_count() != current && actual == old(self).spec_count()
                    && final(self).spec_count() == old(self).spec_count(),
            },
    {
        if self.count == current {
            self.count = new;
            Ok(current)
        } else {
            Err(self.count)
        }
    }
}

} // verus!
