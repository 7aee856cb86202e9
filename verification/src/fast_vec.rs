//! An owning, growable array with explicit capacity management.
//!
//! The buffer tracks its capacity separately from its length: a fresh buffer
//! owns no storage, the first growth reserves four slots, and every later
//! growth doubles the reservation. Capacity never shrinks. Elements enter at
//! the end and leave from the end, so a run of pushes followed by pops hands
//! the values back in reverse order.

use vstd::prelude::*;

verus! {

pub struct FastVec<T> {
    data: Vec<T>,
    capacity: usize,
}

impl<T> View for FastVec<T> {
    type V = Seq<T>;

    closed spec fn view(&self) -> Seq<T> {
        self.data@
    }
}

impl<T> FastVec<T> {
    /// Length never exceeds the tracked capacity.
    pub closed spec fn well_formed(&self) -> bool {
        self.data@.len() <= self.capacity
    }

    pub closed spec fn spec_capacity(&self) -> usize {
        self.capacity
    }

    /// The capacity that one growth step yields: four for an empty
    /// reservation, twice the current reservation otherwise.
    pub open spec fn grown_capacity(cap: usize) -> int {
        if cap == 0 {
            4
        } else {
            2 * (cap as int)
        }
    }

    pub fn new() -> (v: Self)
        ensures
            v.well_formed(),
            v@ == Seq::<T>::empty(),
            v.spec_capacity() == 0,
    {
        FastVec { data: Vec::new(), capacity: 0 }
    }

    pub fn with_capacity(capacity: usize) -> (v: Self)
        ensures
            v.well_formed(),
            v@ == Seq::<T>::empty(),
            v.spec_capacity() == capacity,
    {
        let mut data: Vec<T> = Vec::new();
        data.reserve(capacity);
        FastVec { data, capacity }
    }

    pub fn push(&mut self, value: T)
        requires
            old(self).well_formed(),
            old(self)@.len() < usize::MAX / 2,
        ensures
            final(self).well_formed(),
            final(self)@ == old(self)@.push(value),
            final(self).spec_capacity() == if old(self)@.len() < old(self).spec_capacity() {
                old(self).spec_capacity() as int
            } else {
                Self::grown_capacity(old(self).spec_capacity())
            },
            final(self).spec_capacity() >= old(self).spec_capacity(),
    {
        if self.data.len() == self.capacity {
            self.grow();
        }
        self.data.push(value);
    }

    pub fn pop(&mut self) -> (r: Option<T>)
        requires
            old(self).well_formed(),
        ensures
            final(self).well_formed(),
            final(self).spec_capacity() == old(self).spec_capacity(),
            old(self)@.len() == 0 ==> r is None && final(self)@ == old(self)@,
            old(self)@.len() > 0 ==> r == Some(old(self)@.last()) && final(self)@ == old(
                self,
            )@.drop_last(),
    {
        if self.data.len() == 0 {
            None
        } else {
            self.data.pop()
        }
    }

    pub fn get(&self, index: usize) -> (r: Option<&T>)
        ensures
            match r {
                Some(v) => index < self@.len() && *v == self@[index as int],
                None => index >= self@.len(),
            },
    {
        if index < self.data.len() {
            Some(&self.data[index])
        } else {
            None
        }
    }

    pub fn len(&self) -> (r: usize)
        ensures
            r == self@.len(),
    {
        self.data.len()
    }

    pub fn capacity(&self) -> (r: usize)
        ensures
            r == self.spec_capacity(),
    {
        self.capacity
    }

    pub fn is_empty(&self) -> (r: bool)
        ensures
            r == (self@.len() == 0),
    {
        self.data.len() == 0
    }

    fn grow(&mut self)
        requires
            old(self).well_formed(),
            old(self).spec_capacity() <= usize::MAX / 2,
        ensures
            final(self).well_formed(),
            final(self)@ == old(self)@,
            final(self).spec_capacity() == Self::grown_capacity(old(self).spec_capacity()),
            final(self)@.len() < final(self).spec_capacity(),
    {
        let new_capacity: usize = if self.capacity == 0 {
            4
        } else {
            self.capacity * 2
        };
        self.data.reserve(new_capacity - self.data.len());
        self.capacity = new_capacity;
    }
}

/// The values handed back by popping `k` times from a buffer whose contents
/// are `s`: each pop removes and returns the last element.
pub open spec fn drain_lifo<T>(s: Seq<T>, k: nat) -> Seq<T>
    decreases k,
{
    if k == 0 || s.len() == 0 {
        Seq::empty()
    } else {
        seq![s.last()] + drain_lifo(s.drop_last(), (k - 1) as nat)
    }
}

/// After any sequence of pushes followed by an equal count of pops, the
/// values come back in strict reverse push order. `push` appends `vs` one
/// element at a time, so the contents equal `vs`; draining them all yields
/// `vs` reversed.
pub proof fn lemma_push_pop_lifo<T>(vs: Seq<T>)
    ensures
        drain_lifo(vs, vs.len()) == vs.reverse(),
    decreases vs.len(),
{
    if vs.len() == 0 {
        assert(drain_lifo(vs, vs.len()) =~= vs.reverse());
    } else {
        lemma_push_pop_lifo(vs.drop_last());
        assert(drain_lifo(vs, vs.len()) =~= vs.reverse());
    }
}

} // verus!
