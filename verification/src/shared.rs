//! A named cell that applies caller-supplied functions to its value.
//!
//! Readers get the value by reference through a function of their choosing;
//! writers mutate it the same way. The cell here owns its value outright:
//! sharing between threads wraps it in a reference-counted lock outside this
//! crate, which serialises the same operations.

use vstd::prelude::*;

verus! {

pub struct SharedResource<T> {
    inner: T,
    id: String,
}

impl<T> SharedResource<T> {
    /// The value held.
    pub closed spec fn value(&self) -> T {
        self.inner
    }

    pub closed spec fn id_spec(&self) -> Seq<char> {
        self.id@
    }

    pub fn new(data: T, id: String) -> (r: Self)
        ensures
            r.value() == data,
            r.id_spec() == id@,
    {
        SharedResource { inner: data, id }
    }

    /// Applies `f` to the value and hands back what it returned.
    pub fn read<R, F: FnOnce(&T) -> R>(&self, f: F) -> (r: Result<R, &'static str>)
        requires
            call_requires(f, (&self.value(),)),
        ensures
            match r {
                Ok(out) => call_ensures(f, (&self.value(),), out),
                Err(_) => false,
            },
    {
        Ok(f(&self.inner))
    }

    /// Applies `f` to the value in place and hands back what it returned.
    pub fn write<R, F: FnOnce(&mut T) -> R>(&mut self, f: F) -> (r: Result<R, &'static str>)
        requires
            forall|t: &mut T| old(self).value() == *t ==> call_requires(f, (t,)),
        ensures
            match r {
                Ok(out) => exists|t: &mut T|
                    *t == old(self).value() && *final(t) == final(self).value() && call_ensures(
                        f,
                        (t,),
                        out,
                    ),
                Err(_) => false,
            },
    {
        Ok(f(&mut self.inner))
    }

    /// A handle of its own: this cell owns its value outright, so a new
    /// handle carries an independent copy of the value under the same name.
    pub fn clone_handle(&self) -> (r: Self) where T: Clone
        ensures
            r.id_spec() == self.id_spec(),
    {
        SharedResource { inner: self.inner.clone(), id: self.id.clone() }
    }

    /// Each handle owns its value, so exactly one owner holds it.
    pub fn strong_count(&self) -> (r: usize)
        ensures
            r == 1,
    {
        1
    }

    pub fn id(&self) -> (r: &str)
        ensures
            r@ == self.id_spec(),
    {
        self.id.as_str()
    }
}

} // verus!
