//! Reference counting of shared render resources.
use vstd::prelude::*;

verus! {

/// Whether a counted resource is still referenced.
#[derive(Clone, Copy, Debug, PartialEq, Eq, Structural)]
pub enum RefrenceStatus {
    InUse,
    NotUsed,
}

/// Keeps refrence count of data and signals if refrence count reaches zero
pub struct RefCounter<T> {
    counter: usize,
    data: T,
}

impl<T> RefCounter<T> {
    /// Number of references currently held.
    pub closed spec fn count(&self) -> nat {
        self.counter as nat
    }

    /// The counted data.
    pub closed spec fn value(&self) -> T {
        self.data
    }

    pub fn new(data: T, num_refs: usize) -> (r: Self)
        ensures
            r.count() == num_refs,
            r.value() == data,
    {
        Self { counter: num_refs, data }
    }

    pub fn get(&self) -> (r: &T)
        ensures
            *r == self.value(),
    {
        &self.data
    }

    pub fn refrences(&self) -> (n: usize)
        ensures
            n == self.count(),
    {
        self.counter
    }

    /// Mutable access to the data; the count stays as it is.
    pub fn get_mut(&mut self) -> (r: &mut T)
        ensures
            *r == old(self).value(),
            final(self).value() == *final(r),
            final(self).count() == old(self).count(),
    {
        &mut self.data
    }

    /// Gets data, consumes self
    pub fn drain(self) -> (r: T)
        ensures
            r == self.value(),
    {
        self.data
    }

    /// Adds one reference; the data is then in use.
    pub fn incr_refrence(&mut self) -> (s: RefrenceStatus)
        requires
            old(self).count() < usize::MAX,
        ensures
            final(self).count() == old(self).count() + 1,
            final(self).value() == old(self).value(),
            s == RefrenceStatus::InUse,
    {
        self.counter = self.counter + 1;
        RefrenceStatus::InUse
    }

    /// Drops one reference and reports whether any remain.
    pub fn decr_refrence(&mut self) -> (s: RefrenceStatus)
        requires
            old(self).count() >= 1,
        ensures
            final(self).count() == old(self).count() - 1,
            final(self).value() == old(self).value(),
            s == (if final(self).count() == 0 {
                RefrenceStatus::NotUsed
            } else {
                RefrenceStatus::InUse
            }),
    {
        self.counter = self.counter - 1;
        if self.counter == 0 {
            RefrenceStatus::NotUsed
        } else {
            RefrenceStatus::InUse
        }
    }
}

} // verus!
