//! A one-shot cell: empty until a value is published in it, then holding that
//! value for the rest of its life.
use vstd::prelude::*;

verus! {

/// A cell that holds nothing or exactly one value of `T`, whose storage is
/// accounted to `allocator`.
pub struct LazyAtomicCell<A: 'static, T> {
    allocator: &'static A,
    value: Option<T>,
}

impl<A: 'static, T> LazyAtomicCell<A, T> {
    /// What the cell holds.
    pub closed spec fn contents(&self) -> Option<T> {
        self.value
    }

    /// The allocator the cell was made with.
    pub closed spec fn spec_allocator(&self) -> &'static A {
        self.allocator
    }

    /// Creates an empty cell.
    pub fn new(allocator: &'static A) -> (r: Self)
        ensures
            r.contents() is None,
            r.spec_allocator() == allocator,
    {
        LazyAtomicCell { allocator, value: None }
    }

    /// The allocator the cell was made with.
    pub fn allocator(&self) -> (r: &'static A)
        ensures
            r == self.spec_allocator(),
    {
        self.allocator
    }

    /// Whether a value has been published in the cell.
    pub fn is_initialized(&self) -> (r: bool)
        ensures
            r == self.contents() is Some,
    {
        self.value.is_some()
    }

    /// The value, if one has been published.
    pub fn get(&self) -> (r: Option<&T>)
        ensures
            r == match self.contents() {
                Some(v) => Some(&v),
                None => None::<&T>,
            },
    {
        match &self.value {
            Some(v) => Some(v),
            None => None,
        }
    }

    /// Publishes `candidate` if the cell is empty. Where a value was already
    /// published, the cell keeps it and `candidate` is handed back, for the
    /// caller to release.
    pub fn publish(&mut self, candidate: T) -> (r: Option<T>)
        ensures
            final(self).spec_allocator() == old(self).spec_allocator(),
            old(self).contents() is None ==> {
                &&& r is None
                &&& final(self).contents() == Some(candidate)
            },
            old(self).contents() is Some ==> {
                &&& r == Some(candidate)
                &&& final(self).contents() == old(self).contents()
            },
    {
        if self.value.is_some() {
            Some(candidate)
        } else {
            self.value = Some(candidate);
            None
        }
    }

    /// The value, built by `init` and published first where the cell is
    /// empty. `init` runs only in that case.
    pub fn get_or_create<F: FnOnce() -> T>(&mut self, init: F) -> (r: &mut T)
        requires
            old(self).contents() is None ==> init.requires(()),
        ensures
            final(self).spec_allocator() == old(self).spec_allocator(),
            old(self).contents() matches Some(v) ==> *r == v,
            old(self).contents() is None ==> init.ensures((), *r),
            final(self).contents() == Some(*final(r)),
    {
        if self.value.is_none() {
            self.value = Some(init());
        }
        match &mut self.value {
            Some(v) => v,
            None => vstd::pervasive::unreached(),
        }
    }

    /// The published value, for change in place.
    pub fn get_mut(&mut self) -> (r: &mut T)
        requires
            old(self).contents() is Some,
        ensures
            *r == old(self).contents()->0,
            final(self).contents() == Some(*final(r)),
            final(self).spec_allocator() == old(self).spec_allocator(),
    {
        match &mut self.value {
            Some(v) => v,
            None => vstd::pervasive::unreached(),
        }
    }

    /// Empties the cell, handing back what it held.
    pub fn take(&mut self) -> (r: Option<T>)
        ensures
            r == old(self).contents(),
            final(self).contents() is None,
            final(self).spec_allocator() == old(self).spec_allocator(),
    {
        self.value.take()
    }
}

} // verus!
