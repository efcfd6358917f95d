//! Handing the slots a kernel claimed to its parameters.
use vstd::prelude::*;
use crate::lock::Access;

verus! {

/// The feed of claimed slots, as `(slot, access)` in declaration order.
#[derive(Debug)]
pub struct Rez {
    pub vals: Vec<(u64, Access)>,
    pub next: usize,
}

impl Rez {
    pub open spec fn remaining(&self) -> Seq<(u64, Access)> {
        self.vals@.skip(self.next as int)
    }

    pub fn new(vals: Vec<(u64, Access)>) -> (r: Rez)
        ensures
            r.vals@ == vals@,
            r.next == 0,
    {
        Rez { vals, next: 0 }
    }

    /// Takes the next slot, which must have been claimed for reading.
    pub fn take_ref(&mut self) -> (r: u64)
        requires
            old(self).next < old(self).vals@.len(),
            old(self).vals@[old(self).next as int].1 == Access::Read,
        ensures
            final(self).vals == old(self).vals,
            r == old(self).vals@[old(self).next as int].0,
            final(self).next == old(self).next + 1,
    {
        let n = self.vals.len();
        let (slot, _) = self.vals[self.next];
        proof {
            assert(self.next < n);
        }
        self.next = self.next + 1;
        slot
    }

    /// Takes the next slot, which must have been claimed for writing.
    pub fn take_mut(&mut self) -> (r: u64)
        requires
            old(self).next < old(self).vals@.len(),
            old(self).vals@[old(self).next as int].1 == Access::Write,
        ensures
            final(self).vals == old(self).vals,
            r == old(self).vals@[old(self).next as int].0,
            final(self).next == old(self).next + 1,
    {
        let n = self.vals.len();
        let (slot, _) = self.vals[self.next];
        proof {
            assert(self.next < n);
        }
        self.next = self.next + 1;
        slot
    }

    /// The access the next slot was claimed with, if any slot is left.
    pub fn next_access(&self) -> (r: Option<Access>)
        ensures
            r is None <==> self.next >= self.vals@.len(),
            r is Some ==> r->Some_0 == self.vals@[self.next as int].1,
    {
        if self.next < self.vals.len() {
            Some(self.vals[self.next].1)
        } else {
            None
        }
    }
}

/// An argument handed to a kernel from outside the universe.
#[derive(Debug)]
pub struct KernelArg<T> {
    pub val: T,
}

impl<T> KernelArg<T> {
    pub fn new(val: T) -> (r: KernelArg<T>)
        ensures
            r.val == val,
    {
        KernelArg { val }
    }

    pub fn get(&self) -> (r: &T)
        ensures
            *r == self.val,
    {
        &self.val
    }
}

/// A `&mut T` lent out as if it were a `&T`: reads are free, writes go through the
/// owner's own methods.
pub struct MutButRef<'a, T> {
    inner: &'a mut T,
}

impl<'a, T> MutButRef<'a, T> {
    /// The value lent.
    pub closed spec fn value(&self) -> T {
        *self.inner
    }

    pub fn new(t: &'a mut T) -> (r: MutButRef<'a, T>)
        ensures
            r.value() == *old(t),
    {
        MutButRef { inner: t }
    }

    pub fn get(&self) -> (r: &T)
        ensures
            *r == self.value(),
    {
        &*self.inner
    }
}

} // verus!
