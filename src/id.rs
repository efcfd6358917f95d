//! Strongly typed row ids and ranges of them.
use core::marker::PhantomData;
use vstd::prelude::*;

verus! {

/// The raw value of the invalid id.
pub const LAST_RAW: u64 = 0xffff_ffff_ffff_ffff;

/// A row id of the table marked by `M`.
#[derive(Debug, PartialEq, Eq, PartialOrd, Ord, Hash)]
pub struct Id<M> {
    pub raw: u64,
    pub table: PhantomData<M>,
}

impl<M> Clone for Id<M> {
    fn clone(&self) -> (r: Self)
        ensures
            r == *self,
    {
        *self
    }
}

impl<M> Copy for Id<M> {}

impl<M> Id<M> {
    pub fn new(raw: u64) -> (r: Id<M>)
        ensures
            r.raw == raw,
    {
        Id { raw, table: PhantomData }
    }

    pub fn from_usize(x: usize) -> (r: Id<M>)
        ensures
            r.raw == x,
    {
        Id { raw: x as u64, table: PhantomData }
    }

    pub fn to_usize(self) -> (r: usize)
        requires
            self.raw <= usize::MAX,
        ensures
            r == self.raw,
    {
        self.raw as usize
    }

    /// The id `d` places further on; the caller keeps the result within the raw range.
    pub fn step(self, d: i8) -> (r: Id<M>)
        requires
            0 <= self.raw + d <= u64::MAX,
        ensures
            r.raw == self.raw + d,
    {
        let raw: u64 = if d >= 0 {
            self.raw + (d as u64)
        } else {
            self.raw - ((0i16 - d as i16) as u64)
        };
        Id { raw, table: PhantomData }
    }

    pub fn next(self) -> (r: Id<M>)
        requires
            self.raw < u64::MAX,
        ensures
            r.raw == self.raw + 1,
    {
        self.step(1)
    }

    pub fn zero() -> (r: Id<M>)
        ensures
            r.raw == 0,
    {
        Id { raw: 0, table: PhantomData }
    }

    /// The sentinel id that marks "no row".
    pub fn last() -> (r: Id<M>)
        ensures
            r.raw == LAST_RAW,
    {
        Id { raw: LAST_RAW, table: PhantomData }
    }
}

/// Whether some id of `v` has the raw value `y`.
pub open spec fn ids_contain<M>(v: Seq<Id<M>>, y: u64) -> bool {
    exists|k: int| 0 <= k < v.len() && v[k].raw == y
}

/// An id known to be below the outer capacity of its table's id list.
#[derive(Debug, PartialEq, Eq, PartialOrd, Ord, Hash)]
pub struct CheckedId<M> {
    pub id: Id<M>,
}

impl<M> Clone for CheckedId<M> {
    fn clone(&self) -> (r: Self)
        ensures
            r == *self,
    {
        *self
    }
}

impl<M> Copy for CheckedId<M> {}

impl<M> CheckedId<M> {
    pub fn uncheck(self) -> (r: Id<M>)
        ensures
            r == self.id,
    {
        self.id
    }

    pub fn to_usize(self) -> (r: usize)
        requires
            self.id.raw <= usize::MAX,
        ensures
            r == self.id.raw,
    {
        self.id.raw as usize
    }
}

/// Checks `raw` against the bound `max`: the checked id when it is below.
pub fn check_from_capacity<M>(raw: u64, max: u64) -> (r: Option<CheckedId<M>>)
    ensures
        r is Some <==> raw < max,
        r is Some ==> r->Some_0.id.raw == raw,
{
    if raw < max {
        Some(CheckedId { id: Id::new(raw) })
    } else {
        None
    }
}

/// The ids `start <= i < end` of one table.
#[derive(Debug, PartialEq, Eq, PartialOrd, Ord, Hash)]
pub struct IdRange<M> {
    pub start: Id<M>,
    pub end: Id<M>,
}

impl<M> Clone for IdRange<M> {
    fn clone(&self) -> (r: Self)
        ensures
            r == *self,
    {
        *self
    }
}

impl<M> Copy for IdRange<M> {}

impl<M> IdRange<M> {
    /// The ids the range holds, in ascending order.
    pub open spec fn view_ids(self) -> Seq<u64> {
        if self.start.raw <= self.end.raw {
            Seq::new((self.end.raw - self.start.raw) as nat, |k: int| (self.start.raw + k) as u64)
        } else {
            Seq::empty()
        }
    }

    pub fn new(start: Id<M>, end: Id<M>) -> (r: IdRange<M>)
        ensures
            r.start == start,
            r.end == end,
    {
        IdRange { start, end }
    }

    /// The range holding `id` alone.
    pub fn on(id: Id<M>) -> (r: IdRange<M>)
        requires
            id.raw < u64::MAX,
        ensures
            r.start.raw == id.raw,
            r.end.raw == id.raw + 1,
    {
        IdRange { start: id, end: id.next() }
    }

    /// The ids below `end`.
    pub fn to(end: Id<M>) -> (r: IdRange<M>)
        ensures
            r.start.raw == 0,
            r.end == end,
    {
        IdRange { start: Id::zero(), end }
    }

    pub fn empty() -> (r: IdRange<M>)
        ensures
            r.start.raw == 0,
            r.end.raw == 0,
    {
        IdRange { start: Id::zero(), end: Id::zero() }
    }

    /// Takes the first id off the front of the range.
    pub fn step(&mut self) -> (r: Option<Id<M>>)
        ensures
            old(self).start.raw >= old(self).end.raw ==> r is None && *final(self) == *old(self),
            old(self).start.raw < old(self).end.raw ==> r is Some && r->Some_0 == old(self).start
                && final(self).start.raw == old(self).start.raw + 1 && final(self).end == old(self).end,
    {
        if self.start.raw >= self.end.raw {
            return None;
        }
        let ret = self.start;
        self.start = self.start.next();
        Some(ret)
    }

    pub fn contains(&self, i: Id<M>) -> (r: bool)
        ensures
            r == (self.start.raw <= i.raw && i.raw < self.end.raw),
    {
        self.start.raw <= i.raw && i.raw < self.end.raw
    }

    pub fn len(&self) -> (r: usize)
        requires
            self.start.raw <= self.end.raw,
            self.end.raw - self.start.raw <= usize::MAX,
        ensures
            r == self.end.raw - self.start.raw,
    {
        (self.end.raw - self.start.raw) as usize
    }

    pub fn is_empty(&self) -> (r: bool)
        ensures
            r == (self.start.raw == self.end.raw),
    {
        self.start.raw == self.end.raw
    }

    /// The `i`th id of the range, if there is one.
    pub fn offset(&self, i: usize) -> (r: Option<Id<M>>)
        ensures
            r is Some <==> self.start.raw + i < self.end.raw,
            r is Some ==> r->Some_0.raw == self.start.raw + i,
    {
        if self.start.raw >= self.end.raw {
            return None;
        }
        if (i as u64) < self.end.raw - self.start.raw {
            Some(Id::new(self.start.raw + i as u64))
        } else {
            None
        }
    }

    /// The position of `i` within the range, if the range holds it.
    pub fn inner_index(&self, i: Id<M>) -> (r: Option<u64>)
        ensures
            r is Some <==> (self.start.raw <= i.raw && i.raw < self.end.raw),
            r is Some ==> r->Some_0 == i.raw - self.start.raw,
    {
        if self.contains(i) {
            Some(i.raw - self.start.raw)
        } else {
            None
        }
    }

    /// Each id of the range in ascending order.
    pub fn iter(self) -> (r: Vec<Id<M>>)
        requires
            self.end.raw - self.start.raw <= usize::MAX,
        ensures
            r@.len() == self.view_ids().len(),
            forall|k: int| 0 <= k < r@.len() ==> r@[k].raw == self.view_ids()[k],
    {
        let mut out: Vec<Id<M>> = Vec::new();
        if self.start.raw >= self.end.raw {
            return out;
        }
        let mut cur = self.start.raw;
        while cur < self.end.raw
            invariant
                self.start.raw <= cur <= self.end.raw,
                out@.len() == cur - self.start.raw,
                forall|k: int| 0 <= k < out@.len() ==> out@[k].raw == self.start.raw + k,
            decreases self.end.raw - cur,
        {
            out.push(Id::new(cur));
            cur = cur + 1;
        }
        out
    }
}

} // verus!
