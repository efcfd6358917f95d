//! The events a table emits, and the order of their lifestages.
use vstd::prelude::*;
use crate::id::Id;
use crate::runlist::RunList;
use crate::selection::Selection;
use core::marker::PhantomData;

verus! {

/// Values were added to or removed from memory; wraps the other stages like a guard.
#[derive(Debug, Clone, Copy)]
pub struct MEMORY;

/// An object was created or destroyed.
#[derive(Debug, Clone, Copy)]
pub struct LOGICAL;

/// An object was loaded or saved, not created or destroyed.
#[derive(Debug, Clone, Copy)]
pub struct LOAD;

/// The lifestage of a push or delete event.
#[derive(Debug, Clone, Copy, PartialEq, Eq, Structural)]
pub enum Lifestage {
    Memory,
    Logical,
    Load,
}

/// The two kinds of batched row events.
#[derive(Debug, Clone, Copy, PartialEq, Eq, Structural)]
pub enum EventKind {
    Push,
    Delete,
}

/// A value that only the engine should make: a `LOGICAL` event must come with its
/// `MEMORY` event, or indexes and cascades fall out of step.
#[derive(Debug)]
pub struct Unsafe<T> {
    inner: T,
}

impl<T> Unsafe<T> {
    /// The wrapped value.
    pub closed spec fn value(&self) -> T {
        self.inner
    }

    pub fn new(t: T) -> (r: Unsafe<T>)
        ensures
            r.value() == t,
    {
        Unsafe { inner: t }
    }

    pub fn get(&self) -> (r: &T)
        ensures
            *r == self.value(),
    {
        &self.inner
    }
}

/// Rows were pushed.
#[derive(Debug)]
pub struct Push<M> {
    pub lifestage: Lifestage,
    pub ids: RunList<M>,
}

/// Rows are deleted.
#[derive(Debug)]
pub struct Delete<M> {
    pub lifestage: Lifestage,
    pub ids: RunList<M>,
}

/// Values of a column are about to change: `(id, new value)` in ascending id order.
#[derive(Debug)]
pub struct Edit<M, T> {
    pub new: Vec<(Id<M>, T)>,
}

/// A walk of the foreign-key graph that starts at table `FM`: each table that refers to
/// the selected rows adds the rows that refer to them.
#[derive(Debug)]
pub struct Select<FM> {
    pub selection: Selection,
    pub foreign: PhantomData<FM>,
}

impl<FM> Select<FM> {
    /// A walk that starts from the rows `sel` of the table tagged `tag`.
    pub fn from(tag: u64, sel: RunList<FM>) -> (r: Select<FM>)
        requires
            sel.wf(),
        ensures
            r.selection.wf(),
            r.selection.tags@ == seq![tag],
            r.selection.lists@.len() == 1 && r.selection.lists@[0] is Some && r.selection.lists@[0]->Some_0@
                == sel@,
            r.selection.order@.len() == 0,
            r.selection.exclude@.len() == 0,
    {
        Select { selection: Selection::from(tag, sel), foreign: PhantomData }
    }

    /// Whether the walk must not enter this event's own kind, tagged `own`.
    pub fn excluded(&self, own: u64) -> (r: bool)
        ensures
            r == self.selection.exclude@.contains(own),
    {
        self.selection.excluded(own)
    }
}

/// The lifestages in which a batch is announced: memory first for pushes, last for
/// deletes; the middle stage is `Load` for a bulk load and `Logical` otherwise.
pub open spec fn stage_order(kind: EventKind, load: bool) -> Seq<Lifestage> {
    let middle = if load {
        Lifestage::Load
    } else {
        Lifestage::Logical
    };
    match kind {
        EventKind::Push => seq![Lifestage::Memory, middle],
        EventKind::Delete => seq![middle, Lifestage::Memory],
    }
}

/// The lifestages in which a batch of `kind` is announced, in order.
pub fn stages(kind: EventKind, load: bool) -> (r: Vec<Lifestage>)
    ensures
        r@ == stage_order(kind, load),
{
    let middle = if load {
        Lifestage::Load
    } else {
        Lifestage::Logical
    };
    let mut out: Vec<Lifestage> = Vec::new();
    match kind {
        EventKind::Push => {
            out.push(Lifestage::Memory);
            out.push(middle);
        },
        EventKind::Delete => {
            out.push(middle);
            out.push(Lifestage::Memory);
        },
    }
    proof {
        assert(out@ =~= stage_order(kind, load));
    }
    out
}

} // verus!
