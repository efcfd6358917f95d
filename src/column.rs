//! Columns and the views a kernel gets of them.
use core::marker::PhantomData;
use vstd::prelude::*;
use crate::id::{Id, IdRange};

verus! {

/// The values `log` writes over `data`, later entries over earlier ones.
pub open spec fn apply_log<M, T>(data: Seq<T>, log: Seq<(Id<M>, T)>) -> Seq<T>
    decreases log.len(),
{
    if log.len() == 0 {
        data
    } else {
        let (id, v) = log.last();
        apply_log(data, log.drop_last()).update(id.raw as int, v)
    }
}

/// The ids of `log` rise strictly and lie below `len`.
pub open spec fn ascending_below<M, T>(log: Seq<(Id<M>, T)>, len: nat) -> bool {
    &&& forall|j: int, k: int| 0 <= j < k < log.len() ==> log[j].0.raw < log[k].0.raw
    &&& forall|j: int| 0 <= j < log.len() ==> log[j].0.raw < len
}

pub proof fn lemma_apply_log_len<M, T>(data: Seq<T>, log: Seq<(Id<M>, T)>)
    requires
        forall|j: int| 0 <= j < log.len() ==> log[j].0.raw < data.len(),
    ensures
        apply_log(data, log).len() == data.len(),
    decreases log.len(),
{
    if log.len() > 0 {
        lemma_apply_log_len(data, log.drop_last());
    }
}

/// A position that no entry of `log` names keeps its stored value.
pub proof fn lemma_apply_log_untouched<M, T>(data: Seq<T>, log: Seq<(Id<M>, T)>, k: int)
    requires
        0 <= k < data.len(),
        forall|j: int| 0 <= j < log.len() ==> log[j].0.raw != k,
        forall|j: int| 0 <= j < log.len() ==> log[j].0.raw < data.len(),
    ensures
        apply_log(data, log)[k] == data[k],
    decreases log.len(),
{
    if log.len() > 0 {
        lemma_apply_log_untouched(data, log.drop_last(), k);
        lemma_apply_log_len(data, log.drop_last());
    }
}

/// Columns of one table that start with equal lengths end with equal lengths when each
/// has its logged edits applied and receives one value for each pushed row: edits never
/// change a column's length.
pub proof fn lemma_columns_stay_level<M, A, B>(
    a: Seq<A>,
    b: Seq<B>,
    edits_a: Seq<(Id<M>, A)>,
    edits_b: Seq<(Id<M>, B)>,
    pushed_a: Seq<A>,
    pushed_b: Seq<B>,
)
    requires
        a.len() == b.len(),
        ascending_below(edits_a, a.len()),
        ascending_below(edits_b, b.len()),
        pushed_a.len() == pushed_b.len(),
    ensures
        (apply_log(a, edits_a) + pushed_a).len() == (apply_log(b, edits_b) + pushed_b).len(),
{
    lemma_apply_log_len(a, edits_a);
    lemma_apply_log_len(b, edits_b);
}

/// The values of one attribute of a table, one per row.
#[derive(Debug)]
pub struct Column<M, T> {
    pub data: Vec<T>,
    pub table: PhantomData<M>,
}

impl<M, T> Column<M, T> {
    pub fn new() -> (r: Column<M, T>)
        ensures
            r.data@ == Seq::<T>::empty(),
    {
        Column { data: Vec::new(), table: PhantomData }
    }

    pub fn data(&self) -> (r: &Vec<T>)
        ensures
            r@ == self.data@,
    {
        &self.data
    }

    pub fn set_data(&mut self, d: Vec<T>)
        ensures
            final(self).data@ == d@,
    {
        self.data = d;
    }

    pub fn len(&self) -> (r: usize)
        ensures
            r == self.data@.len(),
    {
        self.data.len()
    }

    pub fn is_empty(&self) -> (r: bool)
        ensures
            r == (self.data@.len() == 0),
    {
        self.data.len() == 0
    }

    /// The value of row `id`.
    pub fn get(&self, id: Id<M>) -> (r: &T)
        requires
            id.raw < self.data@.len(),
        ensures
            *r == self.data@[id.raw as int],
    {
        let n = self.data.len();
        proof {
            assert(id.raw < n);
        }
        &self.data[id.raw as usize]
    }

    /// Writes each logged value into its row, in the order of the log.
    pub fn apply_edits(&mut self, log: Vec<(Id<M>, T)>)
        requires
            forall|j: int| 0 <= j < log@.len() ==> log@[j].0.raw < old(self).data@.len(),
        ensures
            final(self).data@ == apply_log(old(self).data@, log@),
    {
        let mut log = log;
        let total = log.len();
        let mut rest: Vec<(Id<M>, T)> = Vec::new();
        let ghost full = log@;
        // Reverse the log so that its entries can be taken from the back in order.
        while log.len() > 0
            invariant
                full.len() == log@.len() + rest@.len(),
                full.len() == total,
                forall|j: int| 0 <= j < log@.len() ==> log@[j] == full[j],
                forall|j: int| 0 <= j < rest@.len() ==> rest@[j] == full[full.len() - 1 - j],
            decreases log@.len(),
        {
            let e = log.pop().unwrap();
            rest.push(e);
        }
        let mut done: usize = 0;
        while rest.len() > 0
            invariant
                full.len() == done + rest@.len(),
                full.len() == total,
                forall|j: int| 0 <= j < rest@.len() ==> rest@[j] == full[full.len() - 1 - j],
                forall|j: int| 0 <= j < full.len() ==> full[j].0.raw < old(self).data@.len(),
                self.data@ == apply_log(old(self).data@, full.take(done as int)),
                self.data@.len() == old(self).data@.len(),
            decreases rest@.len(),
        {
            let (id, v) = rest.pop().unwrap();
            proof {
                assert(full.take(done as int + 1).drop_last() =~= full.take(done as int));
                assert(full.take(done as int + 1).last() == full[done as int]);
            }
            let n = self.data.len();
            proof {
                assert(id.raw < n);
            }
            self.data.set(id.raw as usize, v);
            done = done + 1;
        }
        proof {
            assert(full.take(full.len() as int) =~= full);
        }
    }
}

/// A view that reads the column.
pub struct ReadColumn<'a, M, T> {
    pub col: &'a Column<M, T>,
}

impl<'a, M, T> ReadColumn<'a, M, T> {
    pub fn len(&self) -> (r: usize)
        ensures
            r == self.col.data@.len(),
    {
        self.col.data.len()
    }

    /// The value of row `id`, which must be below the column's length.
    pub fn index(&self, id: Id<M>) -> (r: &T)
        requires
            id.raw < self.col.data@.len(),
        ensures
            *r == self.col.data@[id.raw as int],
    {
        self.col.get(id)
    }
}

/// A view that edits values in place with no log; only for columns whose edits nobody
/// tracks.
#[derive(Debug)]
pub struct FastEditColumn<M, T> {
    pub col: Column<M, T>,
}

impl<M, T> FastEditColumn<M, T> {
    /// Opens the view; only for a column whose edits nobody tracks, which the caller has
    /// checked.
    pub fn new(col: Column<M, T>) -> (r: FastEditColumn<M, T>)
        ensures
            r.col == col,
    {
        FastEditColumn { col }
    }

    pub fn index(&self, id: Id<M>) -> (r: &T)
        requires
            id.raw < self.col.data@.len(),
        ensures
            *r == self.col.data@[id.raw as int],
    {
        self.col.get(id)
    }

    /// Sets row `id` to `v` in place.
    pub fn set(&mut self, id: Id<M>, v: T)
        requires
            id.raw < old(self).col.data@.len(),
        ensures
            final(self).col.data@ == old(self).col.data@.update(id.raw as int, v),
    {
        let n = self.col.data.len();
        proof {
            assert(id.raw < n);
        }
        self.col.data.set(id.raw as usize, v);
    }

    pub fn into_column(self) -> (r: Column<M, T>)
        ensures
            r == self.col,
    {
        self.col
    }
}

/// A view that edits values in place without changing the length. When the column is
/// tracked, edits go to a log in ascending id order and reach the column only when the
/// log is applied after the kernel.
#[derive(Debug)]
pub struct EditColumn<M, T> {
    pub col: Column<M, T>,
    pub must_log: bool,
    pub log: Vec<(Id<M>, T)>,
}

impl<M, T> EditColumn<M, T> {
    pub open spec fn wf(&self) -> bool {
        &&& ascending_below(self.log@, self.col.data@.len())
        &&& !self.must_log ==> self.log@.len() == 0
    }

    /// The values as the kernel sees them: stored values under the logged ones.
    pub open spec fn current(&self) -> Seq<T> {
        apply_log(self.col.data@, self.log@)
    }

    /// Opens the view; `must_log` says whether the column's edits are tracked.
    pub fn new(col: Column<M, T>, must_log: bool) -> (r: EditColumn<M, T>)
        ensures
            r.wf(),
            r.col == col,
            r.must_log == must_log,
            r.log@.len() == 0,
            r.current() == col.data@,
    {
        EditColumn { col, must_log, log: Vec::new() }
    }

    pub fn len(&self) -> (r: usize)
        ensures
            r == self.col.data@.len(),
    {
        self.col.data.len()
    }

    /// Whether row `id` may be read or set now: it is below the length, and not below the
    /// last edited id.
    pub open spec fn in_order(&self, id: Id<M>) -> bool {
        id.raw < self.col.data@.len() && (self.log@.len() == 0 || id.raw >= self.log@.last().0.raw)
    }

    /// Whether row `id` may be read or set now, computed.
    pub fn may_access(&self, id: Id<M>) -> (r: bool)
        ensures
            r == self.in_order(id),
    {
        let len = self.col.data.len();
        if id.raw >= len as u64 {
            return false;
        }
        let n = self.log.len();
        n == 0 || id.raw >= self.log[n - 1].0.raw
    }

    /// The current value of row `id`, which must come in order.
    pub fn index(&self, id: Id<M>) -> (r: &T)
        requires
            self.wf(),
            self.in_order(id),
        ensures
            *r == self.current()[id.raw as int],
    {
        let n = self.log.len();
        if n > 0 {
            let last = self.log[n - 1].0.raw;
            if id.raw == last {
                proof {
                    lemma_apply_log_len(self.col.data@, self.log@.drop_last());
                }
                return &self.log[n - 1].1;
            }
        }
        proof {
            lemma_apply_log_untouched(self.col.data@, self.log@, id.raw as int);
        }
        let len = self.col.data.len();
        proof {
            assert(id.raw < len);
        }
        &self.col.data[id.raw as usize]
    }

    /// Sets row `id`, which must come in order, to `v`. A tracked column logs the edit: a
    /// new entry for an id above the last one, or a new value in the last entry for the
    /// same id; an untracked column is written in place.
    pub fn set(&mut self, id: Id<M>, v: T)
        requires
            old(self).wf(),
            old(self).in_order(id),
        ensures
            final(self).wf(),
            final(self).must_log == old(self).must_log,
            final(self).col.data@.len() == old(self).col.data@.len(),
            final(self).current() == old(self).current().update(id.raw as int, v),
            old(self).must_log ==> final(self).col == old(self).col,
            old(self).must_log && (old(self).log@.len() == 0 || id.raw > old(self).log@.last().0.raw)
                ==> final(self).log@ == old(self).log@.push((id, v)),
            old(self).must_log && old(self).log@.len() > 0 && id.raw == old(self).log@.last().0.raw
                ==> final(self).log@ == old(self).log@.update(old(self).log@.len() - 1, (id, v)),
            !old(self).must_log ==> final(self).log@ == old(self).log@ && final(self).col.data@
                == old(self).col.data@.update(id.raw as int, v),
    {
        let len = self.col.data.len();
        proof {
            assert(id.raw < len);
        }
        if !self.must_log {
            self.col.data.set(id.raw as usize, v);
            return;
        }
        let n = self.log.len();
        if n > 0 {
            let last = self.log[n - 1].0.raw;
            if id.raw == last {
                let ghost before = self.log@;
                self.log.set(n - 1, (id, v));
                proof {
                    assert(self.log@.drop_last() =~= before.drop_last());
                    lemma_apply_log_len(self.col.data@, before.drop_last());
                    assert(apply_log(self.col.data@, self.log@) =~= apply_log(self.col.data@, before).update(
                        id.raw as int,
                        v,
                    ));
                }
                return;
            }
        }
        let ghost before = self.log@;
        self.log.push((id, v));
        proof {
            assert(self.log@.drop_last() =~= before);
        }
    }

    /// A read view of the column; only before any edit has been logged.
    pub fn borrow(&self) -> (r: ReadColumn<'_, M, T>)
        requires
            self.log@.len() == 0,
        ensures
            *r.col == self.col,
    {
        ReadColumn { col: &self.col }
    }

    /// Ends the view: the column as it was kept, whether edits are tracked, and the log.
    pub fn into_parts(self) -> (r: (Column<M, T>, bool, Vec<(Id<M>, T)>))
        requires
            self.wf(),
        ensures
            r.0 == self.col,
            r.1 == self.must_log,
            r.2@ == self.log@,
            ascending_below(r.2@, r.0.data@.len()),
            apply_log(r.0.data@, r.2@) == self.current(),
    {
        (self.col, self.must_log, self.log)
    }
}

/// A view that appends rows; existing rows are read only.
#[derive(Debug)]
pub struct WriteColumn<M, T> {
    pub col: Column<M, T>,
    pub old_len: usize,
}

impl<M, T> WriteColumn<M, T> {
    pub open spec fn wf(&self) -> bool {
        self.old_len <= self.col.data@.len()
    }

    pub fn new(col: Column<M, T>) -> (r: WriteColumn<M, T>)
        ensures
            r.wf(),
            r.col == col,
            r.old_len == col.data@.len(),
    {
        let old_len = col.data.len();
        WriteColumn { col, old_len }
    }

    pub fn len(&self) -> (r: usize)
        ensures
            r == self.col.data@.len(),
    {
        self.col.data.len()
    }

    pub fn index(&self, id: Id<M>) -> (r: &T)
        requires
            id.raw < self.col.data@.len(),
        ensures
            *r == self.col.data@[id.raw as int],
    {
        self.col.get(id)
    }

    /// A read view of the column.
    pub fn borrow(&self) -> (r: ReadColumn<'_, M, T>)
        ensures
            *r.col == self.col,
    {
        ReadColumn { col: &self.col }
    }

    /// Appends `v` as a new row.
    pub fn push(&mut self, v: T)
        requires
            old(self).wf(),
        ensures
            final(self).wf(),
            final(self).col.data@ == old(self).col.data@.push(v),
            final(self).old_len == old(self).old_len,
    {
        self.col.data.push(v);
    }

    /// The rows appended since the view was opened.
    pub fn pushed(&self) -> (r: IdRange<M>)
        requires
            self.wf(),
        ensures
            r.start.raw == self.old_len,
            r.end.raw == self.col.data@.len(),
    {
        IdRange::new(Id::from_usize(self.old_len), Id::from_usize(self.col.data.len()))
    }

    /// Ends the view: the column, and the rows appended to it.
    pub fn into_parts(self) -> (r: (Column<M, T>, IdRange<M>))
        requires
            self.wf(),
        ensures
            r.0 == self.col,
            r.1.start.raw == self.old_len,
            r.1.end.raw == self.col.data@.len(),
    {
        let pushed = self.pushed();
        (self.col, pushed)
    }
}

} // verus!
