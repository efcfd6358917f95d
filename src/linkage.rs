//! Secondary indexes on columns of integer values, kept up to date from the table's
//! events, and the foreign-key cascade and selection that use them.
use core::marker::PhantomData;
use vstd::prelude::*;
use crate::column::{apply_log, Column};
use crate::id::{ids_contain, Id, IdRange, LAST_RAW};
use crate::idlist::IdList;
use crate::runlist::RunList;

verus! {

/// The order of index entries: by value, then by row id.
pub open spec fn entry_lt(a: (u64, u64), b: (u64, u64)) -> bool {
    a.0 < b.0 || (a.0 == b.0 && a.1 < b.1)
}

/// An ordered set of `(value, row id)` pairs of one column of the table marked by `M`.
#[derive(Debug)]
pub struct ColumnIndex<M> {
    pub entries: Vec<(u64, u64)>,
    pub table: PhantomData<M>,
}

impl<M> ColumnIndex<M> {
    pub open spec fn wf(&self) -> bool {
        forall|i: int, j: int| 0 <= i < j < self.entries@.len() ==> entry_lt(self.entries@[i], self.entries@[j])
    }

    /// Whether the entries are in strictly ascending order, computed.
    pub fn is_ordered(&self) -> (r: bool)
        ensures
            r == self.wf(),
    {
        let mut i: usize = 1;
        if self.entries.len() == 0 {
            return true;
        }
        while i < self.entries.len()
            invariant
                1 <= i <= self.entries@.len(),
                forall|a: int, b: int| 0 <= a < b < i ==> entry_lt(self.entries@[a], self.entries@[b]),
            decreases self.entries@.len() - i,
        {
            let p = self.entries[i - 1];
            let q = self.entries[i];
            if !(p.0 < q.0 || (p.0 == q.0 && p.1 < q.1)) {
                proof {
                    assert(!entry_lt(self.entries@[i - 1], self.entries@[i as int]));
                }
                return false;
            }
            proof {
                assert forall|a: int, b: int| 0 <= a < b < i + 1 implies entry_lt(self.entries@[a], self.entries@[b]) by {
                    if b == i && a < i - 1 {
                        assert(entry_lt(self.entries@[a], self.entries@[i - 1]));
                    }
                }
            }
            i = i + 1;
        }
        true
    }

    /// Whether the index holds the pair `(v, id)`.
    pub open spec fn holds(&self, v: u64, id: u64) -> bool {
        self.entries@.contains((v, id))
    }

    pub fn new() -> (r: ColumnIndex<M>)
        ensures
            r.wf(),
            forall|v: u64, id: u64| !r.holds(v, id),
    {
        ColumnIndex { entries: Vec::new(), table: PhantomData }
    }

    /// The bounds `(v, 0) .. (v, LAST)` of the entries of value `v`.
    pub fn full_range(v: u64) -> (r: ((u64, u64), (u64, u64)))
        ensures
            r == ((v, 0u64), (v, LAST_RAW)),
    {
        ((v, 0), (v, LAST_RAW))
    }

    /// The bounds `(low, 0) .. (high, LAST)` of the entries of values from `low` to `high`.
    pub fn between(low: u64, high: u64) -> (r: ((u64, u64), (u64, u64)))
        ensures
            r == ((low, 0u64), (high, LAST_RAW)),
    {
        ((low, 0), (high, LAST_RAW))
    }

    /// The first position whose entry is not below `x`.
    fn position(&self, x: (u64, u64)) -> (r: usize)
        requires
            self.wf(),
        ensures
            r <= self.entries@.len(),
            forall|i: int| 0 <= i < r ==> entry_lt(self.entries@[i], x),
            r < self.entries@.len() ==> !entry_lt(self.entries@[r as int], x),
    {
        let mut i: usize = 0;
        while i < self.entries.len()
            invariant
                i <= self.entries@.len(),
                forall|j: int| 0 <= j < i ==> entry_lt(self.entries@[j], x),
            decreases self.entries@.len() - i,
        {
            let e = self.entries[i];
            if !(e.0 < x.0 || (e.0 == x.0 && e.1 < x.1)) {
                return i;
            }
            i = i + 1;
        }
        i
    }

    /// Adds the pair `(v, id)`.
    pub fn insert(&mut self, v: u64, id: u64)
        requires
            old(self).wf(),
        ensures
            final(self).wf(),
            forall|w: u64, j: u64| final(self).holds(w, j) <==> (old(self).holds(w, j) || (w == v && j == id)),
    {
        let x = (v, id);
        let p = self.position(x);
        if p < self.entries.len() && self.entries[p].0 == v && self.entries[p].1 == id {
            return;
        }
        let ghost before = self.entries@;
        self.entries.insert(p, x);
        proof {
            assert forall|i: int, j: int| 0 <= i < j < self.entries@.len() implies entry_lt(
                self.entries@[i],
                self.entries@[j],
            ) by {
                if j == p {
                } else if i == p {
                    assert(!entry_lt(before[p as int], x));
                    if j - 1 > p {
                        assert(entry_lt(before[p as int], before[j - 1]));
                    }
                } else if i < p && j > p {
                    assert(entry_lt(before[i], x));
                }
            }
            assert forall|w: u64, j: u64| self.holds(w, j) <==> (before.contains((w, j)) || (w == v && j == id)) by {
                if self.holds(w, j) {
                    let k = choose|k: int| 0 <= k < self.entries@.len() && self.entries@[k] == (w, j);
                    if k < p {
                        assert(before[k] == (w, j));
                    } else if k > p {
                        assert(before[k - 1] == (w, j));
                    }
                }
                if before.contains((w, j)) {
                    let k = choose|k: int| 0 <= k < before.len() && before[k] == (w, j);
                    if k < p {
                        assert(self.entries@[k] == (w, j));
                    } else {
                        assert(self.entries@[k + 1] == (w, j));
                    }
                }
                if w == v && j == id {
                    assert(self.entries@[p as int] == (w, j));
                }
            }
        }
    }

    /// Removes the pair `(v, id)`.
    pub fn remove(&mut self, v: u64, id: u64)
        requires
            old(self).wf(),
        ensures
            final(self).wf(),
            forall|w: u64, j: u64| final(self).holds(w, j) <==> (old(self).holds(w, j) && !(w == v && j == id)),
    {
        let x = (v, id);
        let p = self.position(x);
        if !(p < self.entries.len() && self.entries[p].0 == v && self.entries[p].1 == id) {
            proof {
                assert forall|w: u64, j: u64| self.holds(w, j) implies !(w == v && j == id) by {
                    if w == v && j == id {
                        let k = choose|k: int| 0 <= k < self.entries@.len() && self.entries@[k] == (w, j);
                        if k > p {
                            assert(entry_lt(self.entries@[p as int], self.entries@[k]));
                        }
                    }
                }
            }
            return;
        }
        let ghost before = self.entries@;
        self.entries.remove(p);
        proof {
            assert forall|i: int, j: int| 0 <= i < j < self.entries@.len() implies entry_lt(
                self.entries@[i],
                self.entries@[j],
            ) by {
                if i < p && j >= p {
                    assert(entry_lt(before[i], before[j + 1]));
                } else if i >= p {
                    assert(entry_lt(before[i + 1], before[j + 1]));
                }
            }
            assert forall|w: u64, j: u64| self.holds(w, j) <==> (before.contains((w, j)) && !(w == v && j == id)) by {
                if self.holds(w, j) {
                    let k = choose|k: int| 0 <= k < self.entries@.len() && self.entries@[k] == (w, j);
                    if k < p {
                        assert(before[k] == (w, j));
                        assert(entry_lt(before[k], before[p as int]));
                    } else {
                        assert(before[k + 1] == (w, j));
                        assert(entry_lt(before[p as int], before[k + 1]));
                    }
                }
                if before.contains((w, j)) && !(w == v && j == id) {
                    let k = choose|k: int| 0 <= k < before.len() && before[k] == (w, j);
                    if k < p {
                        assert(self.entries@[k] == (w, j));
                    } else {
                        assert(k != p);
                        assert(self.entries@[k - 1] == (w, j));
                    }
                }
            }
        }
    }

    /// The rows whose value is `v`.
    pub fn find(&self, v: u64) -> (r: Vec<Id<M>>)
        requires
            self.wf(),
        ensures
            forall|y: u64| ids_contain(r@, y) <==> self.holds(v, y),
            forall|j: int, k: int| 0 <= j < k < r@.len() ==> r@[j].raw < r@[k].raw,
    {
        let mut out: Vec<Id<M>> = Vec::new();
        let mut i: usize = 0;
        let ghost mut last: int = 0;
        while i < self.entries.len()
            invariant
                self.wf(),
                i <= self.entries@.len(),
                forall|j: int, k: int| 0 <= j < k < out@.len() ==> out@[j].raw < out@[k].raw,
                out@.len() > 0 ==> 0 <= last < i && self.entries@[last] == (v, out@.last().raw),
                forall|y: u64| ids_contain(out@, y) <==> exists|k: int|
                    0 <= k < i && self.entries@[k].0 == v && self.entries@[k].1 == y,
            decreases self.entries@.len() - i,
        {
            let (w, y) = self.entries[i];
            let ghost before = out@;
            if w == v {
                proof {
                    if before.len() > 0 {
                        assert(entry_lt(self.entries@[last], self.entries@[i as int]));
                    }
                }
                out.push(Id::new(y));
                proof {
                    last = i as int;
                }
            }
            proof {
                assert forall|z: u64| ids_contain(out@, z) <==> exists|k: int|
                    0 <= k < i + 1 && self.entries@[k].0 == v && self.entries@[k].1 == z by {
                    if out@.len() > before.len() {
                        crate::idlist::lemma_ids_contain_push(before, out@.last(), z);
                        assert(out@ == before.push(out@.last()));
                    }
                    if exists|k: int| 0 <= k < i + 1 && self.entries@[k].0 == v && self.entries@[k].1 == z {
                        let k = choose|k: int| 0 <= k < i + 1 && self.entries@[k].0 == v && self.entries@[k].1 == z;
                        if k < i {
                            assert(exists|k: int| 0 <= k < i && self.entries@[k].0 == v && self.entries@[k].1 == z);
                        }
                    }
                }
            }
            i = i + 1;
        }
        proof {
            assert forall|y: u64| ids_contain(out@, y) <==> self.holds(v, y) by {
                if ids_contain(out@, y) {
                    let k = choose|k: int| 0 <= k < i && self.entries@[k].0 == v && self.entries@[k].1 == y;
                    assert(self.entries@[k] == (v, y));
                }
                if self.holds(v, y) {
                    let k = choose|k: int| 0 <= k < self.entries@.len() && self.entries@[k] == (v, y);
                    assert(exists|k: int| 0 <= k < i && self.entries@[k].0 == v && self.entries@[k].1 == y);
                }
            }
        }
        out
    }

    /// The rows whose value lies from `low` to `high`.
    pub fn range(&self, low: u64, high: u64) -> (r: Vec<Id<M>>)
        requires
            self.wf(),
        ensures
            forall|y: u64| ids_contain(r@, y) <==> exists|w: u64| low <= w <= high && self.holds(w, y),
    {
        let mut out: Vec<Id<M>> = Vec::new();
        let mut i: usize = 0;
        while i < self.entries.len()
            invariant
                i <= self.entries@.len(),
                forall|y: u64| ids_contain(out@, y) <==> exists|k: int|
                    0 <= k < i && low <= self.entries@[k].0 <= high && self.entries@[k].1 == y,
            decreases self.entries@.len() - i,
        {
            let (w, y) = self.entries[i];
            let ghost before = out@;
            if low <= w && w <= high {
                out.push(Id::new(y));
            }
            proof {
                assert forall|z: u64| ids_contain(out@, z) <==> exists|k: int|
                    0 <= k < i + 1 && low <= self.entries@[k].0 <= high && self.entries@[k].1 == z by {
                    if out@.len() > before.len() {
                        crate::idlist::lemma_ids_contain_push(before, out@.last(), z);
                        assert(out@ == before.push(out@.last()));
                    }
                    if exists|k: int| 0 <= k < i + 1 && low <= self.entries@[k].0 <= high && self.entries@[k].1 == z {
                        let k = choose|k: int| 0 <= k < i + 1 && low <= self.entries@[k].0 <= high && self.entries@[k].1 == z;
                        if k < i {
                            assert(exists|k: int| 0 <= k < i && low <= self.entries@[k].0 <= high && self.entries@[k].1 == z);
                        }
                    }
                }
            }
            i = i + 1;
        }
        proof {
            assert forall|y: u64| ids_contain(out@, y) <==> exists|w: u64| low <= w <= high && self.holds(w, y) by {
                if ids_contain(out@, y) {
                    let k = choose|k: int| 0 <= k < i && low <= self.entries@[k].0 <= high && self.entries@[k].1 == y;
                    assert(self.holds(self.entries@[k].0, y));
                }
                if exists|w: u64| low <= w <= high && self.holds(w, y) {
                    let w = choose|w: u64| low <= w <= high && self.holds(w, y);
                    let k = choose|k: int| 0 <= k < self.entries@.len() && self.entries@[k] == (w, y);
                    assert(exists|k: int| 0 <= k < i && low <= self.entries@[k].0 <= high && self.entries@[k].1 == y);
                }
            }
        }
        out
    }
}

impl<M> ColumnIndex<M> {
    /// The index holds exactly `(vals[j], j)` for each row `j` of `rows`.
    pub open spec fn consistent(&self, vals: Seq<u64>, rows: Set<u64>) -> bool {
        forall|w: u64, j: u64| self.holds(w, j) <==> (rows.contains(j) && j < vals.len() && vals[j as int] == w)
    }

    /// Keeps the index up to date when the rows `ids` were pushed: adds `(col[id], id)`.
    pub fn on_push(&mut self, col: &Column<M, u64>, ids: &RunList<M>)
        requires
            old(self).wf(),
            ids.wf(),
            forall|y: u64| #[trigger] ids@.contains(y) ==> y < col.data@.len(),
        ensures
            final(self).wf(),
            forall|w: u64, j: u64| final(self).holds(w, j) <==> (old(self).holds(w, j) || (ids@.contains(j)
                && col.data@[j as int] == w)),
    {
        let v = ids.iter();
        let mut k: usize = 0;
        while k < v.len()
            invariant
                k <= v@.len(),
                v@.len() == ids@.len(),
                forall|m: int| 0 <= m < v@.len() ==> v@[m].raw == ids@[m],
                forall|y: u64| #[trigger] ids@.contains(y) ==> y < col.data@.len(),
                self.wf(),
                forall|w: u64, j: u64| self.holds(w, j) <==> (old(self).holds(w, j) || (ids@.take(k as int).contains(j)
                    && col.data@[j as int] == w)),
            decreases v@.len() - k,
        {
            let id = v[k];
            proof {
                assert(ids@.contains(ids@[k as int]));
            }
            let val = *col.get(id);
            self.insert(val, id.raw);
            proof {
                assert(ids@.take(k as int + 1) =~= ids@.take(k as int).push(id.raw));
                crate::runlist::lemma_push_contains(false, ids@.take(k as int), id.raw);
            }
            k = k + 1;
        }
        proof {
            assert(ids@.take(ids@.len() as int) =~= ids@);
        }
    }

    /// Keeps the index up to date when the rows `ids` were deleted: removes `(col[id], id)`.
    pub fn on_delete(&mut self, col: &Column<M, u64>, ids: &RunList<M>)
        requires
            old(self).wf(),
            ids.wf(),
            forall|y: u64| #[trigger] ids@.contains(y) ==> y < col.data@.len(),
        ensures
            final(self).wf(),
            forall|w: u64, j: u64| final(self).holds(w, j) <==> (old(self).holds(w, j) && !(ids@.contains(j)
                && col.data@[j as int] == w)),
    {
        let v = ids.iter();
        let mut k: usize = 0;
        while k < v.len()
            invariant
                k <= v@.len(),
                v@.len() == ids@.len(),
                forall|m: int| 0 <= m < v@.len() ==> v@[m].raw == ids@[m],
                forall|y: u64| #[trigger] ids@.contains(y) ==> y < col.data@.len(),
                self.wf(),
                forall|w: u64, j: u64| self.holds(w, j) <==> (old(self).holds(w, j) && !(ids@.take(k as int).contains(j)
                    && col.data@[j as int] == w)),
            decreases v@.len() - k,
        {
            let id = v[k];
            proof {
                assert(ids@.contains(ids@[k as int]));
            }
            let val = *col.get(id);
            self.remove(val, id.raw);
            proof {
                assert(ids@.take(k as int + 1) =~= ids@.take(k as int).push(id.raw));
                crate::runlist::lemma_push_contains(false, ids@.take(k as int), id.raw);
            }
            k = k + 1;
        }
        proof {
            assert(ids@.take(ids@.len() as int) =~= ids@);
        }
    }

    /// Keeps the index up to date when the logged edits are applied to the column: for each
    /// edited row, the pair of its old value, read from the column before the edits, gives
    /// way to the pair of its new value.
    pub fn on_edit(&mut self, col: &Column<M, u64>, log: &Vec<(Id<M>, u64)>)
        requires
            old(self).wf(),
            crate::column::ascending_below(log@, col.data@.len()),
        ensures
            final(self).wf(),
            forall|w: u64, j: u64| final(self).holds(w, j) <==> (if logged(log@, j) {
                (old(self).holds(w, j) && w != col.data@[j as int]) || w == apply_log(col.data@, log@)[j as int]
            } else {
                old(self).holds(w, j)
            }),
    {
        let mut k: usize = 0;
        while k < log.len()
            invariant
                k <= log@.len(),
                crate::column::ascending_below(log@, col.data@.len()),
                self.wf(),
                forall|w: u64, j: u64| self.holds(w, j) <==> (if logged(log@.take(k as int), j) {
                    (old(self).holds(w, j) && w != col.data@[j as int]) || w == apply_log(
                        col.data@,
                        log@.take(k as int),
                    )[j as int]
                } else {
                    old(self).holds(w, j)
                }),
            decreases log@.len() - k,
        {
            let (id, new) = log[k];
            let old_val = *col.get(id);
            let ghost pre = log@.take(k as int);
            let ghost cur = apply_log(col.data@, pre);
            proof {
                assert forall|m: int| 0 <= m < pre.len() implies pre[m].0.raw != id.raw by {
                    assert(log@[m].0.raw < log@[k as int].0.raw);
                }
                crate::column::lemma_apply_log_untouched(col.data@, pre, id.raw as int);
                crate::column::lemma_apply_log_len(col.data@, pre);
                assert(!logged(pre, id.raw));
            }
            self.remove(old_val, id.raw);
            self.insert(new, id.raw);
            proof {
                let post = log@.take(k as int + 1);
                assert(post.drop_last() =~= pre);
                assert(post.last() == (id, new));
                assert(apply_log(col.data@, post) == cur.update(id.raw as int, new));
                assert forall|j: u64| logged(post, j) <==> (logged(pre, j) || j == id.raw) by {
                    if logged(post, j) {
                        let m = choose|m: int| 0 <= m < post.len() && post[m].0.raw == j;
                        if m < k {
                            assert(pre[m] == post[m]);
                        }
                    }
                    if logged(pre, j) {
                        let m = choose|m: int| 0 <= m < pre.len() && pre[m].0.raw == j;
                        assert(post[m] == pre[m]);
                    }
                    if j == id.raw {
                        assert(post[k as int].0.raw == j);
                    }
                }
            }
            k = k + 1;
        }
        proof {
            assert(log@.take(log@.len() as int) =~= log@);
        }
    }
}

/// Whether the log names row `j`.
pub open spec fn logged<M, T>(log: Seq<(Id<M>, T)>, j: u64) -> bool {
    exists|m: int| 0 <= m < log.len() && log[m].0.raw == j
}

/// Appends the ids of `more` to `out`.
fn append_ids<M>(out: &mut Vec<Id<M>>, more: &Vec<Id<M>>)
    ensures
        final(out)@ == old(out)@ + more@,
{
    let mut j: usize = 0;
    while j < more.len()
        invariant
            j <= more@.len(),
            out@ == old(out)@ + more@.take(j as int),
        decreases more@.len() - j,
    {
        out.push(more[j]);
        proof {
            assert(more@.take(j as int + 1) =~= more@.take(j as int).push(more@[j as int]));
            assert(out@ =~= old(out)@ + more@.take(j as int + 1));
        }
        j = j + 1;
    }
    proof {
        assert(more@.take(more@.len() as int) =~= more@);
    }
}

pub proof fn lemma_ids_contain_concat<M>(a: Seq<Id<M>>, b: Seq<Id<M>>, y: u64)
    ensures
        ids_contain(a + b, y) <==> (ids_contain(a, y) || ids_contain(b, y)),
{
    if ids_contain(a + b, y) {
        let k = choose|k: int| 0 <= k < (a + b).len() && (a + b)[k].raw == y;
        if k < a.len() {
            assert(a[k].raw == y);
        } else {
            assert(b[k - a.len()].raw == y);
        }
    }
    if ids_contain(a, y) {
        let k = choose|k: int| 0 <= k < a.len() && a[k].raw == y;
        assert((a + b)[k].raw == y);
    }
    if ids_contain(b, y) {
        let k = choose|k: int| 0 <= k < b.len() && b[k].raw == y;
        assert((a + b)[a.len() + k].raw == y);
    }
}

/// The local rows that refer to one of the deleted foreign ids, through the index of the
/// foreign-key column.
pub fn cascade<LM, FM>(index: &ColumnIndex<LM>, deleted: &RunList<FM>) -> (r: Vec<Id<LM>>)
    requires
        index.wf(),
        deleted.wf(),
    ensures
        forall|y: u64| ids_contain(r@, y) <==> exists|v: u64| deleted@.contains(v) && index.holds(v, y),
{
    let fids = deleted.iter();
    let mut out: Vec<Id<LM>> = Vec::new();
    let mut k: usize = 0;
    while k < fids.len()
        invariant
            k <= fids@.len(),
            fids@.len() == deleted@.len(),
            forall|m: int| 0 <= m < fids@.len() ==> fids@[m].raw == deleted@[m],
            index.wf(),
            forall|y: u64| ids_contain(out@, y) <==> exists|m: int| 0 <= m < k && index.holds(deleted@[m], y),
        decreases fids@.len() - k,
    {
        let found = index.find(fids[k].raw);
        let ghost start = out@;
        let ghost fv = found@;
        append_ids(&mut out, &found);
        proof {
            assert forall|y: u64| ids_contain(out@, y) <==> (ids_contain(start, y) || ids_contain(fv, y)) by {
                lemma_ids_contain_concat(start, fv, y);
            }
        }
        proof {
            assert forall|y: u64| ids_contain(out@, y) <==> exists|m: int| 0 <= m < k + 1 && index.holds(deleted@[m], y) by {
                if ids_contain(out@, y) {
                    if ids_contain(start, y) {
                        let m = choose|m: int| 0 <= m < k && index.holds(deleted@[m], y);
                        assert(0 <= m < k + 1 && index.holds(deleted@[m], y));
                    } else {
                        assert(ids_contain(fv, y));
                        assert(index.holds(deleted@[k as int], y));
                        assert(0 <= k < k + 1 && index.holds(deleted@[k as int], y));
                    }
                    assert(exists|m: int| 0 <= m < k + 1 && index.holds(deleted@[m], y));
                }
                if exists|m: int| 0 <= m < k + 1 && index.holds(deleted@[m], y) {
                    let m = choose|m: int| 0 <= m < k + 1 && index.holds(deleted@[m], y);
                    if m < k {
                        assert(exists|m: int| 0 <= m < k && index.holds(deleted@[m], y));
                        assert(ids_contain(start, y));
                    } else {
                        assert(index.holds(fids@[k as int].raw, y));
                        assert(ids_contain(fv, y));
                    }
                    assert(ids_contain(out@, y));
                }
            }
        }
        k = k + 1;
    }
    proof {
        assert forall|y: u64| ids_contain(out@, y) <==> exists|v: u64| deleted@.contains(v) && index.holds(v, y) by {
            if ids_contain(out@, y) {
                let m = choose|m: int| 0 <= m < k && index.holds(deleted@[m], y);
                assert(deleted@.contains(deleted@[m]));
            }
            if exists|v: u64| deleted@.contains(v) && index.holds(v, y) {
                let v = choose|v: u64| deleted@.contains(v) && index.holds(v, y);
                let m = choose|m: int| 0 <= m < deleted@.len() && deleted@[m] == v;
                assert(exists|m: int| 0 <= m < k && index.holds(deleted@[m], y));
            }
        }
    }
    out
}

/// Deletes the local rows that refer to one of the deleted foreign ids.
pub fn cascade_delete<LM, FM>(list: &mut IdList<LM>, index: &ColumnIndex<LM>, deleted: &RunList<FM>) -> (r: Vec<Id<LM>>)
    requires
        old(list).wf(),
        index.wf(),
        deleted.wf(),
        forall|w: u64, j: u64| index.holds(w, j) ==> old(list).live(j),
        old(list).event_commitment.admits(crate::idlist::EventCommitment::Delete { event: true }),
    ensures
        final(list).wf(),
        final(list).free == old(list).free,
        final(list).outer_capacity == old(list).outer_capacity,
        forall|y: u64| ids_contain(r@, y) <==> exists|v: u64| deleted@.contains(v) && index.holds(v, y),
        forall|y: u64| final(list).deleting@.contains(y) <==> (old(list).deleting@.contains(y) || ids_contain(r@, y)),
{
    let r = cascade(index, deleted);
    proof {
        assert forall|k: int| 0 <= k < r@.len() implies old(list).live(r@[k].raw) by {
            assert(ids_contain(r@, r@[k].raw));
        }
    }
    list.delete_extend(&r);
    proof {
        assert forall|y: u64| list.deleting@.contains(y) <==> (old(list).deleting@.contains(y) || ids_contain(r@, y)) by {}
    }
    r
}

/// The local rows that refer to one of the selected foreign ids, as sorted runs: what a
/// selection hands on from the foreign table to the local one.
pub fn select<LM, FM>(index: &ColumnIndex<LM>, foreign: &RunList<FM>) -> (r: RunList<LM>)
    requires
        index.wf(),
        foreign.wf(),
        forall|w: u64, j: u64| index.holds(w, j) ==> j != LAST_RAW,
    ensures
        r.wf(),
        r.is_sorted(),
        forall|y: u64| r@.contains(y) <==> exists|v: u64| foreign@.contains(v) && index.holds(v, y),
{
    let found = cascade(index, foreign);
    let n = found.len();
    let mut out: RunList<LM> = RunList::new();
    proof {
        assert forall|k: int| 0 <= k < found@.len() implies found@[k].raw != LAST_RAW by {
            assert(ids_contain(found@, found@[k].raw));
        }
    }
    out.extend(&found);
    out.sort();
    proof {
        assert forall|y: u64| out@.contains(y) <==> exists|v: u64| foreign@.contains(v) && index.holds(v, y) by {
            if exists|k: int| 0 <= k < found@.len() && found@[k].raw == y {
                assert(ids_contain(found@, y));
            }
            if ids_contain(found@, y) {
                assert(exists|k: int| 0 <= k < found@.len() && found@[k].raw == y);
            }
        }
    }
    out
}

/// Whether some entry of `entries` gives local row `y` a range that holds foreign id `fid`.
pub open spec fn range_refers<LM, FM>(entries: Seq<(IdRange<FM>, Id<LM>)>, fid: u64, y: u64) -> bool {
    exists|k: int|
        #![trigger entries[k]]
        0 <= k < entries.len() && entries[k].1.raw == y && entries[k].0.start.raw <= fid < entries[k].0.end.raw
}

/// The index of a foreign-key column whose values are ranges of foreign ids: each entry
/// is a range and the local row that holds it.
#[derive(Debug)]
pub struct RangeIndex<LM, FM> {
    pub entries: Vec<(IdRange<FM>, Id<LM>)>,
}

impl<LM, FM> RangeIndex<LM, FM> {
    pub fn new() -> (r: RangeIndex<LM, FM>)
        ensures
            r.entries@.len() == 0,
    {
        RangeIndex { entries: Vec::new() }
    }

    /// Records that local row `id` holds the range `range`.
    pub fn insert(&mut self, range: IdRange<FM>, id: Id<LM>)
        ensures
            final(self).entries@ == old(self).entries@.push((range, id)),
    {
        self.entries.push((range, id));
    }

    /// The local rows whose range holds the foreign id `fid`.
    pub fn referrers(&self, fid: u64) -> (r: Vec<Id<LM>>)
        ensures
            forall|y: u64| ids_contain(r@, y) <==> range_refers(self.entries@, fid, y),
    {
        let mut out: Vec<Id<LM>> = Vec::new();
        let mut k: usize = 0;
        while k < self.entries.len()
            invariant
                k <= self.entries@.len(),
                forall|y: u64| ids_contain(out@, y) <==> range_refers(self.entries@.take(k as int), fid, y),
            decreases self.entries@.len() - k,
        {
            let (range, lid) = self.entries[k];
            let ghost before = out@;
            let ghost pre = self.entries@.take(k as int);
            let ghost post = self.entries@.take(k as int + 1);
            if range.start.raw <= fid && fid < range.end.raw {
                out.push(lid);
            }
            proof {
                assert(post =~= pre.push(self.entries@[k as int]));
                assert forall|y: u64| ids_contain(out@, y) <==> range_refers(post, fid, y) by {
                    if out@.len() > before.len() {
                        crate::idlist::lemma_ids_contain_push(before, lid, y);
                        assert(out@ == before.push(lid));
                    }
                    if range_refers(post, fid, y) {
                        let m = choose|m: int|
                            #![trigger post[m]]
                            0 <= m < post.len() && post[m].1.raw == y && post[m].0.start.raw <= fid < post[m].0.end.raw;
                        if m < k {
                            assert(pre[m] == post[m]);
                            assert(range_refers(pre, fid, y));
                        }
                    }
                    if range_refers(pre, fid, y) {
                        let m = choose|m: int|
                            #![trigger pre[m]]
                            0 <= m < pre.len() && pre[m].1.raw == y && pre[m].0.start.raw <= fid < pre[m].0.end.raw;
                        assert(post[m] == pre[m]);
                    }
                    if out@.len() > before.len() && y == lid.raw {
                        assert(post[k as int] == (range, lid));
                    }
                }
            }
            k = k + 1;
        }
        proof {
            assert(self.entries@.take(self.entries@.len() as int) =~= self.entries@);
        }
        out
    }
}

/// Whether `entries` holds the entry of range `s..e` for local row `j`.
pub open spec fn range_entry<LM, FM>(entries: Seq<(IdRange<FM>, Id<LM>)>, s: u64, e: u64, j: u64) -> bool {
    exists|k: int|
        #![trigger entries[k]]
        0 <= k < entries.len() && entries[k].0.start.raw == s && entries[k].0.end.raw == e && entries[k].1.raw == j
}

pub proof fn lemma_range_entry_push<LM, FM>(
    entries: Seq<(IdRange<FM>, Id<LM>)>,
    x: (IdRange<FM>, Id<LM>),
    s: u64,
    e: u64,
    j: u64,
)
    ensures
        range_entry(entries.push(x), s, e, j) <==> (range_entry(entries, s, e, j) || (x.0.start.raw == s
            && x.0.end.raw == e && x.1.raw == j)),
{
    let p = entries.push(x);
    if range_entry(p, s, e, j) {
        let k = choose|k: int|
            #![trigger p[k]]
            0 <= k < p.len() && p[k].0.start.raw == s && p[k].0.end.raw == e && p[k].1.raw == j;
        if k < entries.len() {
            assert(entries[k] == p[k]);
        }
    }
    if range_entry(entries, s, e, j) {
        let k = choose|k: int|
            #![trigger entries[k]]
            0 <= k < entries.len() && entries[k].0.start.raw == s && entries[k].0.end.raw == e && entries[k].1.raw == j;
        assert(p[k] == entries[k]);
    }
    assert(p[entries.len() as int] == x);
}

impl<LM, FM> RangeIndex<LM, FM> {
    /// The index holds exactly `(vals[j], j)` for each row `j` of `rows`.
    pub open spec fn consistent(&self, vals: Seq<IdRange<FM>>, rows: Set<u64>) -> bool {
        forall|s: u64, e: u64, j: u64| range_entry(self.entries@, s, e, j) <==> (rows.contains(j) && j < vals.len()
            && vals[j as int].start.raw == s && vals[j as int].end.raw == e)
    }

    /// Drops every entry of range `range` for local row `id`.
    pub fn remove(&mut self, range: IdRange<FM>, id: Id<LM>)
        ensures
            forall|s: u64, e: u64, j: u64| range_entry(final(self).entries@, s, e, j) <==> (range_entry(
                old(self).entries@,
                s,
                e,
                j,
            ) && !(s == range.start.raw && e == range.end.raw && j == id.raw)),
    {
        let mut kept: Vec<(IdRange<FM>, Id<LM>)> = Vec::new();
        let mut k: usize = 0;
        while k < self.entries.len()
            invariant
                k <= self.entries@.len(),
                self.entries == old(self).entries,
                forall|s: u64, e: u64, j: u64| range_entry(kept@, s, e, j) <==> (range_entry(
                    self.entries@.take(k as int),
                    s,
                    e,
                    j,
                ) && !(s == range.start.raw && e == range.end.raw && j == id.raw)),
            decreases self.entries@.len() - k,
        {
            let x = self.entries[k];
            let ghost before = kept@;
            let ghost pre = self.entries@.take(k as int);
            let same = x.0.start.raw == range.start.raw && x.0.end.raw == range.end.raw && x.1.raw == id.raw;
            if !same {
                kept.push(x);
            }
            proof {
                assert(self.entries@.take(k as int + 1) =~= pre.push(x));
                assert forall|s: u64, e: u64, j: u64| range_entry(kept@, s, e, j) <==> (range_entry(
                    self.entries@.take(k as int + 1),
                    s,
                    e,
                    j,
                ) && !(s == range.start.raw && e == range.end.raw && j == id.raw)) by {
                    lemma_range_entry_push(pre, x, s, e, j);
                    if !same {
                        assert(kept@ == before.push(x));
                        lemma_range_entry_push(before, x, s, e, j);
                    }
                }
            }
            k = k + 1;
        }
        proof {
            assert(self.entries@.take(self.entries@.len() as int) =~= self.entries@);
        }
        self.entries = kept;
    }

    /// Keeps the index up to date when the rows `ids` were pushed: adds `(col[id], id)`.
    pub fn on_push(&mut self, col: &Column<LM, IdRange<FM>>, ids: &RunList<LM>)
        requires
            ids.wf(),
            forall|y: u64| #[trigger] ids@.contains(y) ==> y < col.data@.len(),
        ensures
            forall|s: u64, e: u64, j: u64| range_entry(final(self).entries@, s, e, j) <==> (range_entry(
                old(self).entries@,
                s,
                e,
                j,
            ) || (ids@.contains(j) && col.data@[j as int].start.raw == s && col.data@[j as int].end.raw == e)),
    {
        let v = ids.iter();
        let mut k: usize = 0;
        while k < v.len()
            invariant
                k <= v@.len(),
                v@.len() == ids@.len(),
                forall|m: int| 0 <= m < v@.len() ==> v@[m].raw == ids@[m],
                forall|y: u64| #[trigger] ids@.contains(y) ==> y < col.data@.len(),
                forall|s: u64, e: u64, j: u64| range_entry(self.entries@, s, e, j) <==> (range_entry(
                    old(self).entries@,
                    s,
                    e,
                    j,
                ) || (ids@.take(k as int).contains(j) && col.data@[j as int].start.raw == s
                    && col.data@[j as int].end.raw == e)),
            decreases v@.len() - k,
        {
            let id = v[k];
            proof {
                assert(ids@.contains(ids@[k as int]));
            }
            let val = *col.get(id);
            let ghost before = self.entries@;
            self.insert(val, id);
            proof {
                assert(ids@.take(k as int + 1) =~= ids@.take(k as int).push(id.raw));
                crate::runlist::lemma_push_contains(false, ids@.take(k as int), id.raw);
                assert forall|s: u64, e: u64, j: u64| range_entry(self.entries@, s, e, j) <==> (range_entry(
                    old(self).entries@,
                    s,
                    e,
                    j,
                ) || (ids@.take(k as int + 1).contains(j) && col.data@[j as int].start.raw == s
                    && col.data@[j as int].end.raw == e)) by {
                    lemma_range_entry_push(before, (val, id), s, e, j);
                }
            }
            k = k + 1;
        }
        proof {
            assert(ids@.take(ids@.len() as int) =~= ids@);
        }
    }

    /// Keeps the index up to date when the rows `ids` were deleted: drops `(col[id], id)`.
    pub fn on_delete(&mut self, col: &Column<LM, IdRange<FM>>, ids: &RunList<LM>)
        requires
            ids.wf(),
            forall|y: u64| #[trigger] ids@.contains(y) ==> y < col.data@.len(),
        ensures
            forall|s: u64, e: u64, j: u64| range_entry(final(self).entries@, s, e, j) <==> (range_entry(
                old(self).entries@,
                s,
                e,
                j,
            ) && !(ids@.contains(j) && col.data@[j as int].start.raw == s && col.data@[j as int].end.raw == e)),
    {
        let v = ids.iter();
        let mut k: usize = 0;
        while k < v.len()
            invariant
                k <= v@.len(),
                v@.len() == ids@.len(),
                forall|m: int| 0 <= m < v@.len() ==> v@[m].raw == ids@[m],
                forall|y: u64| #[trigger] ids@.contains(y) ==> y < col.data@.len(),
                forall|s: u64, e: u64, j: u64| range_entry(self.entries@, s, e, j) <==> (range_entry(
                    old(self).entries@,
                    s,
                    e,
                    j,
                ) && !(ids@.take(k as int).contains(j) && col.data@[j as int].start.raw == s
                    && col.data@[j as int].end.raw == e)),
            decreases v@.len() - k,
        {
            let id = v[k];
            proof {
                assert(ids@.contains(ids@[k as int]));
            }
            let val = *col.get(id);
            self.remove(val, id);
            proof {
                assert(ids@.take(k as int + 1) =~= ids@.take(k as int).push(id.raw));
                crate::runlist::lemma_push_contains(false, ids@.take(k as int), id.raw);
            }
            k = k + 1;
        }
        proof {
            assert(ids@.take(ids@.len() as int) =~= ids@);
        }
    }

    /// Keeps the index up to date when logged edits are applied to the range column: the
    /// entry of each edited row's old range, read before the edits, gives way to its new one.
    pub fn on_edit(&mut self, col: &Column<LM, IdRange<FM>>, log: &Vec<(Id<LM>, IdRange<FM>)>)
        requires
            crate::column::ascending_below(log@, col.data@.len()),
        ensures
            forall|s: u64, e: u64, j: u64| range_entry(final(self).entries@, s, e, j) <==> (if logged(log@, j) {
                (range_entry(old(self).entries@, s, e, j) && !(col.data@[j as int].start.raw == s
                    && col.data@[j as int].end.raw == e)) || (apply_log(col.data@, log@)[j as int].start.raw == s
                    && apply_log(col.data@, log@)[j as int].end.raw == e)
            } else {
                range_entry(old(self).entries@, s, e, j)
            }),
    {
        let mut k: usize = 0;
        while k < log.len()
            invariant
                k <= log@.len(),
                crate::column::ascending_below(log@, col.data@.len()),
                forall|s: u64, e: u64, j: u64| range_entry(self.entries@, s, e, j) <==> (if logged(
                    log@.take(k as int),
                    j,
                ) {
                    (range_entry(old(self).entries@, s, e, j) && !(col.data@[j as int].start.raw == s
                        && col.data@[j as int].end.raw == e)) || (apply_log(col.data@, log@.take(k as int))[j as int].start.raw
                        == s && apply_log(col.data@, log@.take(k as int))[j as int].end.raw == e)
                } else {
                    range_entry(old(self).entries@, s, e, j)
                }),
            decreases log@.len() - k,
        {
            let (id, new) = log[k];
            let old_val = *col.get(id);
            let ghost pre = log@.take(k as int);
            let ghost cur = apply_log(col.data@, pre);
            proof {
                assert forall|m: int| 0 <= m < pre.len() implies pre[m].0.raw != id.raw by {
                    assert(log@[m].0.raw < log@[k as int].0.raw);
                }
                crate::column::lemma_apply_log_untouched(col.data@, pre, id.raw as int);
                crate::column::lemma_apply_log_len(col.data@, pre);
                assert(!logged(pre, id.raw));
            }
            self.remove(old_val, id);
            let ghost mid = self.entries@;
            self.insert(new, id);
            proof {
                let post = log@.take(k as int + 1);
                assert(post.drop_last() =~= pre);
                assert(post.last() == (id, new));
                assert(apply_log(col.data@, post) == cur.update(id.raw as int, new));
                assert forall|j: u64| logged(post, j) <==> (logged(pre, j) || j == id.raw) by {
                    if logged(post, j) {
                        let m = choose|m: int| 0 <= m < post.len() && post[m].0.raw == j;
                        if m < k {
                            assert(pre[m] == post[m]);
                        }
                    }
                    if logged(pre, j) {
                        let m = choose|m: int| 0 <= m < pre.len() && pre[m].0.raw == j;
                        assert(post[m] == pre[m]);
                    }
                    if j == id.raw {
                        assert(post[k as int].0.raw == j);
                    }
                }
                assert forall|s: u64, e: u64, j: u64| range_entry(self.entries@, s, e, j) <==> (if logged(post, j) {
                    (range_entry(old(self).entries@, s, e, j) && !(col.data@[j as int].start.raw == s
                        && col.data@[j as int].end.raw == e)) || (apply_log(col.data@, post)[j as int].start.raw == s
                        && apply_log(col.data@, post)[j as int].end.raw == e)
                } else {
                    range_entry(old(self).entries@, s, e, j)
                }) by {
                    lemma_range_entry_push(mid, (new, id), s, e, j);
                }
            }
            k = k + 1;
        }
        proof {
            assert(log@.take(log@.len() as int) =~= log@);
        }
    }
}

/// A local row refers to a foreign id exactly when the index holds, for that row, a range
/// that contains the id.
pub proof fn lemma_range_refers_entry<LM, FM>(entries: Seq<(IdRange<FM>, Id<LM>)>, fid: u64, y: u64)
    ensures
        range_refers(entries, fid, y) <==> exists|s: u64, e: u64| s <= fid < e && range_entry(entries, s, e, y),
{
    if range_refers(entries, fid, y) {
        let k = choose|k: int|
            #![trigger entries[k]]
            0 <= k < entries.len() && entries[k].1.raw == y && entries[k].0.start.raw <= fid < entries[k].0.end.raw;
        assert(range_entry(entries, entries[k].0.start.raw, entries[k].0.end.raw, y));
    }
    if exists|s: u64, e: u64| s <= fid < e && range_entry(entries, s, e, y) {
        let (s, e) = choose|s: u64, e: u64| s <= fid < e && range_entry(entries, s, e, y);
        let k = choose|k: int|
            #![trigger entries[k]]
            0 <= k < entries.len() && entries[k].0.start.raw == s && entries[k].0.end.raw == e && entries[k].1.raw == y;
        assert(range_refers(entries, fid, y));
    }
}

/// Once the rows that the range cascade found are marked for deletion and the list is
/// flushed, no live row holds a range that contains a deleted foreign id.
pub proof fn lemma_range_cascade_leaves_no_referrer<LM, FM>(
    index: RangeIndex<LM, FM>,
    vals: Seq<IdRange<FM>>,
    before: IdList<LM>,
    after: IdList<LM>,
    deleted: Seq<u64>,
    cascaded: Seq<Id<LM>>,
)
    requires
        index.consistent(vals, before.live_set()),
        forall|y: u64| ids_contain(cascaded, y) <==> exists|v: u64| deleted.contains(v) && range_refers(index.entries@, v, y),
        after.outer_capacity == before.outer_capacity,
        forall|y: u64|
            #![trigger after.free@.contains(y)]
            after.free@.contains(y) <==> (before.free@.contains(y) || before.deleting@.contains(y)
                || ids_contain(cascaded, y)),
    ensures
        forall|i: u64, v: u64| after.live(i) && i < vals.len() && deleted.contains(v) ==> !(vals[i as int].start.raw
            <= v < vals[i as int].end.raw),
{
    assert forall|i: u64, v: u64| after.live(i) && i < vals.len() && deleted.contains(v) implies !(
    vals[i as int].start.raw <= v < vals[i as int].end.raw) by {
        if vals[i as int].start.raw <= v < vals[i as int].end.raw {
            assert(before.live(i));
            assert(before.live_set().contains(i));
            assert(range_entry(index.entries@, vals[i as int].start.raw, vals[i as int].end.raw, i));
            lemma_range_refers_entry(index.entries@, v, i);
            assert(range_refers(index.entries@, v, i));
            assert(ids_contain(cascaded, i));
        }
    }
}

/// Maintenance keeps a range index consistent with its column, as for value indexes.
pub proof fn lemma_range_index_stays_consistent<LM, FM>(
    before: RangeIndex<LM, FM>,
    pushed: RangeIndex<LM, FM>,
    deleted: RangeIndex<LM, FM>,
    edited: RangeIndex<LM, FM>,
    vals: Seq<IdRange<FM>>,
    rows: Set<u64>,
    ids: Seq<u64>,
    log: Seq<(Id<LM>, IdRange<FM>)>,
)
    requires
        before.consistent(vals, rows),
        forall|y: u64| ids.contains(y) ==> y < vals.len(),
        forall|s: u64, e: u64, j: u64| range_entry(pushed.entries@, s, e, j) <==> (range_entry(before.entries@, s, e, j)
            || (ids.contains(j) && vals[j as int].start.raw == s && vals[j as int].end.raw == e)),
        forall|s: u64, e: u64, j: u64| range_entry(deleted.entries@, s, e, j) <==> (range_entry(before.entries@, s, e, j)
            && !(ids.contains(j) && vals[j as int].start.raw == s && vals[j as int].end.raw == e)),
        crate::column::ascending_below(log, vals.len()),
        forall|j: u64| logged(log, j) ==> rows.contains(j),
        forall|s: u64, e: u64, j: u64| range_entry(edited.entries@, s, e, j) <==> (if logged(log, j) {
            (range_entry(before.entries@, s, e, j) && !(vals[j as int].start.raw == s && vals[j as int].end.raw == e))
                || (apply_log(vals, log)[j as int].start.raw == s && apply_log(vals, log)[j as int].end.raw == e)
        } else {
            range_entry(before.entries@, s, e, j)
        }),
    ensures
        pushed.consistent(vals, rows.union(ids.to_set())),
        deleted.consistent(vals, rows.difference(ids.to_set())),
        edited.consistent(apply_log(vals, log), rows),
{
    crate::column::lemma_apply_log_len(vals, log);
    assert forall|s: u64, e: u64, j: u64| range_entry(edited.entries@, s, e, j) <==> (rows.contains(j) && j < apply_log(
        vals,
        log,
    ).len() && apply_log(vals, log)[j as int].start.raw == s && apply_log(vals, log)[j as int].end.raw == e) by {
        if !logged(log, j) && j < vals.len() {
            crate::column::lemma_apply_log_untouched(vals, log, j as int);
        }
        if logged(log, j) {
            let m = choose|m: int| 0 <= m < log.len() && log[m].0.raw == j;
            assert(j < vals.len());
        }
    }
}

/// The local rows whose range holds one of the deleted foreign ids.
pub fn cascade_ranges<LM, FM>(index: &RangeIndex<LM, FM>, deleted: &RunList<FM>) -> (r: Vec<Id<LM>>)
    requires
        deleted.wf(),
    ensures
        forall|y: u64| ids_contain(r@, y) <==> exists|v: u64| deleted@.contains(v) && range_refers(index.entries@, v, y),
{
    let fids = deleted.iter();
    let mut out: Vec<Id<LM>> = Vec::new();
    let mut k: usize = 0;
    while k < fids.len()
        invariant
            k <= fids@.len(),
            fids@.len() == deleted@.len(),
            forall|m: int| 0 <= m < fids@.len() ==> fids@[m].raw == deleted@[m],
            forall|y: u64| ids_contain(out@, y) <==> exists|m: int| 0 <= m < k && range_refers(index.entries@, deleted@[m], y),
        decreases fids@.len() - k,
    {
        let found = index.referrers(fids[k].raw);
        let ghost start = out@;
        let ghost fv = found@;
        append_ids(&mut out, &found);
        proof {
            assert forall|y: u64| ids_contain(out@, y) <==> exists|m: int| 0 <= m < k + 1 && range_refers(index.entries@, deleted@[m], y) by {
                lemma_ids_contain_concat(start, fv, y);
                if ids_contain(out@, y) {
                    if ids_contain(start, y) {
                        let m = choose|m: int| 0 <= m < k && range_refers(index.entries@, deleted@[m], y);
                        assert(0 <= m < k + 1 && range_refers(index.entries@, deleted@[m], y));
                    } else {
                        assert(range_refers(index.entries@, deleted@[k as int], y));
                        assert(0 <= k < k + 1 && range_refers(index.entries@, deleted@[k as int], y));
                    }
                    assert(exists|m: int| 0 <= m < k + 1 && range_refers(index.entries@, deleted@[m], y));
                }
                if exists|m: int| 0 <= m < k + 1 && range_refers(index.entries@, deleted@[m], y) {
                    let m = choose|m: int| 0 <= m < k + 1 && range_refers(index.entries@, deleted@[m], y);
                    if m < k {
                        assert(exists|m: int| 0 <= m < k && range_refers(index.entries@, deleted@[m], y));
                        assert(ids_contain(start, y));
                    } else {
                        assert(ids_contain(fv, y));
                    }
                    assert(ids_contain(out@, y));
                }
            }
        }
        k = k + 1;
    }
    proof {
        assert forall|y: u64| ids_contain(out@, y) <==> exists|v: u64| deleted@.contains(v) && range_refers(index.entries@, v, y) by {
            if ids_contain(out@, y) {
                let m = choose|m: int| 0 <= m < k && range_refers(index.entries@, deleted@[m], y);
                assert(deleted@.contains(deleted@[m]));
            }
            if exists|v: u64| deleted@.contains(v) && range_refers(index.entries@, v, y) {
                let v = choose|v: u64| deleted@.contains(v) && range_refers(index.entries@, v, y);
                let m = choose|m: int| 0 <= m < deleted@.len() && deleted@[m] == v;
                assert(exists|m: int| 0 <= m < k && range_refers(index.entries@, deleted@[m], y));
            }
        }
    }
    out
}

/// The local rows whose range holds one of the selected foreign ids, as sorted runs: what
/// a selection hands on through a range foreign key.
pub fn select_ranges<LM, FM>(index: &RangeIndex<LM, FM>, foreign: &RunList<FM>) -> (r: RunList<LM>)
    requires
        foreign.wf(),
        forall|k: int| 0 <= k < index.entries@.len() ==> (#[trigger] index.entries@[k]).1.raw != LAST_RAW,
    ensures
        r.wf(),
        r.is_sorted(),
        forall|y: u64| r@.contains(y) <==> exists|v: u64| foreign@.contains(v) && range_refers(index.entries@, v, y),
{
    let found = cascade_ranges(index, foreign);
    let n = found.len();
    let mut out: RunList<LM> = RunList::new();
    proof {
        assert forall|k: int| 0 <= k < found@.len() implies found@[k].raw != LAST_RAW by {
            assert(ids_contain(found@, found@[k].raw));
            let v = choose|v: u64| foreign@.contains(v) && range_refers(index.entries@, v, found@[k].raw);
            let m = choose|m: int|
                #![trigger index.entries@[m]]
                0 <= m < index.entries@.len() && index.entries@[m].1.raw == found@[k].raw
                    && index.entries@[m].0.start.raw <= v < index.entries@[m].0.end.raw;
        }
    }
    out.extend(&found);
    out.sort();
    proof {
        assert forall|y: u64| out@.contains(y) <==> exists|v: u64| foreign@.contains(v) && range_refers(index.entries@, v, y) by {
            if exists|k: int| 0 <= k < found@.len() && found@[k].raw == y {
                assert(ids_contain(found@, y));
            }
            if ids_contain(found@, y) {
                assert(exists|k: int| 0 <= k < found@.len() && found@[k].raw == y);
            }
        }
    }
    out
}

/// Maintenance keeps an index consistent with its column: pushing rows that were not
/// indexed adds them, deleting indexed rows drops them, and applying logged edits to
/// indexed rows moves them to their new values.
pub proof fn lemma_index_stays_consistent<M>(
    before: ColumnIndex<M>,
    pushed: ColumnIndex<M>,
    deleted: ColumnIndex<M>,
    edited: ColumnIndex<M>,
    vals: Seq<u64>,
    rows: Set<u64>,
    ids: Seq<u64>,
    log: Seq<(Id<M>, u64)>,
)
    requires
        before.consistent(vals, rows),
        forall|y: u64| ids.contains(y) ==> y < vals.len(),
        forall|w: u64, j: u64| pushed.holds(w, j) <==> (before.holds(w, j) || (ids.contains(j) && vals[j as int] == w)),
        forall|w: u64, j: u64| deleted.holds(w, j) <==> (before.holds(w, j) && !(ids.contains(j) && vals[j as int] == w)),
        crate::column::ascending_below(log, vals.len()),
        forall|j: u64| logged(log, j) ==> rows.contains(j),
        forall|w: u64, j: u64| edited.holds(w, j) <==> (if logged(log, j) {
            (before.holds(w, j) && w != vals[j as int]) || w == apply_log(vals, log)[j as int]
        } else {
            before.holds(w, j)
        }),
    ensures
        pushed.consistent(vals, rows.union(ids.to_set())),
        deleted.consistent(vals, rows.difference(ids.to_set())),
        edited.consistent(apply_log(vals, log), rows),
{
    crate::column::lemma_apply_log_len(vals, log);
    assert forall|w: u64, j: u64| edited.holds(w, j) <==> (rows.contains(j) && j < apply_log(vals, log).len()
        && apply_log(vals, log)[j as int] == w) by {
        if !logged(log, j) && j < vals.len() {
            crate::column::lemma_apply_log_untouched(vals, log, j as int);
        }
        if logged(log, j) {
            let m = choose|m: int| 0 <= m < log.len() && log[m].0.raw == j;
            assert(j < vals.len());
        }
    }
}

/// Once the rows that the cascade found are marked for deletion and the list is flushed,
/// no live row holds a deleted foreign id in the indexed column.
pub proof fn lemma_cascade_leaves_no_referrer<LM>(
    index: ColumnIndex<LM>,
    vals: Seq<u64>,
    before: IdList<LM>,
    after: IdList<LM>,
    deleted: Seq<u64>,
    cascaded: Seq<Id<LM>>,
)
    requires
        index.consistent(vals, before.live_set()),
        forall|y: u64| ids_contain(cascaded, y) <==> exists|v: u64| deleted.contains(v) && index.holds(v, y),
        after.outer_capacity == before.outer_capacity,
        forall|y: u64|
            #![trigger after.free@.contains(y)]
            after.free@.contains(y) <==> (before.free@.contains(y) || before.deleting@.contains(y)
                || ids_contain(cascaded, y)),
    ensures
        forall|i: u64| after.live(i) && i < vals.len() ==> !deleted.contains(vals[i as int]),
{
    assert forall|i: u64| after.live(i) && i < vals.len() implies !deleted.contains(vals[i as int]) by {
        if deleted.contains(vals[i as int]) {
            assert(before.live(i));
            assert(before.live_set().contains(i));
            assert(index.holds(vals[i as int], i));
            assert(ids_contain(cascaded, i));
        }
    }
}

} // verus!
