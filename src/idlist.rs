//! The lifecycle of a table's row ids: free list, ids pushed and deleted since the last
//! flush, and the outer capacity.
use vstd::prelude::*;
use crate::id::{ids_contain, Id, IdRange, LAST_RAW};
use crate::runlist::{below, lemma_below_len, lemma_bounded_len, run_seq, RunList};

verus! {

/// Which kind of change the id list has seen since its last flush.
#[derive(Debug, Clone, Copy, PartialEq, Eq, Structural)]
pub enum EventCommitment {
    Uncommitted,
    Push { event: bool },
    Delete { event: bool },
}

impl EventCommitment {
    /// Whether `put(new)` is accepted.
    pub open spec fn admits(self, new: EventCommitment) -> bool {
        if self == EventCommitment::Uncommitted {
            new != EventCommitment::Uncommitted
        } else {
            self == new
        }
    }

    /// Whether a list about to iterate for deletion may do so: not once it has seen
    /// deletions since its last flush.
    pub open spec fn half_commit_ok(self) -> bool {
        self == EventCommitment::Uncommitted || self is Push
    }

    /// Asserts that a list about to iterate for deletion has seen no deletions since its
    /// last flush; the caller has checked `half_commit_ok`.
    pub fn half_commit(&self, push: bool)
        requires
            self.half_commit_ok(),
    {
    }

    /// Whether a list may iterate for deletion, computed.
    pub fn may_half_commit(&self) -> (r: bool)
        ensures
            r == self.half_commit_ok(),
    {
        match self {
            EventCommitment::Delete { .. } => false,
            _ => true,
        }
    }

    /// Whether `put(new)` is accepted, computed.
    pub fn accepts(&self, new: EventCommitment) -> (r: bool)
        ensures
            r == self.admits(new),
    {
        match self {
            EventCommitment::Uncommitted => match new {
                EventCommitment::Uncommitted => false,
                _ => true,
            },
            _ => *self == new,
        }
    }

    /// Latches `new`; a latched commitment accepts only itself again.
    pub fn put(&mut self, new: EventCommitment)
        requires
            old(self).admits(new),
        ensures
            *final(self) == new,
    {
        *self = new;
    }
}

/// Ids handed out by a recycle: `replace` came from the free list, `extension` is new.
#[derive(Debug)]
pub struct Recycle<M> {
    pub replace: RunList<M>,
    pub extend: usize,
    pub extension: IdRange<M>,
}

impl<M> Recycle<M> {
    pub fn count(&self) -> (r: usize)
        requires
            self.replace.wf(),
            self.extend + self.replace@.len() <= usize::MAX,
        ensures
            r == self.extend + self.replace@.len(),
    {
        self.extend + self.replace.len()
    }
}

/// What a flush hands on to the event trackers.
#[derive(Debug)]
pub enum FlushResult<M> {
    Nothing,
    /// Ids pushed since the last flush; `load` marks a bulk load.
    Pushed { ids: RunList<M>, load: bool },
    /// Ids deleted since the last flush; `load` marks a bulk load.
    Deleted { ids: RunList<M>, load: bool },
}

/// The ids of one table.
#[derive(Debug)]
pub struct IdList<M> {
    /// Unused ids below the outer capacity, in canonical form.
    pub free: RunList<M>,
    /// Ids handed out since the last flush.
    pub pushing: RunList<M>,
    /// Ids marked for deletion since the last flush.
    pub deleting: RunList<M>,
    pub outer_capacity: u64,
    pub event_commitment: EventCommitment,
    pub load_events: bool,
}

impl<M> IdList<M> {
    /// Whether `y` names a live row.
    pub open spec fn live(&self, y: u64) -> bool {
        y < self.outer_capacity && !self.free@.contains(y)
    }

    /// The live rows.
    pub open spec fn live_set(&self) -> Set<u64> {
        Set::new(|y: u64| self.live(y))
    }

    pub open spec fn wf(&self) -> bool {
        &&& self.free.wf()
        &&& self.pushing.wf()
        &&& self.deleting.wf()
        &&& self.free.is_sorted()
        &&& self.outer_capacity < LAST_RAW
        &&& self.outer_capacity <= usize::MAX
        &&& forall|y: u64| #[trigger] self.free@.contains(y) ==> y < self.outer_capacity
        &&& forall|y: u64| #[trigger] self.pushing@.contains(y) ==> self.live(y)
        &&& forall|y: u64| #[trigger] self.deleting@.contains(y) ==> self.live(y)
        &&& self.event_commitment == EventCommitment::Uncommitted ==> self.pushing@.len() == 0
            && self.deleting@.len() == 0
        &&& self.event_commitment is Push ==> self.deleting@.len() == 0
        &&& self.event_commitment is Delete ==> self.pushing@.len() == 0
    }

    pub fn new() -> (r: IdList<M>)
        ensures
            r.wf(),
            r.outer_capacity == 0,
            r.event_commitment == EventCommitment::Uncommitted,
            r.free@.len() == 0,
            r.pushing@.len() == 0,
            r.deleting@.len() == 0,
            !r.load_events,
    {
        IdList {
            free: RunList::new(),
            pushing: RunList::new(),
            deleting: RunList::new(),
            outer_capacity: 0,
            event_commitment: EventCommitment::Uncommitted,
            load_events: false,
        }
    }

    /// Whether every id of `l` lies below the outer capacity and, with `need_live`, outside
    /// the free list.
    fn all_below_and_live(&self, l: &RunList<M>, need_live: bool) -> (r: bool)
        requires
            l.wf(),
        ensures
            r == (forall|y: u64| #[trigger] l@.contains(y) ==> y < self.outer_capacity && (need_live
                ==> !self.free@.contains(y))),
    {
        let v = l.iter();
        let mut k: usize = 0;
        while k < v.len()
            invariant
                k <= v@.len(),
                v@.len() == l@.len(),
                forall|m: int| 0 <= m < v@.len() ==> v@[m].raw == l@[m],
                forall|m: int| 0 <= m < k ==> l@[m] < self.outer_capacity && (need_live ==> !self.free@.contains(l@[m])),
            decreases v@.len() - k,
        {
            let id = v[k];
            if id.raw >= self.outer_capacity || (need_live && self.free.contains(id)) {
                proof {
                    assert(l@.contains(l@[k as int]));
                }
                return false;
            }
            k = k + 1;
        }
        proof {
            assert forall|y: u64| #[trigger] l@.contains(y) implies y < self.outer_capacity && (need_live
                ==> !self.free@.contains(y)) by {
                let m = choose|m: int| 0 <= m < l@.len() && l@[m] == y;
            }
        }
        true
    }

    /// Checks the list's invariant, for a list whose fields were set from outside.
    pub fn validate(&self) -> (r: bool)
        ensures
            r == self.wf(),
    {
        if self.free.validate_data().is_err() || self.pushing.validate_data().is_err()
            || self.deleting.validate_data().is_err() {
            return false;
        }
        if self.outer_capacity >= LAST_RAW || self.outer_capacity > usize::MAX as u64 {
            return false;
        }
        let d = &self.free.data;
        let mut i: usize = 0;
        while i < d.len()
            invariant
                d@ == self.free.data@,
                i <= d@.len(),
                crate::runlist::canonical(d@.take(i as int)),
            decreases d@.len() - i,
        {
            let (lo, hi) = d[i];
            if lo > hi {
                proof {
                    assert(d@[i as int].0 > d@[i as int].1);
                    assert(!crate::runlist::canonical(d@));
                    assert(!self.free.is_sorted());
                }
                return false;
            }
            if i > 0 {
                let prev = d[i - 1].1;
                if !(prev < lo && lo - prev >= 2) {
                    proof {
                        assert(!(d@[i - 1].1 + 1 < d@[i as int].0));
                        assert(!crate::runlist::canonical(d@));
                        assert(!self.free.is_sorted());
                    }
                    return false;
                }
            }
            proof {
                let t = d@.take(i as int + 1);
                assert forall|a: int, b: int| 0 <= a < b < t.len() implies t[a].1 + 1 < t[b].0 by {
                    if b == i && a < i - 1 {
                        assert(d@.take(i as int)[a].1 + 1 < d@.take(i as int)[i - 1].0);
                    }
                }
            }
            i = i + 1;
        }
        proof {
            assert(d@.take(d@.len() as int) =~= d@);
        }
        if !self.all_below_and_live(&self.free, false) || !self.all_below_and_live(&self.pushing, true)
            || !self.all_below_and_live(&self.deleting, true) {
            return false;
        }
        let np = self.pushing.len();
        let nd = self.deleting.len();
        match self.event_commitment {
            EventCommitment::Uncommitted => np == 0 && nd == 0,
            EventCommitment::Push { .. } => nd == 0,
            EventCommitment::Delete { .. } => np == 0,
        }
    }

    /// The number of live rows.
    pub fn len(&self) -> (r: usize)
        requires
            self.wf(),
        ensures
            r == self.outer_capacity - self.free@.len(),
            r == self.live_set().len(),
    {
        proof {
            lemma_live_count(self);
        }
        (self.outer_capacity - self.free.len() as u64) as usize
    }

    pub fn is_empty(&self) -> (r: bool)
        requires
            self.wf(),
        ensures
            r == (self.live_set().len() == 0),
    {
        self.len() == 0
    }

    pub fn outer_capacity(&self) -> (r: usize)
        requires
            self.wf(),
        ensures
            r == self.outer_capacity,
    {
        self.outer_capacity as usize
    }

    pub fn id_exists(&self, id: Id<M>) -> (r: bool)
        ensures
            r == self.live(id.raw),
    {
        id.raw < self.outer_capacity && !self.free.contains(id)
    }

    /// Every live row, ascending.
    pub fn iter(&self) -> (r: Vec<Id<M>>)
        requires
            self.wf(),
        ensures
            forall|j: int, k: int| 0 <= j < k < r@.len() ==> r@[j].raw < r@[k].raw,
            forall|y: u64| self.live(y) <==> exists|k: int| 0 <= k < r@.len() && r@[k].raw == y,
    {
        let mut out: Vec<Id<M>> = Vec::new();
        let mut i: u64 = 0;
        while i < self.outer_capacity
            invariant
                i <= self.outer_capacity,
                forall|j: int, k: int| 0 <= j < k < out@.len() ==> out@[j].raw < out@[k].raw,
                forall|k: int| 0 <= k < out@.len() ==> out@[k].raw < i,
                forall|y: u64| (y < i && self.live(y)) <==> exists|k: int|
                    0 <= k < out@.len() && out@[k].raw == y,
            decreases self.outer_capacity - i,
        {
            let id = Id::new(i);
            let ghost before = out@;
            if !self.free.contains(id) {
                out.push(id);
            }
            proof {
                assert forall|y: u64| (y < i + 1 && self.live(y)) <==> exists|k: int|
                    0 <= k < out@.len() && out@[k].raw == y by {
                    if y < i && self.live(y) {
                        let k = choose|k: int| 0 <= k < before.len() && before[k].raw == y;
                        assert(out@[k].raw == y);
                    }
                    if y == i && self.live(y) {
                        assert(out@[out@.len() - 1].raw == y);
                    }
                    if exists|k: int| 0 <= k < out@.len() && out@[k].raw == y {
                        let k = choose|k: int| 0 <= k < out@.len() && out@[k].raw == y;
                        if k < before.len() {
                            assert(before[k].raw == y);
                        }
                    }
                }
            }
            i = i + 1;
        }
        out
    }

    /// Each live row not yet marked for deletion, ascending, for a pass that may delete;
    /// only before the list has seen deletions since its last flush.
    pub fn removing(&self) -> (r: Vec<Id<M>>)
        requires
            self.wf(),
            self.event_commitment.half_commit_ok(),
        ensures
            forall|j: int, k: int| 0 <= j < k < r@.len() ==> r@[j].raw < r@[k].raw,
            forall|y: u64| (self.live(y) && !self.deleting@.contains(y)) <==> ids_contain(r@, y),
    {
        self.event_commitment.half_commit(false);
        let all = self.iter();
        let mut out: Vec<Id<M>> = Vec::new();
        let mut i: usize = 0;
        while i < all.len()
            invariant
                i <= all@.len(),
                forall|j: int, k: int| 0 <= j < k < all@.len() ==> all@[j].raw < all@[k].raw,
                forall|j: int, k: int| 0 <= j < k < out@.len() ==> out@[j].raw < out@[k].raw,
                out@.len() > 0 ==> forall|k: int| i <= k < all@.len() ==> out@.last().raw < all@[k].raw,
                forall|y: u64| (ids_contain(all@.take(i as int), y) && !self.deleting@.contains(y))
                    <==> ids_contain(out@, y),
            decreases all@.len() - i,
        {
            let id = all[i];
            let ghost before = out@;
            if !self.deleting.contains(id) {
                out.push(id);
            }
            proof {
                assert(all@.take(i as int + 1) =~= all@.take(i as int).push(id));
                assert forall|y: u64| (ids_contain(all@.take(i as int + 1), y) && !self.deleting@.contains(y))
                    <==> ids_contain(out@, y) by {
                    lemma_ids_contain_push(all@.take(i as int), id, y);
                    if out@.len() > before.len() {
                        assert(out@ == before.push(id));
                        lemma_ids_contain_push(before, id, y);
                    }
                }
            }
            i = i + 1;
        }
        proof {
            assert(all@.take(all@.len() as int) =~= all@);
            assert forall|y: u64| (self.live(y) && !self.deleting@.contains(y)) <==> ids_contain(out@, y) by {
                if self.live(y) {
                    assert(exists|k: int| 0 <= k < all@.len() && all@[k].raw == y);
                }
            }
        }
        out
    }

    /// Marks the live row `id` for deletion at the next flush.
    pub fn delete(&mut self, id: Id<M>)
        requires
            old(self).wf(),
            old(self).live(id.raw),
            old(self).event_commitment.admits(EventCommitment::Delete { event: true }),
        ensures
            final(self).wf(),
            final(self).event_commitment == (EventCommitment::Delete { event: true }),
            final(self).free == old(self).free,
            final(self).outer_capacity == old(self).outer_capacity,
            final(self).pushing == old(self).pushing,
            final(self).load_events == old(self).load_events,
            forall|y: u64| final(self).deleting@.contains(y) <==> (old(self).deleting@.contains(y) || y == id.raw),
    {
        if !self.deleting.contains(id) {
            proof {
                crate::runlist::lemma_push_contains(true, self.deleting@, id.raw);
                assert(id.raw < self.outer_capacity);
                assert forall|y: u64| self.deleting@.push(id.raw).contains(y) implies y
                    < self.outer_capacity by {
                    if y != id.raw {
                        assert(self.deleting@.contains(y));
                    }
                }
                lemma_bounded_len(self.deleting@.push(id.raw), self.outer_capacity);
            }
            self.deleting.push(id);
        }
        self.event_commitment.put(EventCommitment::Delete { event: true });
    }

    /// Marks each of the live rows `ids` for deletion.
    pub fn delete_extend(&mut self, ids: &Vec<Id<M>>)
        requires
            old(self).wf(),
            forall|k: int| 0 <= k < ids@.len() ==> old(self).live(ids@[k].raw),
            old(self).event_commitment.admits(EventCommitment::Delete { event: true }),
        ensures
            final(self).wf(),
            final(self).free == old(self).free,
            final(self).outer_capacity == old(self).outer_capacity,
            ids@.len() > 0 ==> final(self).event_commitment == (EventCommitment::Delete { event: true }),
            forall|y: u64| final(self).deleting@.contains(y) <==> (old(self).deleting@.contains(y)
                || exists|k: int| 0 <= k < ids@.len() && ids@[k].raw == y),
    {
        let mut i: usize = 0;
        while i < ids.len()
            invariant
                i <= ids@.len(),
                self.wf(),
                self.free == old(self).free,
                self.outer_capacity == old(self).outer_capacity,
                forall|k: int| 0 <= k < ids@.len() ==> old(self).live(ids@[k].raw),
                i == 0 ==> self.event_commitment == old(self).event_commitment,
                i > 0 ==> self.event_commitment == (EventCommitment::Delete { event: true }),
                old(self).event_commitment.admits(EventCommitment::Delete { event: true }),
                forall|y: u64| self.deleting@.contains(y) <==> (old(self).deleting@.contains(y)
                    || exists|k: int| 0 <= k < i && ids@[k].raw == y),
            decreases ids@.len() - i,
        {
            let ghost prev = self.deleting@;
            self.delete(ids[i]);
            proof {
                assert forall|y: u64| self.deleting@.contains(y) <==> (old(self).deleting@.contains(y)
                    || exists|k: int| 0 <= k < i + 1 && ids@[k].raw == y) by {
                    if y == ids@[i as int].raw {
                        assert(exists|k: int| 0 <= k < i + 1 && ids@[k].raw == y);
                    }
                    if exists|k: int| 0 <= k < i + 1 && ids@[k].raw == y {
                        let k = choose|k: int| 0 <= k < i + 1 && ids@[k].raw == y;
                        if k < i {
                            assert(prev.contains(y));
                        }
                    }
                }
            }
            i = i + 1;
        }
    }

    /// Marks each id of the inclusive ranges `ranges`, all of them live rows, for deletion.
    pub fn delete_extend_ranges(&mut self, ranges: &Vec<(Id<M>, Id<M>)>)
        requires
            old(self).wf(),
            forall|y: u64| #[trigger] in_ranges(ranges@, y) ==> old(self).live(y),
            old(self).event_commitment.admits(EventCommitment::Delete { event: true }),
        ensures
            final(self).wf(),
            final(self).free == old(self).free,
            final(self).outer_capacity == old(self).outer_capacity,
            forall|y: u64| final(self).deleting@.contains(y) <==> (old(self).deleting@.contains(y)
                || in_ranges(ranges@, y)),
    {
        let mut k: usize = 0;
        while k < ranges.len()
            invariant
                k <= ranges@.len(),
                self.wf(),
                self.free == old(self).free,
                self.outer_capacity == old(self).outer_capacity,
                forall|y: u64| #[trigger] in_ranges(ranges@, y) ==> old(self).live(y),
                self.event_commitment == old(self).event_commitment || self.event_commitment == (
                EventCommitment::Delete { event: true }),
                old(self).event_commitment.admits(EventCommitment::Delete { event: true }),
                forall|y: u64| self.deleting@.contains(y) <==> (old(self).deleting@.contains(y)
                    || in_ranges(ranges@.take(k as int), y)),
            decreases ranges@.len() - k,
        {
            let (lo, hi) = ranges[k];
            let ghost before = self.deleting@;
            if lo.raw <= hi.raw {
                proof {
                    assert(ranges@[k as int].0.raw <= hi.raw <= ranges@[k as int].1.raw);
                    assert(in_ranges(ranges@, hi.raw));
                    assert(old(self).live(hi.raw));
                }
                let mut c = lo.raw;
                while c <= hi.raw
                    invariant
                        lo.raw <= c,
                        c <= hi.raw + 1,
                        hi.raw < LAST_RAW,
                        (lo, hi) == ranges@[k as int],
                        k < ranges@.len(),
                        self.wf(),
                        self.free == old(self).free,
                        self.outer_capacity == old(self).outer_capacity,
                        forall|y: u64| #[trigger] in_ranges(ranges@, y) ==> old(self).live(y),
                        self.event_commitment == old(self).event_commitment || self.event_commitment == (
                        EventCommitment::Delete { event: true }),
                        old(self).event_commitment.admits(EventCommitment::Delete { event: true }),
                        forall|y: u64|
                            #![trigger self.deleting@.contains(y)]
                            #![trigger before.contains(y)]
                            self.deleting@.contains(y) <==> (before.contains(y) || (lo.raw <= y < c)),
                    decreases hi.raw + 1 - c,
                {
                    proof {
                        assert(ranges@[k as int].0.raw <= c <= ranges@[k as int].1.raw);
                        assert(in_ranges(ranges@, c));
                        assert(old(self).live(c));
                    }
                    self.delete(Id::new(c));
                    c = c + 1;
                }
            } else {
            }
            proof {
                assert forall|y: u64| self.deleting@.contains(y) <==> (old(self).deleting@.contains(y)
                    || in_ranges(ranges@.take(k as int + 1), y)) by {
                    lemma_in_ranges_take(ranges@, k as int, y);
                    assert(self.deleting@.contains(y) <==> (before.contains(y) || (lo.raw <= y <= hi.raw)));
                    assert(before.contains(y) <==> (old(self).deleting@.contains(y) || in_ranges(ranges@.take(k as int), y)));
                }
            }
            k = k + 1;
        }
        proof {
            assert(ranges@.take(ranges@.len() as int) =~= ranges@);
        }
    }

    /// Hands out one id: the last free one (`Ok`), or a new one past the outer capacity
    /// (`Err`). The row's column values are the caller's to push.
    pub fn recycle_id_no_event(&mut self) -> (r: Result<Id<M>, Id<M>>)
        requires
            old(self).wf(),
            old(self).outer_capacity + 1 < LAST_RAW,
            old(self).outer_capacity + 1 <= usize::MAX,
            old(self).event_commitment.admits(EventCommitment::Push { event: false }),
        ensures
            final(self).wf(),
            final(self).event_commitment == (EventCommitment::Push { event: false }),
            final(self).deleting == old(self).deleting,
            final(self).load_events == old(self).load_events,
            old(self).free@.len() > 0 ==> r is Ok && r->Ok_0.raw == old(self).free@.last()
                && final(self).free@ == old(self).free@.drop_last()
                && final(self).outer_capacity == old(self).outer_capacity,
            old(self).free@.len() == 0 ==> r is Err && r->Err_0.raw == old(self).outer_capacity
                && final(self).free@ == old(self).free@
                && final(self).outer_capacity == old(self).outer_capacity + 1,
            forall|y: u64| final(self).pushing@.contains(y) <==> (old(self).pushing@.contains(y)
                || y == (match r { Ok(i) => i.raw, Err(i) => i.raw })),
            forall|y: u64| final(self).live(y) <==> (old(self).live(y)
                || y == (match r { Ok(i) => i.raw, Err(i) => i.raw })),
    {
        let ghost free0 = self.free@;
        let ghost push0 = self.pushing@;
        let r = match self.free.pop() {
            Some(id) => {
                proof {
                    assert(free0.contains(id.raw)) by {
                        assert(free0[free0.len() - 1] == id.raw);
                    }
                    assert forall|y: u64| self.free@.contains(y) <==> (free0.contains(y) && y != id.raw) by {
                        lemma_drop_last_contains(free0, y);
                    }
                }
                Ok(id)
            },
            None => {
                let id = Id::new(self.outer_capacity);
                self.outer_capacity = self.outer_capacity + 1;
                Err(id)
            },
        };
        let id = match r {
            Ok(i) => i,
            Err(i) => i,
        };
        proof {
            assert(!push0.contains(id.raw));
            crate::runlist::lemma_push_contains(true, push0, id.raw);
            assert forall|y: u64| push0.push(id.raw).contains(y) implies y < self.outer_capacity by {
                if y != id.raw {
                    assert(push0.contains(y));
                }
            }
            lemma_bounded_len(push0.push(id.raw), self.outer_capacity);
        }
        self.pushing.push(id);
        self.event_commitment.put(EventCommitment::Push { event: false });
        proof {
            assert forall|y: u64| #[trigger] self.free@.contains(y) implies y < self.outer_capacity
                && y != id.raw && free0.contains(y) by {
                if r is Ok {
                    lemma_drop_last_contains(free0, y);
                }
            }
            assert forall|y: u64| self.live(y) <==> (old(self).live(y) || y == id.raw) by {
                if r is Ok {
                    lemma_drop_last_contains(free0, y);
                }
            }
            assert forall|y: u64| #[trigger] self.pushing@.contains(y) implies self.live(y) by {
                if y != id.raw {
                    assert(push0.contains(y));
                }
            }
            assert forall|y: u64| #[trigger] self.deleting@.contains(y) implies self.live(y) by {
                assert(old(self).deleting@.contains(y));
            }
        }
        r
    }

    /// Hands out `n` ids: first from the free list, then past the outer capacity.
    pub fn recycle_ids_no_event(&mut self, n: usize) -> (r: Recycle<M>)
        requires
            old(self).wf(),
            old(self).outer_capacity + n < LAST_RAW,
            old(self).outer_capacity + n <= usize::MAX,
            old(self).event_commitment.admits(EventCommitment::Push { event: false }),
        ensures
            final(self).wf(),
            final(self).event_commitment == (EventCommitment::Push { event: false }),
            r.replace.wf(),
            r.replace@.len() + r.extend == n,
            r.extension.start.raw == old(self).outer_capacity,
            r.extension.end.raw == final(self).outer_capacity,
            final(self).outer_capacity == old(self).outer_capacity + r.extend,
            r.extend > 0 ==> old(self).free@.len() < n && final(self).free@.len() == 0,
            forall|y: u64| r.replace@.contains(y) ==> old(self).free@.contains(y),
            forall|y: u64| final(self).free@.contains(y) <==> (old(self).free@.contains(y)
                && !r.replace@.contains(y)),
            forall|y: u64| final(self).live(y) <==> (old(self).live(y) || r.replace@.contains(y)
                || (old(self).outer_capacity <= y < final(self).outer_capacity)),
            grown_by(old(self).pushing@, final(self).pushing@, r.replace@, r.extension.start.raw, r.extension.end.raw),
    {
        self.event_commitment.put(EventCommitment::Push { event: false });
        let mut replace: RunList<M> = RunList::new();
        let mut got: usize = 0;
        let ghost free0 = self.free@;
        let ghost push0 = self.pushing@;
        while got < n && !self.free.is_empty()
            invariant
                self.wf(),
                self.outer_capacity == old(self).outer_capacity,
                self.event_commitment == (EventCommitment::Push { event: false }),
                self.deleting@.len() == 0,
                replace.wf(),
                got <= n,
                replace@.len() == got,
                old(self).outer_capacity + n < LAST_RAW,
                old(self).outer_capacity + n <= usize::MAX,
                forall|y: u64| replace@.contains(y) ==> free0.contains(y),
                free0.no_duplicates(),
                forall|y: u64| free0.contains(y) ==> y < old(self).outer_capacity,
                forall|y: u64| push0.contains(y) ==> y < old(self).outer_capacity,
                forall|y: u64|
                    #![trigger self.free@.contains(y)]
                    #![trigger replace@.contains(y)]
                    self.free@.contains(y) <==> (free0.contains(y) && !replace@.contains(y)),
                forall|y: u64|
                    #![trigger self.pushing@.contains(y)]
                    #![trigger replace@.contains(y)]
                    self.pushing@.contains(y) <==> (push0.contains(y) || replace@.contains(y)),
                got < n && self.free@.len() == 0 ==> free0.len() == got,
                self.free@.len() + got == free0.len(),
            ensures
                got < n ==> self.free@.len() == 0,
                self.wf(),
                self.outer_capacity == old(self).outer_capacity,
                self.event_commitment == (EventCommitment::Push { event: false }),
                replace.wf(),
                got <= n,
                replace@.len() == got,
                forall|y: u64| replace@.contains(y) ==> free0.contains(y),
                forall|y: u64|
                    #![trigger self.free@.contains(y)]
                    #![trigger replace@.contains(y)]
                    self.free@.contains(y) <==> (free0.contains(y) && !replace@.contains(y)),
                forall|y: u64|
                    #![trigger self.pushing@.contains(y)]
                    #![trigger replace@.contains(y)]
                    self.pushing@.contains(y) <==> (push0.contains(y) || replace@.contains(y)),
                self.free@.len() + got == free0.len(),
            decreases n - got,
        {
            proof {
                lemma_bounded_len(self.pushing@, self.outer_capacity);
                    lemma_bounded_len(free0, old(self).outer_capacity);
            }
            let ghost before = self.free@;
            let id = match self.free.pop() {
                Some(id) => id,
                None => {
                    break;
                },
            };
            let ghost push_before = self.pushing@;
            let ghost rep_before = replace@;
            proof {
                assert(before.contains(id.raw)) by {
                    assert(before[before.len() - 1] == id.raw);
                }
                assert forall|y: u64| self.free@.contains(y) <==> (before.contains(y) && y != id.raw) by {
                    lemma_drop_last_contains(before, y);
                }
                assert(free0.contains(id.raw) && !replace@.contains(id.raw));
                assert(!push_before.contains(id.raw));
                crate::runlist::lemma_push_contains(true, push_before, id.raw);
                assert forall|y: u64| push_before.push(id.raw).contains(y) implies y < self.outer_capacity by {
                    if y != id.raw {
                        assert(push_before.contains(y));
                    }
                }
                lemma_bounded_len(push_before.push(id.raw), self.outer_capacity);
                crate::runlist::lemma_push_contains(true, rep_before, id.raw);
                assert forall|y: u64| rep_before.push(id.raw).contains(y) implies free0.contains(y) by {
                    if y != id.raw {
                        assert(rep_before.contains(y));
                    }
                }
                lemma_bounded_len(free0, old(self).outer_capacity);
            }
            replace.push(id);
            self.pushing.push(id);
            got = got + 1;
            proof {
                assert forall|y: u64| #[trigger] self.free@.contains(y) implies y < self.outer_capacity by {
                    assert(before.contains(y));
                }
                assert forall|y: u64| #[trigger] self.pushing@.contains(y) implies self.live(y) by {
                    if y != id.raw {
                        assert(push_before.contains(y));
                        assert(!before.contains(y) || !self.free@.contains(y) || y == id.raw);
                    }
                }
                assert forall|y: u64| #[trigger] self.deleting@.contains(y) implies self.live(y) by {
                }
                assert forall|y: u64| self.free@.contains(y) <==> (free0.contains(y) && !replace@.contains(y)) by {
                }
                assert forall|y: u64| self.pushing@.contains(y) <==> (push0.contains(y) || replace@.contains(y)) by {
                }
            }
        }
        proof {
            assert(free0 == old(self).free@);
            assert(push0 == old(self).pushing@);
            assert(got < n ==> self.free@.len() == 0);
        }
        let extend: usize = n - got;
        let start = self.outer_capacity;
        let ghost free1 = self.free@;
        let ghost push1 = self.pushing@;
        proof {
            assert forall|y: u64| push1.contains(y) <==> (push0.contains(y) || replace@.contains(y)) by {}
            assert forall|y: u64| free1.contains(y) <==> (free0.contains(y) && !replace@.contains(y)) by {}
        }
        if extend > 0 {
            proof {
                assert forall|y: u64| start <= y <= start + extend - 1 implies !self.pushing@.contains(y) by {}
                lemma_bounded_len(self.pushing@, self.outer_capacity);
            }
            let ghost pre_run = self.pushing@;
            self.outer_capacity = self.outer_capacity + extend as u64;
            self.pushing.push_run(Id::new(start), Id::new(start + extend as u64 - 1));
            proof {
                assert forall|y: u64| self.pushing@.contains(y) <==> (push1.contains(y)
                    || (start <= y < self.outer_capacity)) by {
                    crate::runlist::lemma_run_seq_contains(start, (start + extend - 1) as u64, y);
                    crate::runlist::lemma_concat_contains(pre_run, run_seq(start, (start + extend - 1) as u64), y);
                }
            }
        }
        proof {
            assert forall|y: u64| self.pushing@.contains(y) <==> (push0.contains(y) || replace@.contains(y)
                || (start <= y < self.outer_capacity)) by {
                if extend == 0 {
                    assert(self.pushing@ == push1);
                }
            }
            assert forall|y: u64| self.live(y) <==> (old(self).live(y) || replace@.contains(y)
                || (start <= y < self.outer_capacity)) by {
                assert(self.free@ == free1);
            }
            assert forall|y: u64| #[trigger] self.free@.contains(y) implies y < self.outer_capacity by {
                assert(free1.contains(y));
            }
            assert forall|y: u64| #[trigger] self.pushing@.contains(y) implies self.live(y) by {
                if push0.contains(y) {
                    assert(old(self).pushing@.contains(y));
                }
            }
            assert forall|y: u64| #[trigger] self.deleting@.contains(y) implies self.live(y) by {
            }
            assert forall|y: u64| self.pushing@.contains(y) <==> (old(self).pushing@.contains(y)
                || replace@.contains(y) || (old(self).outer_capacity <= y < self.outer_capacity)) by {
                assert(start == old(self).outer_capacity);
                assert(push0 == old(self).pushing@);
                assert(push0.contains(y) == old(self).pushing@.contains(y));
                if extend == 0 {
                    assert(self.pushing@ == push1);
                }
                if self.pushing@.contains(y) {
                    assert(push0.contains(y) || replace@.contains(y) || (start <= y < self.outer_capacity));
                }
            }
        }
        let ghost rep = replace@;
        let r = Recycle {
            replace,
            extend,
            extension: IdRange::new(Id::new(start), Id::new(self.outer_capacity)),
        };
        proof {
            assert forall|y: u64| self.pushing@.contains(y) <==> (old(self).pushing@.contains(y)
                || rep.contains(y) || (start <= y < self.outer_capacity)) by {
                assert(push0 == old(self).pushing@);
                if extend == 0 {
                    assert(self.pushing@ == push1);
                }
            }
            assert(grown_by(old(self).pushing@, self.pushing@, r.replace@, r.extension.start.raw, r.extension.end.raw));
        }
        r
    }

    /// Hands out `n` consecutive ids: the top of the last free run that is long enough,
    /// found walking from the end of the free list, or else `n` new ids past the outer
    /// capacity.
    pub fn recycle_ids_contiguous_no_event(&mut self, n: usize) -> (r: Recycle<M>)
        requires
            old(self).wf(),
            old(self).outer_capacity + n < LAST_RAW,
            old(self).outer_capacity + n <= usize::MAX,
            old(self).event_commitment.admits(EventCommitment::Push { event: false }),
        ensures
            final(self).wf(),
            final(self).event_commitment == (EventCommitment::Push { event: false }),
            r.replace.wf(),
            r.replace.is_sorted(),
            r.replace.data@.len() <= 1,
            r.replace@.len() + r.extend == n,
            r.extend == 0 || (r.extend == n && r.replace@.len() == 0),
            r.extend > 0 ==> forall|j: int|
                0 <= j < old(self).free.data@.len() ==> old(self).free.data@[j].1 - old(self).free.data@[j].0
                    + 1 < n,
            r.extend == 0 && n > 0 ==> r.replace.data@.len() == 1 && r.replace.data@[0].0 <= r.replace.data@[0].1
                && r.replace.data@[0].1 - r.replace.data@[0].0 + 1 == n,
            r.extension.start.raw == old(self).outer_capacity,
            r.extension.end.raw == final(self).outer_capacity,
            final(self).outer_capacity == old(self).outer_capacity + r.extend,
            forall|y: u64| r.replace@.contains(y) ==> old(self).free@.contains(y),
            forall|y: u64| final(self).free@.contains(y) <==> (old(self).free@.contains(y)
                && !r.replace@.contains(y)),
            forall|y: u64| final(self).live(y) <==> (old(self).live(y) || r.replace@.contains(y)
                || (old(self).outer_capacity <= y < final(self).outer_capacity)),
    {
        self.event_commitment.put(EventCommitment::Push { event: false });
        let start = self.outer_capacity;
        if n == 0 {
            return Recycle {
                replace: RunList::new(),
                extend: 0,
                extension: IdRange::new(Id::new(start), Id::new(start)),
            };
        }
        let mut i: usize = self.free.data.len();
        let mut found = false;
        while i > 0
            invariant_except_break
                !found,
                forall|j: int|
                    i <= j < self.free.data@.len() ==> self.free.data@[j].1 - self.free.data@[j].0 + 1 < n,
            invariant
                i <= self.free.data@.len(),
                n > 0,
                self.free.is_sorted(),
            ensures
                !found ==> forall|j: int|
                    0 <= j < self.free.data@.len() ==> self.free.data@[j].1 - self.free.data@[j].0 + 1 < n,
                found ==> 1 <= i <= self.free.data@.len() && self.free.data@[i - 1].0
                    <= self.free.data@[i - 1].1 && self.free.data@[i - 1].1 - self.free.data@[i - 1].0 >= n - 1,
            decreases i,
        {
            let (lo, hi) = self.free.data[i - 1];
            if lo <= hi && hi - lo >= (n - 1) as u64 {
                found = true;
                break;
            }
            i = i - 1;
        }
        let ghost push0 = self.pushing@;
        let ghost free0 = self.free@;
        if found {
            let k = i - 1;
            proof {
                assert(self.free.data@[k as int].0 <= self.free.data@[k as int].1);
            }
            let hi = self.free.data[k].1;
            let first = self.free.carve_top(k, n as u64);
            let last = first + (n - 1) as u64;
            proof {
                assert(last == hi);
                assert forall|y: u64| first <= y <= last implies !push0.contains(y) by {
                    assert(free0.contains(y));
                }
                crate::runlist::lemma_run_seq_contains(first, last, 0);
                assert forall|y: u64| push0.contains(y) implies !run_seq(first, last).contains(y) by {
                    crate::runlist::lemma_run_seq_contains(first, last, y);
                }
                crate::runlist::lemma_concat_no_dup(push0, run_seq(first, last));
                assert forall|y: u64| (push0 + run_seq(first, last)).contains(y) implies y < self.outer_capacity by {
                    crate::runlist::lemma_concat_contains(push0, run_seq(first, last), y);
                    crate::runlist::lemma_run_seq_contains(first, last, y);
                    if push0.contains(y) {
                        assert(old(self).pushing@.contains(y));
                    } else {
                        assert(free0.contains(y));
                    }
                }
                lemma_bounded_len(push0 + run_seq(first, last), self.outer_capacity);
            }
            let mut replace: RunList<M> = RunList::new();
            replace.push_run(Id::new(first), Id::new(last));
            self.pushing.push_run(Id::new(first), Id::new(last));
            proof {
                assert forall|y: u64| replace@.contains(y) <==> (first <= y <= last) by {
                    crate::runlist::lemma_concat_contains(Seq::<u64>::empty(), run_seq(first, last), y);
                    crate::runlist::lemma_run_seq_contains(first, last, y);
                }
                assert forall|y: u64| self.pushing@.contains(y) <==> (push0.contains(y) || (first <= y <= last)) by {
                    crate::runlist::lemma_concat_contains(push0, run_seq(first, last), y);
                    crate::runlist::lemma_run_seq_contains(first, last, y);
                }
                assert forall|y: u64| #[trigger] self.free@.contains(y) implies y < self.outer_capacity by {
                    assert(free0.contains(y));
                }
                assert forall|y: u64| #[trigger] self.pushing@.contains(y) implies self.live(y) by {
                    if push0.contains(y) {
                        assert(old(self).pushing@.contains(y));
                    }
                }
                assert forall|y: u64| #[trigger] self.deleting@.contains(y) implies self.live(y) by {}
                assert(replace.data@ == seq![(first, last)]);
                assert(replace.is_sorted());
                assert forall|y: u64| self.live(y) <==> (old(self).live(y) || replace@.contains(y)
                    || (old(self).outer_capacity <= y < self.outer_capacity)) by {
                    if first <= y <= last {
                        assert(free0.contains(y));
                    }
                }
            }
            Recycle { replace, extend: 0, extension: IdRange::new(Id::new(start), Id::new(start)) }
        } else {
            let last = start + (n - 1) as u64;
            proof {
                assert forall|y: u64| start <= y <= last implies !push0.contains(y) by {}
                assert forall|y: u64| push0.contains(y) implies !run_seq(start, last).contains(y) by {
                    crate::runlist::lemma_run_seq_contains(start, last, y);
                }
                crate::runlist::lemma_run_seq_contains(start, last, 0);
                crate::runlist::lemma_concat_no_dup(push0, run_seq(start, last));
                assert forall|y: u64| (push0 + run_seq(start, last)).contains(y) implies y < start + n by {
                    crate::runlist::lemma_concat_contains(push0, run_seq(start, last), y);
                    crate::runlist::lemma_run_seq_contains(start, last, y);
                }
                lemma_bounded_len(push0 + run_seq(start, last), (start + n) as u64);
            }
            self.outer_capacity = start + n as u64;
            self.pushing.push_run(Id::new(start), Id::new(last));
            proof {
                assert forall|y: u64| self.pushing@.contains(y) <==> (push0.contains(y) || (start <= y <= last)) by {
                    crate::runlist::lemma_concat_contains(push0, run_seq(start, last), y);
                    crate::runlist::lemma_run_seq_contains(start, last, y);
                }
                assert forall|y: u64| #[trigger] self.pushing@.contains(y) implies self.live(y) by {
                    if push0.contains(y) {
                        assert(old(self).pushing@.contains(y));
                    }
                }
                assert forall|y: u64| #[trigger] self.deleting@.contains(y) implies self.live(y) by {}
                assert forall|y: u64| #[trigger] self.free@.contains(y) implies y < self.outer_capacity by {}
            }
            let replace = RunList::new();
            proof {
                assert forall|y: u64| self.live(y) <==> (old(self).live(y) || replace@.contains(y)
                    || (old(self).outer_capacity <= y < self.outer_capacity)) by {
                    if old(self).free@.contains(y) {
                        assert(y < old(self).outer_capacity);
                    }
                }
            }
            Recycle {
                replace,
                extend: n,
                extension: IdRange::new(Id::new(start), Id::new(self.outer_capacity)),
            }
        }
    }

    /// Finishes the changes since the last flush: deleted ids join the free list, which is
    /// sorted again, and both change lists are emptied. What was changed is handed back
    /// when its kind is tracked.
    pub fn flush(&mut self, track_push: bool, track_delete: bool) -> (r: FlushResult<M>)
        requires
            old(self).wf(),
        ensures
            final(self).wf(),
            final(self).event_commitment == EventCommitment::Uncommitted,
            final(self).outer_capacity == old(self).outer_capacity,
            final(self).pushing@.len() == 0,
            final(self).deleting@.len() == 0,
            forall|y: u64| final(self).free@.contains(y) <==> (old(self).free@.contains(y)
                || old(self).deleting@.contains(y)),
            old(self).event_commitment == EventCommitment::Uncommitted ==> r is Nothing,
            old(self).event_commitment is Push ==> (if track_push && old(self).pushing@.len() > 0 {
                r matches FlushResult::Pushed { ids, load } && ids@ == old(self).pushing@ && ids.wf()
                    && load == old(self).load_events
            } else {
                r is Nothing
            }),
            old(self).event_commitment is Delete ==> (if track_delete && old(self).deleting@.len() > 0 {
                r matches FlushResult::Deleted { ids, load } && ids@ == old(self).deleting@ && ids.wf()
                    && load == old(self).load_events
            } else {
                r is Nothing
            }),
            old(self).event_commitment != EventCommitment::Uncommitted ==> !final(self).load_events,
            old(self).event_commitment == EventCommitment::Uncommitted ==> final(self).load_events == old(self).load_events,
    {
        let commitment = self.event_commitment;
        match commitment {
            EventCommitment::Uncommitted => {
                return FlushResult::Nothing;
            },
            _ => {},
        }
        self.event_commitment = EventCommitment::Uncommitted;
        let load = self.load_events;
        self.load_events = false;
        let mut pushed: RunList<M> = RunList::new();
        core::mem::swap(&mut pushed, &mut self.pushing);
        let mut deleted: RunList<M> = RunList::new();
        core::mem::swap(&mut deleted, &mut self.deleting);
        let mut i: usize = 0;
        let ids = deleted.iter();
        let ghost free0 = self.free@;
        while i < ids.len()
            invariant
                i <= ids@.len(),
                self.free.wf(),
                deleted.wf(),
                ids@.len() == deleted@.len(),
                forall|k: int| 0 <= k < ids@.len() ==> ids@[k].raw == deleted@[k],
                self.outer_capacity == old(self).outer_capacity,
                self.pushing@.len() == 0,
                self.deleting@.len() == 0,
                self.pushing.wf(),
                self.deleting.wf(),
                self.event_commitment == EventCommitment::Uncommitted,
                self.load_events == false,
                self.outer_capacity < LAST_RAW,
                self.outer_capacity <= usize::MAX,
                forall|y: u64| deleted@.contains(y) ==> y < self.outer_capacity,
                forall|y: u64| self.free@.contains(y) ==> y < self.outer_capacity,
                forall|y: u64|
                    #![trigger self.free@.contains(y)]
                    self.free@.contains(y) <==> (free0.contains(y) || exists|k: int|
                        0 <= k < i && deleted@[k] == y),
                forall|y: u64| deleted@.contains(y) ==> !free0.contains(y),
            decreases ids@.len() - i,
        {
            let ghost prev = self.free@;
            proof {
                lemma_bounded_len(self.free@, self.outer_capacity);
                assert(deleted@[i as int] == ids@[i as int].raw);
                assert(deleted@.contains(ids@[i as int].raw));
                if self.free@.contains(ids@[i as int].raw) {
                    assert(!free0.contains(ids@[i as int].raw));
                    let k = choose|k: int| 0 <= k < i && deleted@[k] == ids@[i as int].raw;
                    assert(deleted@[k] == deleted@[i as int]);
                }
                if !self.free@.contains(ids@[i as int].raw) {
                    crate::runlist::lemma_push_contains(true, self.free@, ids@[i as int].raw);
                    assert forall|y: u64| self.free@.push(ids@[i as int].raw).contains(y) implies y
                        < self.outer_capacity by {
                        if y != ids@[i as int].raw {
                            assert(self.free@.contains(y));
                        }
                    }
                    lemma_bounded_len(self.free@.push(ids@[i as int].raw), self.outer_capacity);
                }
            }
            self.free.push(ids[i]);
            proof {
                assert forall|y: u64| self.free@.contains(y) <==> (free0.contains(y) || exists|k: int|
                    0 <= k < i + 1 && deleted@[k] == y) by {
                    if y == deleted@[i as int] {
                        assert(exists|k: int| 0 <= k < i + 1 && deleted@[k] == y);
                    }
                    if exists|k: int| 0 <= k < i + 1 && deleted@[k] == y {
                        let k = choose|k: int| 0 <= k < i + 1 && deleted@[k] == y;
                        if k < i {
                            assert(exists|k: int| 0 <= k < i && deleted@[k] == y);
                            assert(prev.contains(y));
                        }
                    }
                }
            }
            i = i + 1;
        }
        self.free.sort();
        proof {
            assert forall|y: u64| self.free@.contains(y) <==> (old(self).free@.contains(y)
                || old(self).deleting@.contains(y)) by {
                if old(self).deleting@.contains(y) {
                    let k = choose|k: int| 0 <= k < deleted@.len() && deleted@[k] == y;
                }
            }
        }
        match commitment {
            EventCommitment::Push { .. } => if track_push && !pushed.is_empty() {
                FlushResult::Pushed { ids: pushed, load }
            } else {
                FlushResult::Nothing
            },
            _ => if track_delete && !deleted.is_empty() {
                FlushResult::Deleted { ids: deleted, load }
            } else {
                FlushResult::Nothing
            },
        }
    }

    /// Checks `id` against the outer capacity.
    pub fn check(&self, id: Id<M>) -> (r: crate::id::CheckedId<M>)
        requires
            id.raw < self.outer_capacity,
        ensures
            r.id == id,
    {
        crate::id::CheckedId { id }
    }
}

/// A flush moves the rows marked for deletion into the free list, so they are no longer
/// live and iteration no longer yields them; rows that were live and not marked stay live.
pub proof fn lemma_flush_retires_deleted<M>(before: IdList<M>, after: IdList<M>)
    requires
        before.wf(),
        after.outer_capacity == before.outer_capacity,
        forall|y: u64| after.free@.contains(y) <==> (before.free@.contains(y) || before.deleting@.contains(y)),
    ensures
        forall|y: u64| before.deleting@.contains(y) ==> !after.live(y),
        forall|y: u64| after.live(y) <==> (before.live(y) && !before.deleting@.contains(y)),
{
}

/// The live count is the outer capacity less the free ids.
pub proof fn lemma_live_count<M>(l: &IdList<M>)
    requires
        l.wf(),
    ensures
        l.live_set().finite(),
        l.live_set().len() == l.outer_capacity - l.free@.len(),
{
    let cap = l.outer_capacity;
    let f = l.free@.to_set();
    lemma_below_len(cap);
    l.free@.unique_seq_to_set();
    assert(f.subset_of(below(cap)));
    assert(l.live_set() =~= below(cap).difference(f));
    assert(below(cap) =~= l.live_set().union(f));
    vstd::set_lib::lemma_set_subset_finite(below(cap), l.live_set());
    vstd::set_lib::lemma_set_disjoint_lens(l.live_set(), f);
}

/// Whether `y` lies in one of the inclusive ranges `ranges`.
pub open spec fn in_ranges<M>(ranges: Seq<(Id<M>, Id<M>)>, y: u64) -> bool {
    exists|k: int| #![trigger ranges[k]] 0 <= k < ranges.len() && ranges[k].0.raw <= y <= ranges[k].1.raw
}

pub proof fn lemma_in_ranges_take<M>(ranges: Seq<(Id<M>, Id<M>)>, k: int, y: u64)
    requires
        0 <= k < ranges.len(),
    ensures
        in_ranges(ranges.take(k + 1), y) <==> (in_ranges(ranges.take(k), y) || ranges[k].0.raw <= y
            <= ranges[k].1.raw),
{
    if in_ranges(ranges.take(k + 1), y) {
        let m = choose|m: int|
            #![trigger ranges.take(k + 1)[m]]
            0 <= m < k + 1 && ranges.take(k + 1)[m].0.raw <= y <= ranges.take(k + 1)[m].1.raw;
        if m < k {
            assert(ranges.take(k)[m] == ranges[m]);
        }
    }
    if in_ranges(ranges.take(k), y) {
        let m = choose|m: int|
            #![trigger ranges.take(k)[m]]
            0 <= m < k && ranges.take(k)[m].0.raw <= y <= ranges.take(k)[m].1.raw;
        assert(ranges.take(k + 1)[m] == ranges[m]);
    }
    if ranges[k].0.raw <= y <= ranges[k].1.raw {
        assert(ranges.take(k + 1)[k] == ranges[k]);
    }
}

/// `after` holds the ids of `before`, of `rep`, and `lo..hi`, and no others.
pub open spec fn grown_by(before: Seq<u64>, after: Seq<u64>, rep: Seq<u64>, lo: u64, hi: u64) -> bool {
    forall|y: u64| after.contains(y) <==> (before.contains(y) || rep.contains(y) || (lo <= y < hi))
}

pub proof fn lemma_ids_contain_push<M>(v: Seq<Id<M>>, id: Id<M>, y: u64)
    ensures
        ids_contain(v.push(id), y) <==> (ids_contain(v, y) || id.raw == y),
{
    if ids_contain(v.push(id), y) {
        let k = choose|k: int| 0 <= k < v.len() + 1 && v.push(id)[k].raw == y;
        if k < v.len() {
            assert(v[k].raw == y);
        }
    }
    if ids_contain(v, y) {
        let k = choose|k: int| 0 <= k < v.len() && v[k].raw == y;
        assert(v.push(id)[k].raw == y);
    }
    assert(v.push(id)[v.len() as int] == id);
}

pub proof fn lemma_drop_last_contains(s: Seq<u64>, y: u64)
    requires
        s.len() > 0,
        s.no_duplicates(),
    ensures
        s.drop_last().contains(y) <==> (s.contains(y) && y != s.last()),
{
    if s.drop_last().contains(y) {
        let k = choose|k: int| 0 <= k < s.len() - 1 && s.drop_last()[k] == y;
        assert(s[k] == y);
    }
    if s.contains(y) && y != s.last() {
        let k = choose|k: int| 0 <= k < s.len() && s[k] == y;
        assert(s.drop_last()[k] == y);
    }
}

} // verus!
