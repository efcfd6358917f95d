//! The lock states of the slots a universe holds, keyed by type tag, and the decisions
//! that grant, defer or refuse access to them.
use vstd::prelude::*;
use crate::kernel::ResourceList;
use crate::lock::{
    access_refusal, acquire_result, acquired, give_back, grantable, grants, refusal,
    release_refusal, released, Access, LockError, LockState,
};

verus! {

/// Why the store refuses a request; the caller is to fail rather than wait.
#[derive(Debug, Clone, Copy, PartialEq, Eq, Structural)]
pub enum StoreError {
    /// No slot has the tag.
    Absent(u64),
    /// The slot's lock refuses.
    Lock(u64, LockError),
}

/// The lock state of every slot, by tag.
#[derive(Debug)]
pub struct LockTable {
    pub tags: Vec<u64>,
    pub states: Vec<LockState>,
    pub frozen: bool,
}

impl LockTable {
    pub open spec fn wf(&self) -> bool {
        &&& self.tags@.len() == self.states@.len()
        &&& forall|i: int, j: int| 0 <= i < j < self.tags@.len() ==> self.tags@[i] != self.tags@[j]
    }

    /// Whether the table has a slot tagged `tag`.
    pub open spec fn holds(&self, tag: u64) -> bool {
        self.tags@.contains(tag)
    }

    /// The position of the slot tagged `tag`.
    pub open spec fn index_of(&self, tag: u64) -> int {
        choose|i: int| 0 <= i < self.tags@.len() && self.tags@[i] == tag
    }

    /// The state of the slot tagged `tag`.
    pub open spec fn state_of(&self, tag: u64) -> LockState {
        self.states@[self.index_of(tag)]
    }

    /// Why a request for `a` on `tag` by thread `tid` must fail, if it must.
    pub open spec fn store_refusal(&self, tag: u64, a: Access, tid: u64) -> Option<StoreError> {
        if !self.holds(tag) {
            Some(StoreError::Absent(tag))
        } else {
            match refusal(self.state_of(tag), a, tid) {
                Some(e) => Some(StoreError::Lock(tag, e)),
                None => None,
            }
        }
    }

    /// Why giving back `a` on `tag` must fail, if it must.
    pub open spec fn release_refusal_spec(&self, tag: u64, a: Access, unwinding: bool) -> Option<StoreError> {
        if !self.holds(tag) {
            Some(StoreError::Absent(tag))
        } else {
            match give_back(self.state_of(tag), a, unwinding) {
                Err(e) => Some(StoreError::Lock(tag, e)),
                Ok(_) => None,
            }
        }
    }

    /// Every entry of `res` can be asked for without failing.
    pub open spec fn plan_allowed(&self, res: Seq<(u64, Access)>, tid: u64) -> bool {
        forall|k: int| 0 <= k < res.len() ==> (#[trigger] self.store_refusal(res[k].0, res[k].1, tid)) is None
    }

    /// Every entry of `res` can be given back.
    pub open spec fn release_allowed(&self, res: Seq<(u64, Access)>, unwinding: bool) -> bool {
        forall|k: int| 0 <= k < res.len() ==> (#[trigger] self.release_refusal_spec(res[k].0, res[k].1, unwinding)) is None
    }

    /// Every entry of `res` can be granted now.
    pub open spec fn all_grantable(&self, res: Seq<(u64, Access)>) -> bool {
        forall|k: int| 0 <= k < res.len() ==> grantable(#[trigger] self.state_of(res[k].0), res[k].1)
    }

    pub proof fn lemma_index_of(&self, i: int)
        requires
            self.wf(),
            0 <= i < self.tags@.len(),
        ensures
            self.index_of(self.tags@[i]) == i,
            self.holds(self.tags@[i]),
    {
        let t = self.tags@[i];
        assert(self.tags@[i] == t);
        let j = self.index_of(t);
        assert(0 <= j < self.tags@.len() && self.tags@[j] == t);
        if j != i {
            if j < i {
                assert(self.tags@[j] != self.tags@[i]);
            } else {
                assert(self.tags@[i] != self.tags@[j]);
            }
        }
    }

    pub fn new() -> (r: LockTable)
        ensures
            r.wf(),
            r.tags@.len() == 0,
            !r.frozen,
    {
        LockTable { tags: Vec::new(), states: Vec::new(), frozen: false }
    }

    /// The position of `tag`.
    pub fn find(&self, tag: u64) -> (r: Option<usize>)
        requires
            self.wf(),
        ensures
            r is Some ==> r->Some_0 < self.tags@.len() && self.tags@[r->Some_0 as int] == tag
                && self.index_of(tag) == r->Some_0,
            r is None <==> !self.holds(tag),
    {
        let mut i: usize = 0;
        while i < self.tags.len()
            invariant
                self.wf(),
                i <= self.tags@.len(),
                forall|j: int| 0 <= j < i ==> self.tags@[j] != tag,
            decreases self.tags@.len() - i,
        {
            if self.tags[i] == tag {
                proof {
                    self.lemma_index_of(i as int);
                }
                return Some(i);
            }
            i = i + 1;
        }
        None
    }

    pub fn has(&self, tag: u64) -> (r: bool)
        requires
            self.wf(),
        ensures
            r == self.holds(tag),
    {
        self.find(tag).is_some()
    }

    /// The state of the slot tagged `tag`.
    pub fn state(&self, tag: u64) -> (r: Option<LockState>)
        requires
            self.wf(),
        ensures
            r is None <==> !self.holds(tag),
            r is Some ==> r->Some_0 == self.state_of(tag),
    {
        match self.find(tag) {
            Some(i) => Some(self.states[i]),
            None => None,
        }
    }

    /// Adds an open slot tagged `tag`; only to a table that is not frozen and has no such
    /// slot yet.
    pub fn add(&mut self, tag: u64)
        requires
            old(self).wf(),
            !old(self).frozen,
            !old(self).holds(tag),
        ensures
            final(self).wf(),
            final(self).frozen == old(self).frozen,
            final(self).tags@ == old(self).tags@.push(tag),
            final(self).states@ == old(self).states@.push(LockState::Open),
            final(self).holds(tag),
            final(self).state_of(tag) == LockState::Open,
    {
        self.tags.push(tag);
        self.states.push(LockState::Open);
        proof {
            assert forall|i: int, j: int| 0 <= i < j < self.tags@.len() implies self.tags@[i] != self.tags@[j] by {
                if j == self.tags@.len() - 1 {
                    assert(old(self).tags@[i] == self.tags@[i]);
                    if self.tags@[i] == tag {
                        assert(old(self).tags@.contains(tag));
                    }
                }
            }
            self.lemma_index_of(self.tags@.len() - 1);
        }
    }

    /// Removes the slot tagged `tag`, answering whether there was one; only from a table
    /// that is not frozen, and only a slot nobody holds.
    pub fn remove(&mut self, tag: u64) -> (r: bool)
        requires
            old(self).wf(),
            !old(self).frozen,
            old(self).holds(tag) ==> old(self).state_of(tag) == LockState::Open,
        ensures
            final(self).wf(),
            final(self).frozen == old(self).frozen,
            r == old(self).holds(tag),
            !final(self).holds(tag),
            !r ==> *final(self) == *old(self),
            r ==> final(self).tags@ == old(self).tags@.remove(old(self).index_of(tag))
                && final(self).states@ == old(self).states@.remove(old(self).index_of(tag)),
    {
        match self.find(tag) {
            None => false,
            Some(i) => {
                let ghost old_tags = self.tags@;
                self.tags.remove(i);
                self.states.remove(i);
                proof {
                    assert forall|j: int| 0 <= j < self.tags@.len() implies self.tags@[j] != tag by {
                        if j < i {
                            assert(old_tags[j] != old_tags[i as int]);
                        } else {
                            assert(old_tags[j + 1] != old_tags[i as int]);
                        }
                    }
                    assert forall|a: int, b: int| 0 <= a < b < self.tags@.len() implies self.tags@[a] != self.tags@[b] by {
                        let a2 = if a < i { a } else { a + 1 };
                        let b2 = if b < i { b } else { b + 1 };
                        assert(self.tags@[a] == old_tags[a2] && self.tags@[b] == old_tags[b2]);
                    }
                }
                true
            },
        }
    }

    /// Disables further adding and removing of slots.
    pub fn freeze(&mut self)
        ensures
            final(self).frozen,
            final(self).tags == old(self).tags,
            final(self).states == old(self).states,
    {
        self.frozen = true;
    }

    /// Why a request for `access` on `tag` must fail, if it must: an absent slot, the
    /// writing thread asking again, a poisoned slot, or a full reader count.
    pub fn refusal(&self, tag: u64, access: Access, tid: u64) -> (r: Option<StoreError>)
        requires
            self.wf(),
        ensures
            r == self.store_refusal(tag, access, tid),
    {
        match self.find(tag) {
            None => Some(StoreError::Absent(tag)),
            Some(i) => match access_refusal(self.states[i], access, tid) {
                Some(e) => Some(StoreError::Lock(tag, e)),
                None => None,
            },
        }
    }

    /// One step of a blocking access that cannot fail: takes `access` and answers `true`
    /// when it can be granted now, else changes nothing and answers `false` (wait).
    pub fn try_access(&mut self, tag: u64, access: Access, tid: u64) -> (r: bool)
        requires
            old(self).wf(),
            old(self).store_refusal(tag, access, tid) is None,
        ensures
            final(self).wf(),
            final(self).tags == old(self).tags,
            final(self).frozen == old(self).frozen,
            r == grantable(old(self).state_of(tag), access),
            !r ==> final(self).states == old(self).states,
            r ==> final(self).states@ == old(self).states@.update(
                old(self).index_of(tag),
                acquire_result(old(self).state_of(tag), access, tid)->Ok_0,
            ),
    {
        let i = match self.find(tag) {
            Some(i) => i,
            None => {
                return false;
            },
        };
        let s = self.states[i];
        if grants(s, access) {
            self.states.set(i, acquired(s, access, tid));
            true
        } else {
            false
        }
    }

    /// Why giving back `access` on `tag` must fail, if it must.
    pub fn release_refusal(&self, tag: u64, access: Access, unwinding: bool) -> (r: Option<StoreError>)
        requires
            self.wf(),
        ensures
            r == self.release_refusal_spec(tag, access, unwinding),
    {
        match self.find(tag) {
            None => Some(StoreError::Absent(tag)),
            Some(i) => match release_refusal(self.states[i], access, unwinding) {
                Some(e) => Some(StoreError::Lock(tag, e)),
                None => None,
            },
        }
    }

    /// Gives back `access` on the slot tagged `tag`; `unwinding` when its holder panics.
    pub fn release(&mut self, tag: u64, access: Access, unwinding: bool)
        requires
            old(self).wf(),
            old(self).release_refusal_spec(tag, access, unwinding) is None,
        ensures
            final(self).wf(),
            final(self).tags == old(self).tags,
            final(self).frozen == old(self).frozen,
            final(self).states@ == old(self).states@.update(
                old(self).index_of(tag),
                give_back(old(self).state_of(tag), access, unwinding)->Ok_0,
            ),
    {
        match self.find(tag) {
            Some(i) => {
                let n = released(self.states[i], access, unwinding);
                self.states.set(i, n);
            },
            None => {},
        }
    }

    /// Why a kernel's lock plan must fail, if it must: the first entry that is refused.
    pub fn plan_refusal(&self, res: &ResourceList, tid: u64) -> (r: Option<StoreError>)
        requires
            self.wf(),
        ensures
            r is None <==> self.plan_allowed(res.resources@, tid),
            r is Some ==> exists|k: int| 0 <= k < res.resources@.len() && self.store_refusal(
                res.resources@[k].0,
                res.resources@[k].1,
                tid,
            ) == r && forall|m: int| 0 <= m < k ==> self.store_refusal(res.resources@[m].0, res.resources@[m].1, tid) is None,
    {
        let n = res.resources.len();
        let mut k: usize = 0;
        while k < n
            invariant
                n == res.resources@.len(),
                k <= n,
                self.wf(),
                forall|m: int| 0 <= m < k ==> (#[trigger] self.store_refusal(res.resources@[m].0, res.resources@[m].1, tid)) is None,
            decreases n - k,
        {
            let (t, acc) = res.resources[k];
            let e = self.refusal(t, acc, tid);
            if e.is_some() {
                return e;
            }
            k = k + 1;
        }
        None
    }

    /// Plans a kernel's locks as one set, where no entry is refused: when every named slot
    /// can be granted, takes them all (a slot named twice for reading is taken once) and
    /// answers `true`; when one must wait, takes none and answers `false`.
    pub fn try_acquire_all(&mut self, res: &ResourceList, tid: u64) -> (r: bool)
        requires
            old(self).wf(),
            res.wf(),
            old(self).plan_allowed(res.resources@, tid),
        ensures
            final(self).wf(),
            final(self).tags == old(self).tags,
            final(self).frozen == old(self).frozen,
            r == old(self).all_grantable(res.resources@),
            !r ==> final(self).states == old(self).states,
            r ==> forall|k: int| 0 <= k < res.resources@.len() ==> final(self).states@[old(self).index_of(
                res.resources@[k].0,
            )] == acquire_result(#[trigger] old(self).state_of(res.resources@[k].0), res.resources@[k].1, tid)->Ok_0,
            r ==> forall|i: int|
                0 <= i < old(self).tags@.len() && (forall|k: int| 0 <= k < res.resources@.len() ==> old(self).tags@[i]
                    != res.resources@[k].0) ==> final(self).states@[i] == old(self).states@[i],
    {
        let ghost rs = res.resources@;
        let n = res.resources.len();
        let mut idx: Vec<usize> = Vec::new();
        let mut k: usize = 0;
        while k < n
            invariant
                n == rs.len(),
                rs == res.resources@,
                self.wf(),
                *self == *old(self),
                self.plan_allowed(rs, tid),
                k <= n,
                idx@.len() == k,
                forall|m: int|
                    #![trigger idx@[m]]
                    0 <= m < k ==> idx@[m] < self.tags@.len() && self.tags@[idx@[m] as int] == rs[m].0
                        && idx@[m] == self.index_of(rs[m].0) && grantable(self.states@[idx@[m] as int], rs[m].1)
                        && acquire_result(self.states@[idx@[m] as int], rs[m].1, tid) is Ok,
            decreases n - k,
        {
            let (t, acc) = res.resources[k];
            proof {
                assert(self.store_refusal(rs[k as int].0, rs[k as int].1, tid) is None);
            }
            let i = match self.find(t) {
                Some(i) => i,
                None => {
                    return false;
                },
            };
            if !grants(self.states[i], acc) {
                proof {
                    assert(!grantable(self.state_of(rs[k as int].0), rs[k as int].1));
                }
                return false;
            }
            let ghost before = idx@;
            idx.push(i);
            proof {
                assert forall|m: int|
                    #![trigger idx@[m]]
                    0 <= m < k + 1 implies idx@[m] < self.tags@.len() && self.tags@[idx@[m] as int] == rs[m].0
                        && idx@[m] == self.index_of(rs[m].0) && grantable(self.states@[idx@[m] as int], rs[m].1)
                        && acquire_result(self.states@[idx@[m] as int], rs[m].1, tid) is Ok by {
                    if m < k {
                        assert(idx@[m] == before[m]);
                    }
                }
            }
            k = k + 1;
        }
        proof {
            assert forall|k: int| 0 <= k < rs.len() implies grantable(#[trigger] old(self).state_of(rs[k].0), rs[k].1) by {
                assert(idx@[k] == old(self).index_of(rs[k].0));
            }
        }
        let ghost start = self.states@;
        let mut k: usize = 0;
        while k < n
            invariant
                n == rs.len(),
                rs == res.resources@,
                res.wf(),
                self.wf(),
                self.tags == old(self).tags,
                self.frozen == old(self).frozen,
                start == old(self).states@,
                k <= n,
                idx@.len() == n,
                forall|m: int|
                    #![trigger idx@[m]]
                    0 <= m < n ==> idx@[m] < self.tags@.len() && self.tags@[idx@[m] as int] == rs[m].0
                        && idx@[m] == old(self).index_of(rs[m].0)
                        && acquire_result(start[idx@[m] as int], rs[m].1, tid) is Ok,
                forall|m: int|
                    #![trigger idx@[m]]
                    0 <= m < k ==> self.states@[idx@[m] as int] == acquire_result(
                        start[idx@[m] as int],
                        rs[m].1,
                        tid,
                    )->Ok_0,
                forall|i: int| 0 <= i < self.tags@.len() && (forall|m: int| 0 <= m < k ==> idx@[m] != i)
                    ==> self.states@[i] == start[i],
            decreases n - k,
        {
            let i = idx[k];
            let (t, acc) = res.resources[k];
            let mut seen = false;
            let mut m: usize = 0;
            while m < k
                invariant
                    m <= k,
                    k < n,
                    idx@.len() == n,
                    seen <==> exists|p: int| 0 <= p < m && idx@[p] == i,
                decreases k - m,
            {
                if idx[m] == i {
                    seen = true;
                }
                m = m + 1;
            }
            if !seen {
                proof {
                    assert(self.states@[i as int] == start[i as int]);
                }
                let s = acquired(self.states[i], acc, tid);
                self.states.set(i, s);
            } else {
                proof {
                    let p = choose|p: int| 0 <= p < k && idx@[p] == i;
                    assert(rs[p].0 == rs[k as int].0);
                    assert(!crate::kernel::clash(rs, p, k as int));
                    assert(rs[p].1 == Access::Read && acc == Access::Read);
                }
            }
            k = k + 1;
        }
        proof {
            assert forall|k: int| 0 <= k < rs.len() implies self.states@[old(self).index_of(rs[k].0)]
                == acquire_result(#[trigger] old(self).state_of(rs[k].0), rs[k].1, tid)->Ok_0 by {
                assert(idx@[k] == old(self).index_of(rs[k].0));
            }
            assert forall|i: int|
                0 <= i < old(self).tags@.len() && (forall|k: int| 0 <= k < rs.len() ==> old(self).tags@[i]
                    != rs[k].0) implies self.states@[i] == old(self).states@[i] by {
                assert forall|m: int| 0 <= m < n implies idx@[m] != i by {
                    assert(self.tags@[idx@[m] as int] == rs[m].0);
                }
            }
        }
        true
    }

    /// Why giving back a kernel's set must fail, if it must: the first entry refused.
    pub fn release_plan_refusal(&self, res: &ResourceList, unwinding: bool) -> (r: Option<StoreError>)
        requires
            self.wf(),
        ensures
            r is None <==> self.release_allowed(res.resources@, unwinding),
            r is Some ==> exists|k: int| 0 <= k < res.resources@.len() && self.release_refusal_spec(
                res.resources@[k].0,
                res.resources@[k].1,
                unwinding,
            ) == r,
    {
        let n = res.resources.len();
        let mut k: usize = 0;
        while k < n
            invariant
                n == res.resources@.len(),
                k <= n,
                self.wf(),
                forall|m: int| 0 <= m < k ==> (#[trigger] self.release_refusal_spec(res.resources@[m].0, res.resources@[m].1, unwinding)) is None,
            decreases n - k,
        {
            let (t, acc) = res.resources[k];
            let e = self.release_refusal(t, acc, unwinding);
            if e.is_some() {
                return e;
            }
            k = k + 1;
        }
        None
    }

    /// Gives back every slot of a kernel's set, in reverse order of declaration (a slot
    /// named twice is given back once); `unwinding` when the kernel panicked.
    pub fn release_all(&mut self, res: &ResourceList, unwinding: bool)
        requires
            old(self).wf(),
            res.wf(),
            old(self).release_allowed(res.resources@, unwinding),
        ensures
            final(self).wf(),
            final(self).tags == old(self).tags,
            final(self).frozen == old(self).frozen,
            forall|k: int| 0 <= k < res.resources@.len() ==> final(self).states@[old(self).index_of(
                res.resources@[k].0,
            )] == give_back(#[trigger] old(self).state_of(res.resources@[k].0), res.resources@[k].1, unwinding)->Ok_0,
            forall|i: int|
                0 <= i < old(self).tags@.len() && (forall|k: int| 0 <= k < res.resources@.len() ==> old(self).tags@[i]
                    != res.resources@[k].0) ==> final(self).states@[i] == old(self).states@[i],
    {
        let ghost rs = res.resources@;
        let n = res.resources.len();
        let mut idx: Vec<usize> = Vec::new();
        let mut k: usize = 0;
        while k < n
            invariant
                n == rs.len(),
                rs == res.resources@,
                self.wf(),
                *self == *old(self),
                self.release_allowed(rs, unwinding),
                k <= n,
                idx@.len() == k,
                forall|m: int|
                    #![trigger idx@[m]]
                    0 <= m < k ==> idx@[m] < self.tags@.len() && self.tags@[idx@[m] as int] == rs[m].0
                        && idx@[m] == self.index_of(rs[m].0)
                        && give_back(self.states@[idx@[m] as int], rs[m].1, unwinding) is Ok,
            decreases n - k,
        {
            let (t, acc) = res.resources[k];
            proof {
                assert(self.release_refusal_spec(rs[k as int].0, rs[k as int].1, unwinding) is None);
            }
            let i = match self.find(t) {
                Some(i) => i,
                None => {
                    return;
                },
            };
            let ghost before = idx@;
            idx.push(i);
            proof {
                assert forall|m: int|
                    #![trigger idx@[m]]
                    0 <= m < k + 1 implies idx@[m] < self.tags@.len() && self.tags@[idx@[m] as int] == rs[m].0
                        && idx@[m] == self.index_of(rs[m].0)
                        && give_back(self.states@[idx@[m] as int], rs[m].1, unwinding) is Ok by {
                    if m < k {
                        assert(idx@[m] == before[m]);
                    }
                }
            }
            k = k + 1;
        }
        let ghost start = self.states@;
        let mut k: usize = n;
        while k > 0
            invariant
                n == rs.len(),
                rs == res.resources@,
                res.wf(),
                self.wf(),
                self.tags == old(self).tags,
                self.frozen == old(self).frozen,
                start == old(self).states@,
                k <= n,
                idx@.len() == n,
                forall|m: int|
                    #![trigger idx@[m]]
                    0 <= m < n ==> idx@[m] < self.tags@.len() && self.tags@[idx@[m] as int] == rs[m].0
                        && idx@[m] == old(self).index_of(rs[m].0)
                        && give_back(start[idx@[m] as int], rs[m].1, unwinding) is Ok,
                forall|m: int|
                    #![trigger idx@[m]]
                    k <= m < n ==> self.states@[idx@[m] as int] == give_back(start[idx@[m] as int], rs[m].1, unwinding)->Ok_0,
                forall|i: int| 0 <= i < self.tags@.len() && (forall|m: int| k <= m < n ==> idx@[m] != i)
                    ==> self.states@[i] == start[i],
            decreases k,
        {
            k = k - 1;
            let i = idx[k];
            let (t, acc) = res.resources[k];
            let mut seen = false;
            let mut m: usize = k + 1;
            while m < n
                invariant
                    k < m <= n,
                    idx@.len() == n,
                    seen <==> exists|p: int| k < p < m && idx@[p] == i,
                decreases n - m,
            {
                if idx[m] == i {
                    seen = true;
                }
                m = m + 1;
            }
            if !seen {
                proof {
                    assert forall|p: int| k < p < n implies idx@[p] != i by {}
                    assert(self.states@[i as int] == start[i as int]);
                }
                let s = released(self.states[i], acc, unwinding);
                self.states.set(i, s);
            } else {
                proof {
                    let p = choose|p: int| k < p < n && idx@[p] == i;
                    assert(rs[p].0 == rs[k as int].0);
                    assert(!crate::kernel::clash(rs, k as int, p));
                    assert(rs[p].1 == Access::Read && acc == Access::Read);
                }
            }
        }
        proof {
            assert forall|k: int| 0 <= k < rs.len() implies self.states@[old(self).index_of(rs[k].0)]
                == give_back(#[trigger] old(self).state_of(rs[k].0), rs[k].1, unwinding)->Ok_0 by {
                assert(idx@[k] == old(self).index_of(rs[k].0));
            }
            assert forall|i: int|
                0 <= i < old(self).tags@.len() && (forall|k: int| 0 <= k < rs.len() ==> old(self).tags@[i]
                    != rs[k].0) implies self.states@[i] == old(self).states@[i] by {
                assert forall|m: int| 0 <= m < n implies idx@[m] != i by {
                    assert(self.tags@[idx@[m] as int] == rs[m].0);
                }
            }
        }
    }
}

} // verus!
