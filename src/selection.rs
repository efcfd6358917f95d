//! Selections: the rows of several tables gathered by walking foreign keys from one
//! table to the tables that refer to it.
use vstd::prelude::*;
use crate::runlist::RunList;

verus! {

/// The marker of id lists whose table is named by a tag.
#[derive(Debug, Clone, Copy, PartialEq, Eq)]
pub struct AnyTable;

/// Per table tag, the rows selected so far (`None` for a table visited without rows), the
/// order in which tables were reached, and the tables that must not be entered.
#[derive(Debug)]
pub struct Selection {
    pub tags: Vec<u64>,
    pub lists: Vec<Option<RunList<AnyTable>>>,
    pub order: Vec<u64>,
    pub exclude: Vec<u64>,
}

impl Selection {
    pub open spec fn wf(&self) -> bool {
        &&& self.tags@.len() == self.lists@.len()
        &&& forall|i: int, j: int| 0 <= i < j < self.tags@.len() ==> self.tags@[i] != self.tags@[j]
        &&& forall|i: int| 0 <= i < self.lists@.len() && (#[trigger] self.lists@[i]) is Some ==> self.lists@[i]->Some_0.wf()
    }

    /// Whether the selection has an entry for `tag`.
    pub open spec fn has(&self, tag: u64) -> bool {
        self.tags@.contains(tag)
    }

    /// The position of the entry of `tag`.
    pub open spec fn index_of(&self, tag: u64) -> int {
        choose|i: int| 0 <= i < self.tags@.len() && self.tags@[i] == tag
    }

    /// The entry of `tag`: its rows, or `None` for a table reached without rows.
    pub open spec fn list_of(&self, tag: u64) -> Option<RunList<AnyTable>> {
        self.lists@[self.index_of(tag)]
    }

    /// Every table but `tag` that `old` has an entry for keeps that entry in `self`.
    pub open spec fn keeps_others(&self, old: Selection, tag: u64) -> bool {
        forall|t: u64| t != tag && old.has(t) ==> self.has(t) && #[trigger] self.list_of(t) == old.list_of(t)
    }

    pub proof fn lemma_index_of(&self, i: int)
        requires
            self.wf(),
            0 <= i < self.tags@.len(),
        ensures
            self.index_of(self.tags@[i]) == i,
            self.has(self.tags@[i]),
    {
        let t = self.tags@[i];
        assert(self.tags@[i] == t);
        let j = self.index_of(t);
        if j != i {
            if j < i {
                assert(self.tags@[j] != self.tags@[i]);
            } else {
                assert(self.tags@[i] != self.tags@[j]);
            }
        }
    }

    /// Whether the selection is well formed, computed.
    pub fn validate(&self) -> (r: bool)
        ensures
            r == self.wf(),
    {
        if self.tags.len() != self.lists.len() {
            return false;
        }
        let n = self.tags.len();
        let mut j: usize = 0;
        while j < n
            invariant
                n == self.tags@.len(),
                self.tags@.len() == self.lists@.len(),
                j <= n,
                forall|a: int, b: int| 0 <= a < b < j ==> self.tags@[a] != self.tags@[b],
                forall|a: int| 0 <= a < j && (#[trigger] self.lists@[a]) is Some ==> self.lists@[a]->Some_0.wf(),
            decreases n - j,
        {
            let mut i: usize = 0;
            while i < j
                invariant
                    n == self.tags@.len(),
                    j < n,
                    i <= j,
                    forall|a: int| 0 <= a < i ==> self.tags@[a] != self.tags@[j as int],
                decreases j - i,
            {
                if self.tags[i] == self.tags[j] {
                    return false;
                }
                i = i + 1;
            }
            match &self.lists[j] {
                Some(l) => {
                    if l.validate_data().is_err() {
                        return false;
                    }
                },
                None => {},
            }
            j = j + 1;
        }
        true
    }

    pub fn new() -> (r: Selection)
        ensures
            r.wf(),
            r.tags@.len() == 0,
            r.order@.len() == 0,
            r.exclude@.len() == 0,
    {
        Selection { tags: Vec::new(), lists: Vec::new(), order: Vec::new(), exclude: Vec::new() }
    }

    /// A selection that starts from the rows `sel` of the table tagged `tag`.
    pub fn from<M>(tag: u64, sel: RunList<M>) -> (r: Selection)
        requires
            sel.wf(),
        ensures
            r.wf(),
            r.tags@ == seq![tag],
            r.lists@.len() == 1 && r.lists@[0] is Some && r.lists@[0]->Some_0@ == sel@,
            r.order@.len() == 0,
            r.exclude@.len() == 0,
    {
        let mut r = Selection::new();
        r.tags.push(tag);
        r.lists.push(Some(sel.retag()));
        proof {
            assert(r.tags@ =~= seq![tag]);
        }
        r
    }

    fn find(&self, tag: u64) -> (r: Option<usize>)
        requires
            self.wf(),
        ensures
            r is Some ==> r->Some_0 < self.tags@.len() && self.tags@[r->Some_0 as int] == tag,
            r is None <==> !self.has(tag),
    {
        let mut i: usize = 0;
        while i < self.tags.len()
            invariant
                i <= self.tags@.len(),
                forall|j: int| 0 <= j < i ==> self.tags@[j] != tag,
            decreases self.tags@.len() - i,
        {
            if self.tags[i] == tag {
                return Some(i);
            }
            i = i + 1;
        }
        None
    }

    /// The rows selected from the table tagged `tag`, if rows were delivered for it.
    pub fn get(&self, tag: u64) -> (r: Option<&RunList<AnyTable>>)
        requires
            self.wf(),
        ensures
            !self.has(tag) ==> r is None,
            forall|i: int| 0 <= i < self.tags@.len() && self.tags@[i] == tag ==> match self.lists@[i] {
                Some(l) => r is Some && *r->Some_0 == l,
                None => r is None,
            },
    {
        match self.find(tag) {
            Some(i) => {
                proof {
                    assert forall|j: int| 0 <= j < self.tags@.len() && self.tags@[j] == tag implies j == i by {}
                }
                match &self.lists[i] {
                    Some(l) => Some(l),
                    None => None,
                }
            },
            None => None,
        }
    }

    /// Takes the rows selected from the table tagged `tag` out of the selection, to be
    /// added to; an empty list when there were none.
    pub fn ordered(&mut self, tag: u64) -> (r: RunList<AnyTable>)
        requires
            old(self).wf(),
        ensures
            final(self).wf(),
            r.wf(),
            !final(self).has(tag),
            final(self).order == old(self).order,
            final(self).exclude == old(self).exclude,
            !old(self).has(tag) ==> r@.len() == 0 && r.wf() && final(self).tags == old(self).tags,
            forall|i: int| 0 <= i < old(self).tags@.len() && old(self).tags@[i] == tag ==> match old(
                self,
            ).lists@[i] {
                Some(l) => r == l,
                None => r@.len() == 0 && r.wf(),
            },
            forall|t: u64| t != tag ==> (final(self).has(t) <==> old(self).has(t)),
            final(self).keeps_others(*old(self), tag),
    {
        match self.find(tag) {
            None => RunList::new(),
            Some(i) => {
                let ghost old_tags = self.tags@;
                self.tags.remove(i);
                let l = self.lists.remove(i);
                proof {
                    assert forall|j: int| 0 <= j < self.tags@.len() implies self.tags@[j] != tag by {
                        if j < i {
                            assert(old_tags[j] != old_tags[i as int]);
                        } else {
                            assert(old_tags[j + 1] != old_tags[i as int]);
                        }
                    }
                    assert forall|a: int, b: int| 0 <= a < b < self.tags@.len() implies self.tags@[a] != self.tags@[b] by {
                        let a2 = if a < i { a } else { a + 1 };
                        let b2 = if b < i { b } else { b + 1 };
                        assert(self.tags@[a] == old_tags[a2] && self.tags@[b] == old_tags[b2]);
                    }
                    assert forall|j: int| 0 <= j < old_tags.len() && old_tags[j] == tag implies j == i by {}
                    assert forall|t: u64| t != tag implies (self.has(t) <==> old(self).has(t)) by {
                        if self.has(t) {
                            let k = choose|k: int| 0 <= k < self.tags@.len() && self.tags@[k] == t;
                            let k2 = if k < i { k } else { k + 1 };
                            assert(old_tags[k2] == t);
                        }
                        if old(self).has(t) {
                            let k = choose|k: int| 0 <= k < old_tags.len() && old_tags[k] == t;
                            if k < i {
                                assert(self.tags@[k] == t);
                            } else {
                                assert(k != i);
                                assert(self.tags@[k - 1] == t);
                            }
                        }
                    }
                    assert forall|j: int| 0 <= j < self.lists@.len() && (#[trigger] self.lists@[j]) is Some implies self.lists@[j]->Some_0.wf() by {
                        let j2 = if j < i { j } else { j + 1 };
                        assert(self.lists@[j] == old(self).lists@[j2]);
                    }
                    assert forall|t: u64| t != tag && old(self).has(t) implies self.has(t) && #[trigger] self.list_of(t)
                        == old(self).list_of(t) by {
                        let k = choose|k: int| 0 <= k < old_tags.len() && old_tags[k] == t;
                        old(self).lemma_index_of(k);
                        assert(k != i);
                        let k2 = if k < i { k } else { k - 1 };
                        assert(self.tags@[k2] == t);
                        self.lemma_index_of(k2);
                        assert(self.lists@[k2] == old(self).lists@[k]);
                    }
                }
                match l {
                    Some(l) => l,
                    None => RunList::new(),
                }
            },
        }
    }

    /// Whether the table tagged `tag` must not be entered.
    pub fn excluded(&self, tag: u64) -> (r: bool)
        ensures
            r == self.exclude@.contains(tag),
    {
        let mut i: usize = 0;
        while i < self.exclude.len()
            invariant
                i <= self.exclude@.len(),
                forall|j: int| 0 <= j < i ==> self.exclude@[j] != tag,
            decreases self.exclude@.len() - i,
        {
            if self.exclude[i] == tag {
                proof {
                    assert(self.exclude@[i as int] == tag);
                }
                return true;
            }
            i = i + 1;
        }
        false
    }

    /// Sets the entry of `tag` to `list`, and records that the table was reached.
    fn deliver_entry(&mut self, tag: u64, list: Option<RunList<AnyTable>>)
        requires
            old(self).wf(),
            list is Some ==> list->Some_0.wf(),
        ensures
            final(self).tags@.len() >= old(self).tags@.len(),
            forall|i: int| 0 <= i < old(self).tags@.len() && old(self).tags@[i] != tag ==> final(self).tags@[i]
                == old(self).tags@[i] && final(self).lists@[i] == old(self).lists@[i],
            final(self).wf(),
            final(self).has(tag),
            forall|i: int| 0 <= i < final(self).tags@.len() && final(self).tags@[i] == tag ==> final(self).lists@[i] == list,
            forall|t: u64| t != tag ==> (final(self).has(t) <==> old(self).has(t)),
            final(self).order@ == old(self).order@.push(tag),
            final(self).exclude == old(self).exclude,
            final(self).keeps_others(*old(self), tag),
    {
        let ghost before = *self;
        match self.find(tag) {
            Some(i) => {
                self.lists.set(i, list);
                proof {
                    assert forall|j: int| 0 <= j < self.tags@.len() && self.tags@[j] == tag implies j == i by {}
                }
            },
            None => {
                self.tags.push(tag);
                self.lists.push(list);
                proof {
                    assert(self.tags@[self.tags@.len() - 1] == tag);
                    assert forall|t: u64| t != tag implies (self.has(t) <==> old(self).has(t)) by {
                        if self.has(t) {
                            let k = choose|k: int| 0 <= k < self.tags@.len() && self.tags@[k] == t;
                            assert(old(self).tags@[k] == t);
                        }
                        if old(self).has(t) {
                            let k = choose|k: int| 0 <= k < old(self).tags@.len() && old(self).tags@[k] == t;
                            assert(self.tags@[k] == t);
                        }
                    }
                }
            },
        }
        self.order.push(tag);
        proof {
            assert forall|t: u64| t != tag && before.has(t) implies self.has(t) && #[trigger] self.list_of(t)
                == before.list_of(t) by {
                let k = choose|k: int| 0 <= k < before.tags@.len() && before.tags@[k] == t;
                before.lemma_index_of(k);
                self.lemma_index_of(k);
            }
        }
    }

    /// Hands the rows `ids` of the table tagged `tag` to the selection.
    pub fn deliver_ids<M>(&mut self, tag: u64, ids: RunList<M>)
        requires
            old(self).wf(),
            ids.wf(),
        ensures
            forall|i: int| 0 <= i < old(self).tags@.len() && old(self).tags@[i] != tag ==> final(self).tags@[i]
                == old(self).tags@[i] && final(self).lists@[i] == old(self).lists@[i],
            final(self).wf(),
            final(self).has(tag),
            forall|i: int| 0 <= i < final(self).tags@.len() && final(self).tags@[i] == tag
                ==> final(self).lists@[i] is Some && final(self).lists@[i]->Some_0@ == ids@,
            forall|t: u64| t != tag ==> (final(self).has(t) <==> old(self).has(t)),
            final(self).order@ == old(self).order@.push(tag),
            final(self).exclude == old(self).exclude,
            final(self).keeps_others(*old(self), tag),
    {
        let l = ids.retag();
        self.deliver_entry(tag, Some(l));
    }

    /// Records that the table tagged `tag` was reached without rows.
    pub fn add_stub(&mut self, tag: u64)
        requires
            old(self).wf(),
        ensures
            final(self).wf(),
            final(self).has(tag),
            forall|i: int| 0 <= i < final(self).tags@.len() && final(self).tags@[i] == tag
                ==> final(self).lists@[i] is None,
            final(self).order@ == old(self).order@.push(tag),
            final(self).exclude == old(self).exclude,
            final(self).keeps_others(*old(self), tag),
    {
        self.deliver_entry(tag, None);
    }

    /// Forgets the table tagged `tag`: its entry and its places in the order.
    pub fn deselect(&mut self, tag: u64)
        requires
            old(self).wf(),
        ensures
            final(self).wf(),
            !final(self).has(tag),
            !final(self).order@.contains(tag),
            forall|t: u64| t != tag ==> (final(self).order@.contains(t) <==> old(self).order@.contains(t)),
            forall|t: u64| t != tag ==> (final(self).has(t) <==> old(self).has(t)),
            final(self).exclude == old(self).exclude,
            final(self).keeps_others(*old(self), tag),
    {
        let _ = self.ordered(tag);
        let ghost mid = *self;
        let ghost ord = self.order@;
        let mut kept: Vec<u64> = Vec::new();
        let mut i: usize = 0;
        while i < self.order.len()
            invariant
                self.order@ == ord,
                self.tags == mid.tags,
                self.lists == mid.lists,
                self.exclude == mid.exclude,
                i <= ord.len(),
                forall|u: u64| kept@.contains(u) <==> (u != tag && ord.take(i as int).contains(u)),
            decreases ord.len() - i,
        {
            let t = self.order[i];
            let ghost before = kept@;
            if t != tag {
                kept.push(t);
            }
            proof {
                let pre = ord.take(i as int);
                assert(ord.take(i as int + 1) =~= pre.push(t));
                crate::runlist::lemma_push_contains(false, pre, t);
                crate::runlist::lemma_push_contains(false, before, t);
                assert forall|u: u64| kept@.contains(u) <==> (u != tag && ord.take(i as int + 1).contains(u)) by {
                    assert(pre.push(t).contains(u) <==> (pre.contains(u) || u == t));
                    assert(before.contains(u) <==> (u != tag && pre.contains(u)));
                    if t != tag {
                        assert(kept@ == before.push(t));
                        assert(before.push(t).contains(u) <==> (before.contains(u) || u == t));
                    } else {
                        assert(kept@ == before);
                    }
                }
            }
            i = i + 1;
        }
        proof {
            assert(ord.take(ord.len() as int) =~= ord);
        }
        self.order = kept;
        proof {
            assert forall|t: u64| t != tag && old(self).has(t) implies self.has(t) && #[trigger] self.list_of(t)
                == old(self).list_of(t) by {
                assert(mid.list_of(t) == old(self).list_of(t));
                assert(self.list_of(t) == mid.list_of(t));
            }
        }
    }
    /// Hands the rows `ids` of the table tagged `tag` to the selection unless that table
    /// is excluded; answers whether they were delivered, after which the walk goes on from
    /// that table.
    pub fn deliver<M>(&mut self, tag: u64, ids: RunList<M>) -> (r: bool)
        requires
            old(self).wf(),
            ids.wf(),
        ensures
            r ==> forall|t: u64| t != tag ==> (final(self).has(t) <==> old(self).has(t)),
            r ==> final(self).keeps_others(*old(self), tag),
            final(self).exclude == old(self).exclude,
            r ==> forall|i: int| 0 <= i < old(self).tags@.len() && old(self).tags@[i] != tag ==> final(self).tags@[i]
                == old(self).tags@[i] && final(self).lists@[i] == old(self).lists@[i],
            final(self).wf(),
            r == !old(self).exclude@.contains(tag),
            !r ==> *final(self) == *old(self),
            r ==> final(self).has(tag) && final(self).order@ == old(self).order@.push(tag),
            r ==> forall|i: int| 0 <= i < final(self).tags@.len() && final(self).tags@[i] == tag
                ==> final(self).lists@[i] is Some && final(self).lists@[i]->Some_0@ == ids@,
    {
        if self.excluded(tag) {
            return false;
        }
        self.deliver_ids(tag, ids);
        true
    }
}

} // verus!
