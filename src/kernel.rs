//! The resources a kernel declares, and the check that they do not conflict.
use vstd::prelude::*;
use crate::lock::Access;

verus! {

/// Entries `i` and `j` name the same slot and one of them writes it.
pub open spec fn clash(r: Seq<(u64, Access)>, i: int, j: int) -> bool {
    r[i].0 == r[j].0 && (r[i].1 == Access::Write || r[j].1 == Access::Write)
}

/// No slot is written by one entry and named by another.
pub open spec fn conflict_free(r: Seq<(u64, Access)>) -> bool {
    forall|i: int, j: int| 0 <= i < j < r.len() ==> !clash(r, i, j)
}

/// The tag of a slot that a kernel writes and also names elsewhere, if there is one: such
/// a kernel cannot be built.
pub fn first_conflict(resources: &Vec<(u64, Access)>) -> (r: Option<u64>)
    ensures
        r is None <==> conflict_free(resources@),
        r is Some ==> exists|i: int, j: int| 0 <= i < j < resources@.len() && clash(resources@, i, j)
            && r->Some_0 == resources@[i].0,
{
    let n = resources.len();
    let mut j: usize = 0;
    while j < n
        invariant
            n == resources@.len(),
            j <= n,
            forall|a: int, b: int| 0 <= a < b < j ==> !clash(resources@, a, b),
        decreases n - j,
    {
        let (t, acc) = resources[j];
        let mut i: usize = 0;
        while i < j
            invariant
                n == resources@.len(),
                j < n,
                i <= j,
                (t, acc) == resources@[j as int],
                forall|a: int, b: int| 0 <= a < b < j ==> !clash(resources@, a, b),
                forall|a: int| 0 <= a < i ==> !clash(resources@, a, j as int),
            decreases j - i,
        {
            let (u, bcc) = resources[i];
            if u == t && (acc == Access::Write || bcc == Access::Write) {
                proof {
                    assert(clash(resources@, i as int, j as int));
                }
                return Some(u);
            }
            i = i + 1;
        }
        j = j + 1;
    }
    None
}

/// The declared resources of a kernel, in declaration order, checked to be free of
/// self-conflict.
#[derive(Debug)]
pub struct ResourceList {
    pub resources: Vec<(u64, Access)>,
}

impl ResourceList {
    pub open spec fn wf(&self) -> bool {
        conflict_free(self.resources@)
    }

    /// The resources of a kernel, which must be free of self-conflict.
    pub fn new(resources: Vec<(u64, Access)>) -> (r: ResourceList)
        requires
            conflict_free(resources@),
        ensures
            r.resources@ == resources@,
            r.wf(),
    {
        ResourceList { resources }
    }

    pub fn len(&self) -> (r: usize)
        ensures
            r == self.resources@.len(),
    {
        self.resources.len()
    }
}

} // verus!
