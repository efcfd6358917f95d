//! Per-slot reader/writer state with deadlock detection and poisoning.
use vstd::prelude::*;

verus! {

/// How a resource is claimed: shared or exclusive.
#[derive(Debug, Clone, Copy, PartialEq, Eq, Structural)]
pub enum Access {
    Read,
    Write,
}

/// The state of one locked slot.
///
/// `Read(n)` means `n + 1` shared holders; `Write(t)` means one writer on thread `t`.
#[derive(Debug, Clone, Copy, PartialEq, Eq, Structural)]
pub enum LockState {
    Open,
    Write(u64),
    Read(u64),
    Poison,
}

/// Why a slot refused an operation.
#[derive(Debug, Clone, Copy, PartialEq, Eq, Structural)]
pub enum LockError {
    /// The thread that holds the write lock asked for the slot again.
    ThreadDeadlock,
    /// Read asked of a slot held for writing.
    MultiLockWR,
    /// Write asked of a slot held for writing.
    MultiLockWW,
    /// Write asked of a slot held for reading.
    MultiLockRW,
    /// The slot was poisoned by a panic of a writer.
    Poisoned,
    /// The reader count is at its largest value.
    ReaderOverflow,
    /// Release of a slot that nobody holds.
    ReleaseOpen,
    /// Release with another access than the one held.
    MismatchedRelease,
}

/// Whether `a` can be granted on a slot in state `s`.
pub open spec fn grantable(s: LockState, a: Access) -> bool {
    match s {
        LockState::Open => true,
        LockState::Read(_) => a == Access::Read,
        _ => false,
    }
}

/// What `can` answers for thread `tid`: a writer asking again is a deadlock, and a
/// poisoned slot fails at once.
pub open spec fn can_result(s: LockState, a: Access, tid: u64) -> Result<bool, LockError> {
    if s == LockState::Write(tid) {
        Err(LockError::ThreadDeadlock)
    } else if s == LockState::Poison {
        Err(LockError::Poisoned)
    } else {
        Ok(grantable(s, a))
    }
}

/// The state after `acquire(a)` by thread `tid`, or the refusal.
pub open spec fn acquire_result(s: LockState, a: Access, tid: u64) -> Result<LockState, LockError> {
    match s {
        LockState::Open => match a {
            Access::Read => Ok(LockState::Read(0)),
            Access::Write => Ok(LockState::Write(tid)),
        },
        LockState::Read(n) => match a {
            Access::Read => if n == u64::MAX {
                Err(LockError::ReaderOverflow)
            } else {
                Ok(LockState::Read((n + 1) as u64))
            },
            Access::Write => Err(LockError::MultiLockRW),
        },
        LockState::Write(_) => match a {
            Access::Read => Err(LockError::MultiLockWR),
            Access::Write => Err(LockError::MultiLockWW),
        },
        LockState::Poison => Err(LockError::Poisoned),
    }
}

/// The state after `release(a)`, or the refusal. A poisoned slot absorbs any release.
pub open spec fn release_result(s: LockState, a: Access) -> Result<LockState, LockError> {
    match s {
        LockState::Poison => Ok(LockState::Poison),
        LockState::Open => Err(LockError::ReleaseOpen),
        LockState::Write(_) => if a == Access::Write {
            Ok(LockState::Open)
        } else {
            Err(LockError::MismatchedRelease)
        },
        LockState::Read(n) => if a == Access::Read {
            if n == 0 {
                Ok(LockState::Open)
            } else {
                Ok(LockState::Read((n - 1) as u64))
            }
        } else {
            Err(LockError::MismatchedRelease)
        },
    }
}

/// The state after a release made while the holder unwinds: a writer leaves poison.
pub open spec fn unwind_result(s: LockState, a: Access) -> Result<LockState, LockError> {
    match s {
        LockState::Write(_) => if a == Access::Write {
            Ok(LockState::Poison)
        } else {
            Err(LockError::MismatchedRelease)
        },
        _ => release_result(s, a),
    }
}

/// The release outcome, as the holder returns normally or unwinds.
pub open spec fn give_back(s: LockState, a: Access, unwinding: bool) -> Result<LockState, LockError> {
    if unwinding {
        unwind_result(s, a)
    } else {
        release_result(s, a)
    }
}

/// Why a request for `a` by thread `tid` must fail rather than be granted or wait: a
/// deadlock, poison, or a grant that would overflow the reader count.
pub open spec fn refusal(s: LockState, a: Access, tid: u64) -> Option<LockError> {
    match can_result(s, a, tid) {
        Err(e) => Some(e),
        Ok(g) => if g && acquire_result(s, a, tid) is Err {
            Some(acquire_result(s, a, tid)->Err_0)
        } else {
            None
        },
    }
}

/// The reason a request for `access` must fail, if it must.
pub fn access_refusal(s: LockState, access: Access, tid: u64) -> (r: Option<LockError>)
    ensures
        r == refusal(s, access, tid),
{
    match s {
        LockState::Write(owner) => if owner == tid {
            Some(LockError::ThreadDeadlock)
        } else {
            None
        },
        LockState::Poison => Some(LockError::Poisoned),
        LockState::Read(n) => match access {
            Access::Read => if n == u64::MAX {
                Some(LockError::ReaderOverflow)
            } else {
                None
            },
            Access::Write => None,
        },
        LockState::Open => None,
    }
}

/// The reason `acquire(access)` must fail, if it must.
pub fn acquire_refusal(s: LockState, access: Access, tid: u64) -> (r: Option<LockError>)
    ensures
        r is None <==> acquire_result(s, access, tid) is Ok,
        r is Some ==> acquire_result(s, access, tid) == Err::<LockState, LockError>(r->Some_0),
{
    match s {
        LockState::Open => None,
        LockState::Read(n) => match access {
            Access::Read => if n == u64::MAX {
                Some(LockError::ReaderOverflow)
            } else {
                None
            },
            Access::Write => Some(LockError::MultiLockRW),
        },
        LockState::Write(_) => match access {
            Access::Read => Some(LockError::MultiLockWR),
            Access::Write => Some(LockError::MultiLockWW),
        },
        LockState::Poison => Some(LockError::Poisoned),
    }
}

/// The reason a release of `access` must fail, if it must.
pub fn release_refusal(s: LockState, access: Access, unwinding: bool) -> (r: Option<LockError>)
    ensures
        r is None <==> give_back(s, access, unwinding) is Ok,
        r is Some ==> give_back(s, access, unwinding) == Err::<LockState, LockError>(r->Some_0),
{
    match s {
        LockState::Poison => None,
        LockState::Open => Some(LockError::ReleaseOpen),
        LockState::Write(_) => match access {
            Access::Write => None,
            Access::Read => Some(LockError::MismatchedRelease),
        },
        LockState::Read(_) => match access {
            Access::Read => None,
            Access::Write => Some(LockError::MismatchedRelease),
        },
    }
}

/// Whether `access` can be granted now.
pub(crate) fn grants(s: LockState, access: Access) -> (r: bool)
    ensures
        r == grantable(s, access),
{
    match s {
        LockState::Open => true,
        LockState::Read(_) => match access {
            Access::Read => true,
            Access::Write => false,
        },
        _ => false,
    }
}

/// The state after an acquire that is granted.
pub(crate) fn acquired(s: LockState, access: Access, tid: u64) -> (r: LockState)
    requires
        acquire_result(s, access, tid) is Ok,
    ensures
        r == acquire_result(s, access, tid)->Ok_0,
{
    match s {
        LockState::Read(n) => LockState::Read(n + 1),
        _ => match access {
            Access::Read => LockState::Read(0),
            Access::Write => LockState::Write(tid),
        },
    }
}

/// The state after a release that is accepted.
pub(crate) fn released(s: LockState, access: Access, unwinding: bool) -> (r: LockState)
    requires
        give_back(s, access, unwinding) is Ok,
    ensures
        r == give_back(s, access, unwinding)->Ok_0,
{
    match s {
        LockState::Write(_) => if unwinding {
            LockState::Poison
        } else {
            LockState::Open
        },
        LockState::Read(n) => if n == 0 {
            LockState::Open
        } else {
            LockState::Read(n - 1)
        },
        _ => LockState::Poison,
    }
}

/// One value together with its lock state.
#[derive(Debug)]
pub struct Locked<T> {
    pub obj: T,
    pub state: LockState,
    pub name: &'static str,
}

impl<T> Locked<T> {
    pub fn new(obj: T, name: &'static str) -> (r: Locked<T>)
        ensures
            r.obj == obj,
            r.state == LockState::Open,
            r.name == name,
    {
        Locked { obj, state: LockState::Open, name }
    }

    pub fn is_poisoned(&self) -> (r: bool)
        ensures
            r == (self.state == LockState::Poison),
    {
        match self.state {
            LockState::Poison => true,
            _ => false,
        }
    }

    /// May `access` be granted now to thread `tid`? Not to be asked by the thread that
    /// holds the write lock (a deadlock), nor of a poisoned slot.
    pub fn can(&self, access: Access, tid: u64) -> (r: bool)
        requires
            can_result(self.state, access, tid) is Ok,
        ensures
            r == grantable(self.state, access),
            r == can_result(self.state, access, tid)->Ok_0,
    {
        grants(self.state, access)
    }

    /// Takes `access` for thread `tid`; only where the state allows it.
    pub fn acquire(&mut self, access: Access, tid: u64)
        requires
            acquire_result(old(self).state, access, tid) is Ok,
        ensures
            final(self).obj == old(self).obj,
            final(self).name == old(self).name,
            final(self).state == acquire_result(old(self).state, access, tid)->Ok_0,
    {
        self.state = acquired(self.state, access, tid);
    }

    /// Gives `access` back; only the access that is held.
    pub fn release(&mut self, access: Access)
        requires
            release_result(old(self).state, access) is Ok,
        ensures
            final(self).obj == old(self).obj,
            final(self).name == old(self).name,
            final(self).state == release_result(old(self).state, access)->Ok_0,
    {
        self.state = released(self.state, access, false);
    }

    /// Gives `access` back while its holder panics: a write hold leaves the slot poisoned.
    pub fn release_unwinding(&mut self, access: Access)
        requires
            unwind_result(old(self).state, access) is Ok,
        ensures
            final(self).obj == old(self).obj,
            final(self).name == old(self).name,
            final(self).state == unwind_result(old(self).state, access)->Ok_0,
    {
        self.state = released(self.state, access, true);
    }

    /// The held value, for a caller that holds the slot.
    pub fn contents(&self) -> (r: &T)
        ensures
            *r == self.obj,
    {
        &self.obj
    }

    /// The held value for writing, for a caller that holds the slot for writing.
    pub fn contents_mut(&mut self) -> (r: &mut T)
        ensures
            *r == old(self).obj,
            final(self).obj == *final(r),
            final(self).state == old(self).state,
            final(self).name == old(self).name,
    {
        &mut self.obj
    }

    /// Takes the value out of a slot that nobody holds.
    pub fn into_inner(self) -> (r: T)
        requires
            self.state == LockState::Open,
        ensures
            r == self.obj,
    {
        self.obj
    }
}

/// A granted acquire followed by the matching release restores the state.
pub proof fn lemma_acquire_release_round_trip(s: LockState, a: Access, tid: u64)
    requires
        acquire_result(s, a, tid) is Ok,
    ensures
        release_result(acquire_result(s, a, tid)->Ok_0, a) == Ok::<LockState, LockError>(s),
{
}

/// `can` and `acquire` agree: where nothing refuses, `can` grants exactly what `acquire`
/// accepts.
pub proof fn lemma_can_agrees_with_acquire(s: LockState, a: Access, tid: u64)
    requires
        refusal(s, a, tid) is None,
    ensures
        can_result(s, a, tid) is Ok,
        can_result(s, a, tid)->Ok_0 <==> acquire_result(s, a, tid) is Ok,
{
}

/// A poisoned slot stays poisoned whatever is released, and every request on it fails at
/// once rather than waiting.
pub proof fn lemma_poison_is_sticky(a: Access, tid: u64)
    ensures
        release_result(LockState::Poison, a) == Ok::<LockState, LockError>(LockState::Poison),
        unwind_result(LockState::Poison, a) == Ok::<LockState, LockError>(LockState::Poison),
        acquire_result(LockState::Poison, a, tid) == Err::<LockState, LockError>(LockError::Poisoned),
        can_result(LockState::Poison, a, tid) == Err::<bool, LockError>(LockError::Poisoned),
        refusal(LockState::Poison, a, tid) == Some(LockError::Poisoned),
{
}

/// A writer that unwinds leaves its slot poisoned.
pub proof fn lemma_unwinding_writer_poisons(tid: u64)
    ensures
        unwind_result(LockState::Write(tid), Access::Write) == Ok::<LockState, LockError>(LockState::Poison),
{
}

} // verus!
