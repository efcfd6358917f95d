use v9::column::{Column, EditColumn, FastEditColumn, WriteColumn};
use v9::event::{stages, EventKind, Lifestage};
use v9::extract::{KernelArg, MutButRef, Rez};
use v9::id::{Id, IdRange};
use v9::idlist::{FlushResult, IdList};
use v9::kernel::{first_conflict, ResourceList};
use v9::linkage::{cascade, cascade_delete, cascade_ranges, select, ColumnIndex, RangeIndex};
use v9::lock::{access_refusal, acquire_refusal, release_refusal, Access, LockError, LockState, Locked};
use v9::universe::{LockTable, StoreError};

#[derive(Debug, Clone, Copy, Default, PartialEq, Eq, PartialOrd, Ord, Hash)]
struct Engines;

#[derive(Debug, Clone, Copy, Default, PartialEq, Eq, PartialOrd, Ord, Hash)]
struct Projects;

#[test]
fn push_then_read() {
    let mut ids = IdList::<Engines>::new();
    let mut cyl = WriteColumn::new(Column::<Engines, u8>::new());
    let mut loc = WriteColumn::new(Column::<Engines, u64>::new());
    let mut push = |ids: &mut IdList<Engines>, c: u8, l: u64| {
        let id = match ids.recycle_id_no_event() {
            Ok(id) => id,
            Err(id) => id,
        };
        cyl.push(c);
        loc.push(l);
        id
    };
    let id0 = push(&mut ids, 9, 5000);
    let id1 = push(&mut ids, 11, u64::MAX);
    let (cyl, pushed) = cyl.into_parts();
    let (loc, _) = loc.into_parts();
    assert_eq!((pushed.start.raw, pushed.end.raw), (0, 2));
    ids.flush(true, true);
    assert_eq!(ids.iter().len(), 2);
    assert_eq!(*cyl.get(id0), 9);
    assert_eq!(*loc.get(id1), u64::MAX);
    assert_eq!(cyl.len(), loc.len());
}

#[test]
fn foreign_key_cascade() {
    let mut engines = IdList::<Engines>::new();
    let e0 = match engines.recycle_id_no_event() { Ok(i) | Err(i) => i };
    let e1 = match engines.recycle_id_no_event() { Ok(i) | Err(i) => i };
    engines.flush(true, true);

    let mut projects = IdList::<Projects>::new();
    let mut engine_col = WriteColumn::new(Column::<Projects, u64>::new());
    let p0 = match projects.recycle_id_no_event() { Ok(i) | Err(i) => i };
    engine_col.push(e0.raw);
    let p1 = match projects.recycle_id_no_event() { Ok(i) | Err(i) => i };
    engine_col.push(e1.raw);
    let (engine_col, _) = engine_col.into_parts();
    let pushed = match projects.flush(true, true) {
        FlushResult::Pushed { ids, .. } => ids,
        _ => panic!("expected a push"),
    };
    let mut index = ColumnIndex::<Projects>::new();
    for id in pushed.iter() {
        index.insert(*engine_col.get(id), id.raw);
    }
    assert_eq!(index.find(e1.raw), vec![p1]);

    engines.delete(e1);
    let deleted = match engines.flush(true, true) {
        FlushResult::Deleted { ids, .. } => ids,
        _ => panic!("expected a delete"),
    };
    let doomed = cascade_delete(&mut projects, &index, &deleted);
    assert_eq!(doomed, vec![p1]);
    projects.flush(true, true);
    let live = projects.iter();
    assert_eq!(live.len(), 1);
    assert_eq!(*engine_col.get(live[0]), e0.raw);
    assert_eq!(live[0], p0);
}

#[test]
fn disordered_edit_is_refused() {
    let mut col = Column::<Engines, u32>::new();
    col.set_data(vec![10, 20, 30, 40]);
    let mut edit = EditColumn::new(col, true);
    assert!(edit.may_access(Id::new(2)));
    edit.set(Id::new(2), 7);
    assert!(!edit.may_access(Id::new(1)));
    assert!(!edit.may_access(Id::new(9)));
    assert!(edit.may_access(Id::new(2)));
    assert_eq!(edit.col.data(), &vec![10, 20, 30, 40]);
}

#[test]
fn edit_log_is_ascending_and_applied_after() {
    let mut col = Column::<Engines, u32>::new();
    col.set_data(vec![10, 20, 30, 40]);
    let mut edit = EditColumn::new(col, true);
    edit.set(Id::new(0), 1);
    edit.set(Id::new(2), 3);
    edit.set(Id::new(2), 5);
    assert_eq!(edit.index(Id::new(2)), &5);
    assert_eq!(edit.index(Id::new(3)), &40);
    let (mut col, must_log, log) = edit.into_parts();
    assert!(must_log);
    assert_eq!(col.data(), &vec![10, 20, 30, 40]);
    let raw: Vec<(u64, u32)> = log.iter().map(|(i, v)| (i.raw, *v)).collect();
    assert_eq!(raw, vec![(0, 1), (2, 5)]);
    col.apply_edits(log);
    assert_eq!(col.data(), &vec![1, 20, 5, 40]);
}

#[test]
fn untracked_edit_writes_in_place() {
    let mut col = Column::<Engines, u32>::new();
    col.set_data(vec![10, 20]);
    let mut edit = EditColumn::new(col, false);
    edit.set(Id::new(1), 2);
    edit.set(Id::new(0), 1);
    let (col, _, log) = edit.into_parts();
    assert!(log.is_empty());
    assert_eq!(col.data(), &vec![1, 2]);
}

#[test]
fn same_thread_write_reentry_is_a_deadlock() {
    let mut slot = Locked::new(5u32, "x");
    assert_eq!(access_refusal(slot.state, Access::Write, 1), None);
    slot.acquire(Access::Write, 1);
    assert_eq!(access_refusal(slot.state, Access::Write, 1), Some(LockError::ThreadDeadlock));
    assert_eq!(access_refusal(slot.state, Access::Read, 1), Some(LockError::ThreadDeadlock));
    assert!(!slot.can(Access::Write, 2));
    assert_eq!(acquire_refusal(slot.state, Access::Write, 1), Some(LockError::MultiLockWW));
}

#[test]
fn panicking_writer_poisons() {
    let mut slot = Locked::new(5u32, "p");
    slot.acquire(Access::Write, 1);
    slot.release_unwinding(Access::Write);
    assert!(slot.is_poisoned());
    assert_eq!(acquire_refusal(slot.state, Access::Write, 2), Some(LockError::Poisoned));
    assert_eq!(access_refusal(slot.state, Access::Read, 2), Some(LockError::Poisoned));
    assert_eq!(release_refusal(slot.state, Access::Read, false), None);
    slot.release(Access::Read);
    assert_eq!(slot.state, LockState::Poison);
}

#[test]
fn lock_state_machine() {
    let mut slot = Locked::new((), "s");
    slot.acquire(Access::Read, 1);
    assert_eq!(slot.state, LockState::Read(0));
    slot.acquire(Access::Read, 2);
    assert_eq!(slot.state, LockState::Read(1));
    assert_eq!(acquire_refusal(slot.state, Access::Write, 3), Some(LockError::MultiLockRW));
    slot.release(Access::Read);
    assert_eq!(slot.state, LockState::Read(0));
    assert_eq!(release_refusal(slot.state, Access::Write, false), Some(LockError::MismatchedRelease));
    slot.release(Access::Read);
    assert_eq!(slot.state, LockState::Open);
    assert_eq!(release_refusal(slot.state, Access::Read, false), Some(LockError::ReleaseOpen));
    slot.acquire(Access::Write, 4);
    assert_eq!(slot.state, LockState::Write(4));
    assert_eq!(acquire_refusal(slot.state, Access::Read, 5), Some(LockError::MultiLockWR));
    assert_eq!(access_refusal(LockState::Read(u64::MAX), Access::Read, 5), Some(LockError::ReaderOverflow));
    slot.release(Access::Write);
    assert_eq!(slot.into_inner(), ());
}

#[test]
fn kernel_resources_must_not_conflict() {
    assert_eq!(first_conflict(&vec![(1, Access::Read), (2, Access::Write), (1, Access::Read)]), None);
    assert_eq!(first_conflict(&vec![(1, Access::Read), (2, Access::Write), (2, Access::Read)]), Some(2));
    assert_eq!(first_conflict(&vec![(3, Access::Write), (3, Access::Write)]), Some(3));
    let k = ResourceList::new(vec![(1, Access::Read), (1, Access::Read)]);
    assert_eq!(k.len(), 2);
}

#[test]
fn lock_plan_is_all_or_nothing() {
    let mut t = LockTable::new();
    t.add(1);
    t.add(2);
    assert!(t.has(2));
    let k = ResourceList::new(vec![(1, Access::Read), (2, Access::Write), (1, Access::Read)]);
    assert_eq!(t.refusal(2, Access::Read, 7), None);
    assert!(t.try_access(2, Access::Read, 7));
    assert_eq!(t.plan_refusal(&k, 9), None);
    assert!(!t.try_acquire_all(&k, 9));
    assert_eq!(t.state(1), Some(LockState::Open));
    t.release(2, Access::Read, false);
    assert!(t.try_acquire_all(&k, 9));
    assert_eq!(t.state(1), Some(LockState::Read(0)));
    assert_eq!(t.state(2), Some(LockState::Write(9)));
    assert_eq!(t.refusal(2, Access::Read, 9), Some(StoreError::Lock(2, LockError::ThreadDeadlock)));
    assert_eq!(t.release_plan_refusal(&k, false), None);
    t.release_all(&k, false);
    assert_eq!(t.state(1), Some(LockState::Open));
    assert_eq!(t.state(2), Some(LockState::Open));
    let missing = ResourceList::new(vec![(5, Access::Read)]);
    assert_eq!(t.plan_refusal(&missing, 9), Some(StoreError::Absent(5)));
    assert!(t.try_acquire_all(&k, 9));
    t.release_all(&k, true);
    assert_eq!(t.state(2), Some(LockState::Poison));
    assert_eq!(t.plan_refusal(&k, 9), Some(StoreError::Lock(2, LockError::Poisoned)));
    assert_eq!(t.release_plan_refusal(&k, false), Some(StoreError::Lock(1, LockError::ReleaseOpen)));
    assert!(t.remove(1));
    assert!(!t.has(1));
    assert!(!t.remove(7));
    t.freeze();
    assert!(t.frozen);
}

#[test]
fn lifestage_order() {
    assert_eq!(stages(EventKind::Push, false), vec![Lifestage::Memory, Lifestage::Logical]);
    assert_eq!(stages(EventKind::Delete, false), vec![Lifestage::Logical, Lifestage::Memory]);
    assert_eq!(stages(EventKind::Delete, true), vec![Lifestage::Load, Lifestage::Memory]);
}

#[test]
fn resource_feed_checks_access() {
    let mut rez = Rez::new(vec![(4, Access::Read), (6, Access::Write)]);
    assert_eq!(rez.next_access(), Some(Access::Read));
    assert_eq!(rez.take_ref(), 4);
    assert_eq!(rez.next_access(), Some(Access::Write));
    assert_eq!(rez.take_mut(), 6);
    assert_eq!(rez.next_access(), None);
    let arg = KernelArg::new(3u8);
    assert_eq!(*arg.get(), 3);
    let mut x = 12u8;
    let view = MutButRef::new(&mut x);
    assert_eq!(*view.get(), 12);
}

#[test]
fn index_follows_edits_and_ranges() {
    let mut index = ColumnIndex::<Engines>::new();
    index.insert(5, 0);
    index.insert(3, 1);
    index.insert(5, 2);
    index.insert(5, 2);
    assert_eq!(index.entries, vec![(3, 1), (5, 0), (5, 2)]);
    assert_eq!(index.find(5), vec![Id::new(0), Id::new(2)]);
    assert_eq!(index.range(3, 4), vec![Id::new(1)]);
    index.remove(5, 0);
    assert_eq!(index.find(5), vec![Id::new(2)]);
    assert_eq!(ColumnIndex::<Engines>::full_range(5), ((5, 0), (5, u64::MAX)));
    let mut gone = v9::runlist::RunList::<Projects>::new();
    gone.push(Id::new(3));
    assert_eq!(cascade(&index, &gone), vec![Id::<Engines>::new(1)]);
}

#[test]
fn index_maintenance_follows_events() {
    let mut col = Column::<Engines, u64>::new();
    col.set_data(vec![7, 8, 7]);
    let mut pushed = v9::runlist::RunList::<Engines>::new();
    pushed.push_run(Id::new(0), Id::new(2));
    let mut index = ColumnIndex::<Engines>::new();
    index.on_push(&col, &pushed);
    assert_eq!(index.entries, vec![(7, 0), (7, 2), (8, 1)]);
    let log = vec![(Id::<Engines>::new(1), 7u64), (Id::new(2), 9)];
    index.on_edit(&col, &log);
    assert_eq!(index.entries, vec![(7, 0), (7, 1), (9, 2)]);
    col.apply_edits(log);
    assert_eq!(col.data(), &vec![7, 7, 9]);
    let mut gone = v9::runlist::RunList::<Engines>::new();
    gone.push(Id::new(0));
    index.on_delete(&col, &gone);
    assert_eq!(index.entries, vec![(7, 1), (9, 2)]);
}

#[test]
fn range_foreign_keys_cascade() {
    let mut index = RangeIndex::<Projects, Engines>::new();
    index.insert(IdRange::new(Id::new(0), Id::new(3)), Id::new(10));
    index.insert(IdRange::new(Id::new(3), Id::new(5)), Id::new(11));
    index.insert(IdRange::new(Id::new(2), Id::new(4)), Id::new(12));
    assert_eq!(index.referrers(2), vec![Id::new(10), Id::new(12)]);
    let mut deleted = v9::runlist::RunList::<Engines>::new();
    deleted.push(Id::new(4));
    let mut hit = cascade_ranges(&index, &deleted);
    hit.sort();
    assert_eq!(hit, vec![Id::new(11)]);
    let mut by_value = ColumnIndex::<Projects>::new();
    by_value.insert(1, 5);
    by_value.insert(2, 3);
    by_value.insert(1, 4);
    let mut chosen = v9::runlist::RunList::<Engines>::new();
    chosen.push(Id::new(1));
    chosen.push(Id::new(2));
    let sel = select(&by_value, &chosen);
    assert_eq!(sel.get_data(), &vec![(3u64, 5u64)]);
}

#[test]
fn selection_bookkeeping() {
    let mut start = v9::runlist::RunList::<Engines>::new();
    start.push(Id::new(4));
    let mut sel = v9::selection::Selection::from(1, start);
    assert_eq!(sel.get(1).map(|l| l.len()), Some(1));
    assert!(sel.get(2).is_none());
    let mut found = v9::runlist::RunList::<Projects>::new();
    found.push(Id::new(9));
    assert!(sel.deliver(2, found));
    assert_eq!(sel.order, vec![2]);
    sel.exclude.push(3);
    assert!(!sel.deliver(3, v9::runlist::RunList::<Projects>::new()));
    sel.add_stub(5);
    assert!(sel.get(5).is_none());
    assert_eq!(sel.order, vec![2, 5]);
    let taken = sel.ordered(2);
    assert_eq!(taken.len(), 1);
    assert!(sel.get(2).is_none());
    sel.deselect(5);
    assert_eq!(sel.order, vec![2]);
    assert!(!sel.excluded(2) && sel.excluded(3));
}

#[test]
fn fast_edit_writes_in_place() {
    let mut col = Column::<Engines, u32>::new();
    col.set_data(vec![1, 2, 3]);
    let mut fast = FastEditColumn::new(col);
    fast.set(Id::new(0), 9);
    assert_eq!(*fast.index(Id::new(0)), 9);
    assert_eq!(fast.into_column().data(), &vec![9, 2, 3]);
}


#[test]
fn validity_checks_are_exact() {
    let mut index = ColumnIndex::<Engines>::new();
    index.insert(2, 1);
    index.insert(1, 7);
    assert!(index.is_ordered());
    index.entries.push((0, 0));
    assert!(!index.is_ordered());
    let mut sel = v9::selection::Selection::new();
    sel.add_stub(4);
    assert!(sel.validate());
    sel.tags.push(4);
    sel.lists.push(None);
    assert!(!sel.validate());
    let mut by_value = ColumnIndex::<Projects>::new();
    by_value.insert(1, 9);
    by_value.insert(1, 2);
    by_value.insert(0, 5);
    assert_eq!(by_value.find(1), vec![Id::new(2), Id::new(9)]);
}
