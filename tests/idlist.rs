use v9::id::Id;
use v9::idlist::{EventCommitment, FlushResult, IdList};

#[derive(Debug, Clone, Copy, Default, PartialEq, Eq, PartialOrd, Ord, Hash)]
struct M;

fn r<R>(r: Result<R, R>) -> R {
    match r {
        Ok(r) => r,
        Err(r) => r,
    }
}

#[test]
fn id_list() {
    for x in 1..5 {
        for y in 1..x {
            let mut l = IdList::<M>::new();
            l.flush(false, false);
            let mut pushed = vec![];
            for _ in 0..x {
                let id = r(l.recycle_id_no_event());
                pushed.push(id);
                l.len();
            }
            l.len();
            l.flush(false, false);
            for _ in 0..y {
                if let Some(id) = pushed.pop() {
                    l.delete(id);
                    l.len();
                }
            }
            l.flush(false, false);
            assert_eq!(l.len(), (x - y) as usize);
        }
    }
}

#[test]
fn dude1() {
    let mut l = IdList::<M>::new();
    l.flush(false, false);
    let a = r(l.recycle_id_no_event());
    l.len();
    l.flush(false, false);
    l.len();
    l.delete(a);
    l.len();
    l.flush(false, false);
    l.len();
    let a2 = r(l.recycle_id_no_event());
    l.len();
    l.flush(false, false);
    l.len();
    assert_eq!(a, a2);
    l.delete(a2);
    l.len();
    l.flush(false, false);
    l.len();
}

#[test]
fn recycle_prefers_the_free_list() {
    let mut l = IdList::<M>::new();
    assert_eq!(l.recycle_id_no_event(), Err(Id::new(0)));
    assert_eq!(l.recycle_id_no_event(), Err(Id::new(1)));
    assert_eq!(l.recycle_id_no_event(), Err(Id::new(2)));
    l.flush(true, true);
    l.delete(Id::new(1));
    l.flush(true, true);
    assert_eq!(l.len(), 2);
    assert!(!l.id_exists(Id::new(1)));
    assert_eq!(l.recycle_id_no_event(), Ok(Id::new(1)));
    assert!(l.id_exists(Id::new(1)));
    assert_eq!(l.outer_capacity(), 3);
}

#[test]
fn recycle_ids_draws_then_extends() {
    let mut l = IdList::<M>::new();
    let first = l.recycle_ids_no_event(6);
    assert_eq!(first.extend, 6);
    assert_eq!((first.extension.start.raw, first.extension.end.raw), (0, 6));
    assert_eq!(first.count(), 6);
    l.flush(false, false);
    l.delete_extend(&vec![Id::new(0), Id::new(1), Id::new(2), Id::new(3), Id::new(4), Id::new(5)]);
    l.flush(false, false);
    assert_eq!(l.len(), 0);
    assert_eq!(l.free.get_data(), &vec![(0u64, 5u64)]);
    let again = l.recycle_ids_no_event(8);
    assert_eq!(again.replace.len(), 6);
    assert_eq!(again.extend, 2);
    assert_eq!((again.extension.start.raw, again.extension.end.raw), (6, 8));
    assert_eq!(l.outer_capacity(), 8);
    assert_eq!(l.len(), 8);
}

#[test]
fn flush_reports_tracked_changes() {
    let mut l = IdList::<M>::new();
    l.recycle_ids_no_event(3);
    match l.flush(true, true) {
        FlushResult::Pushed { ids, load } => {
            assert_eq!(ids.len(), 3);
            assert!(!load);
        }
        _ => panic!("expected pushed ids"),
    }
    l.delete(Id::new(1));
    match l.flush(false, true) {
        FlushResult::Deleted { ids, .. } => {
            assert_eq!(ids.iter(), vec![Id::new(1)]);
        }
        _ => panic!("expected deleted ids"),
    }
    l.delete(Id::new(0));
    assert!(matches!(l.flush(false, false), FlushResult::Nothing));
    assert!(matches!(l.flush(true, true), FlushResult::Nothing));
    assert_eq!(l.iter(), vec![Id::new(2)]);
}

#[test]
fn deleted_rows_leave_iteration() {
    let mut l = IdList::<M>::new();
    l.recycle_ids_no_event(4);
    l.flush(false, false);
    l.delete(Id::new(2));
    assert_eq!(l.iter(), vec![Id::new(0), Id::new(1), Id::new(2), Id::new(3)]);
    l.flush(false, false);
    assert_eq!(l.iter(), vec![Id::new(0), Id::new(1), Id::new(3)]);
    assert_eq!(l.outer_capacity() - l.free.len(), l.len());
}

#[test]
fn removing_yields_each_live_row_once() {
    let mut l = IdList::<M>::new();
    l.recycle_ids_no_event(5);
    l.flush(false, false);
    assert!(l.event_commitment.may_half_commit());
    let all = l.removing();
    assert_eq!(all, vec![Id::new(0), Id::new(1), Id::new(2), Id::new(3), Id::new(4)]);
    l.delete(Id::new(3));
    assert!(!l.event_commitment.may_half_commit());
    l.flush(false, false);
    assert_eq!(l.removing(), vec![Id::new(0), Id::new(1), Id::new(2), Id::new(4)]);
}

#[test]
fn validate_checks_the_invariant() {
    let mut l = IdList::<M>::new();
    l.recycle_ids_no_event(4);
    assert!(l.validate());
    l.flush(false, false);
    l.delete(Id::new(2));
    assert!(l.validate());
    l.flush(false, false);
    assert!(l.validate());
    l.outer_capacity = 2;
    assert!(!l.validate());
}

#[test]
fn commitment_latch() {
    let mut c = EventCommitment::Uncommitted;
    assert!(c.may_half_commit());
    c.half_commit(false);
    assert!(!c.accepts(EventCommitment::Uncommitted));
    assert!(c.accepts(EventCommitment::Push { event: false }));
    c.put(EventCommitment::Push { event: false });
    assert!(c.may_half_commit());
    assert!(c.accepts(EventCommitment::Push { event: false }));
    c.put(EventCommitment::Push { event: false });
    assert!(!c.accepts(EventCommitment::Delete { event: true }));
    assert_eq!(c, EventCommitment::Push { event: false });
    let mut d = EventCommitment::Delete { event: true };
    assert!(!d.may_half_commit());
    assert!(d.accepts(EventCommitment::Delete { event: true }));
    d.put(EventCommitment::Delete { event: true });
}

#[test]
fn log1() {
    let mut ids = IdList::<M>::new();
    let r = ids.recycle_ids_contiguous_no_event(6);
    assert_eq!(r.extend, 6);
    assert_eq!((r.extension.start.raw, r.extension.end.raw), (0, 6));
    ids.flush(false, false);
    ids.delete_extend_ranges(&vec![(Id::new(0), Id::new(5))]);
    ids.flush(false, false);
    assert_eq!(ids.free.get_data(), &vec![(0u64, 5u64)]);
    let r = ids.recycle_ids_no_event(3);
    assert_eq!(r.replace.len(), 3);
    assert_eq!(r.extend, 0);
    ids.flush(false, false);
    assert_eq!(ids.len(), 3);
}

#[test]
fn contiguous_recycle_takes_a_long_enough_run() {
    let mut ids = IdList::<M>::new();
    ids.recycle_ids_no_event(10);
    ids.flush(false, false);
    ids.delete_extend_ranges(&vec![(Id::new(1), Id::new(2)), (Id::new(5), Id::new(8))]);
    ids.flush(false, false);
    assert_eq!(ids.free.get_data(), &vec![(1u64, 2u64), (5, 8)]);
    let r = ids.recycle_ids_contiguous_no_event(3);
    assert_eq!(r.extend, 0);
    assert_eq!(r.replace.get_data(), &vec![(6u64, 8u64)]);
    assert_eq!(ids.free.get_data(), &vec![(1u64, 2u64), (5, 5)]);
    ids.flush(false, false);
    let r = ids.recycle_ids_contiguous_no_event(4);
    assert_eq!(r.extend, 4);
    assert_eq!((r.extension.start.raw, r.extension.end.raw), (10, 14));
    assert_eq!(ids.outer_capacity(), 14);
}

struct Lcg(u64);

impl Lcg {
    fn next(&mut self) -> u64 {
        self.0 = self.0.wrapping_mul(6364136223846793005).wrapping_add(1442695040888963407);
        self.0 >> 33
    }
    fn below(&mut self, n: u64) -> u64 {
        self.next() % n
    }
}

#[test]
fn fuzz() {
    let mut ids = IdList::<M>::new();
    let mut rng = Lcg(0x5eed);
    let mut runs: Vec<(Id<M>, Id<M>)> = vec![];
    for _ in 0..100 {
        let n = 1 + rng.below(4);
        if rng.below(2) == 0 {
            for _ in 0..n {
                let n = 1 + rng.below(9) as usize;
                let recycle = if rng.below(2) == 0 {
                    ids.recycle_ids_contiguous_no_event(n)
                } else {
                    ids.recycle_ids_no_event(n)
                };
                assert_eq!(recycle.count(), n);
                for run in recycle.replace.iter_runs() {
                    runs.push((run.start, Id::new(run.end.raw - 1)));
                }
                if !recycle.extension.is_empty() {
                    runs.push((recycle.extension.start, Id::new(recycle.extension.end.raw - 1)));
                }
            }
        } else {
            for _ in 0..n {
                if runs.is_empty() {
                    break;
                }
                let k = rng.below(runs.len() as u64) as usize;
                let run = runs.remove(k);
                ids.delete_extend_ranges(&vec![run]);
            }
        }
        ids.flush(false, false);
        assert!(ids.validate());
        let live: usize = runs.iter().map(|(a, b)| (b.raw - a.raw + 1) as usize).sum();
        assert_eq!(ids.len(), live);
        assert_eq!(ids.iter().len(), live);
    }
}
