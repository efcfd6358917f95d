use std::collections::HashMap;
use v9::id::{Id, IdRange};
use v9::runlist::RunList;

#[derive(Debug, Clone, Copy, Default, PartialEq, Eq, PartialOrd, Ord, Hash)]
struct M;

type I = Id<M>;

struct Checker {
    slow: Vec<I>,
    fast: RunList<M>,
    seen_slow: HashMap<I, usize>,
    seen_fast: HashMap<I, usize>,
}

impl Checker {
    fn new() -> Self {
        Checker {
            slow: vec![],
            fast: RunList::new(),
            seen_slow: HashMap::new(),
            seen_fast: HashMap::new(),
        }
    }
    fn push(&mut self, i: I) {
        self.seen_slow.clear();
        self.seen_fast.clear();
        self.slow.push(i);
        self.fast.push(i);
        for f in self.fast.iter() {
            *self.seen_fast.entry(f).or_insert(0) += 1;
        }
        for &s in self.slow.iter() {
            *self.seen_slow.entry(s).or_insert(0) += 1;
        }
        for (f, &nf) in &self.seen_fast {
            let ns = self.seen_slow[f];
            assert!(nf <= ns);
        }
    }
}

fn check(x: impl Iterator<Item = u64>) -> usize {
    let mut c = Checker::new();
    for x in x {
        c.push(Id::new(x));
    }
    c.fast.len()
}

fn checks(x: &[u64]) {
    check(x.iter().copied());
}

#[test]
fn id_test() {
    checks(&[]);
    checks(&[1]);
    checks(&[0, 1]);
    checks(&[0, 1, 2, 3, 4, 5]);
    check((0..4).chain(10..20));
    check((0..20).skip(1));
    check((0..20).skip(2));
    check((1..20).skip(2));
    check((1..20).skip(1));
    checks(&[0, 1, 3, 4, 6]);
}

#[test]
fn on_iter_is_some() {
    let r = IdRange::<M>::on(Id::<M>::from_usize(3));
    assert_eq!(1, r.iter().len());
}

#[test]
fn short_range() {
    let mut l = RunList::<M>::new();
    l.push_run(Id::new(0), Id::new(0));
    let ids = l.iter();
    let mut it = ids.into_iter();
    assert_eq!(it.next(), Some(Id::new(0)));
    assert_eq!(it.next(), None);
}

#[test]
fn runlist_ordered() {
    let mut l = RunList::<M>::new();
    l.push(Id::new(8));
    l.push(Id::new(14));
    l.push(Id::new(17));
}

#[test]
fn dude2() {
    let mut l = RunList::<M>::new();
    l.push(Id::new(0));
    l.pop();
    l.push(Id::new(0));
    l.pop();
}

#[test]
fn canonicalization_of_a_run() {
    let mut l = RunList::<M>::new();
    for i in 0..6u64 {
        l.push(Id::new(i));
    }
    l.sort();
    assert_eq!(l.get_data(), &vec![(0u64, 5u64)]);
    assert_eq!(l.len(), 6);
}

#[test]
fn push_counts_new_ids_once() {
    let mut l = RunList::<M>::new();
    l.push(Id::new(4));
    assert_eq!(l.iter().len(), 1);
    l.push(Id::new(9));
    assert_eq!(l.iter().len(), 2);
    l.push(Id::new(4));
    assert_eq!(l.iter().len(), 2);
    assert_eq!(l.len(), l.iter().len());
    l.push(Id::new(5));
    assert_eq!(l.iter().len(), 3);
    assert_eq!(l.len(), 3);
}

#[test]
fn pair_encodings() {
    let mut l = RunList::<M>::new();
    l.push(Id::new(7));
    l.push(Id::new(3));
    assert_eq!(l.get_data(), &vec![(7u64, 3u64)]);
    l.push(Id::new(4));
    assert_eq!(l.get_data(), &vec![(7u64, 3u64), (4u64, 4u64)]);
    l.push(Id::new(5));
    assert_eq!(l.get_data(), &vec![(7u64, 3u64), (4u64, 5u64)]);
    let ids: Vec<u64> = l.iter().into_iter().map(|i| i.raw).collect();
    assert_eq!(ids, vec![7, 3, 4, 5]);
    assert!(l.contains(Id::new(3)));
    assert!(!l.contains(Id::new(6)));
}

#[test]
fn pop_takes_the_last_id() {
    let mut l = RunList::<M>::new();
    l.push_run(Id::new(2), Id::new(4));
    assert_eq!(l.pop(), Some(Id::new(4)));
    assert_eq!(l.get_data(), &vec![(2u64, 3u64)]);
    assert_eq!(l.len(), 2);
}

#[test]
fn sort_is_idempotent_and_ignores_order() {
    let mut a = RunList::<M>::new();
    for i in [9u64, 1, 2, 3, 20, 10, 11, 0] {
        a.push(Id::new(i));
    }
    let mut b = RunList::<M>::new();
    for i in [20u64, 11, 10, 9, 3, 2, 1, 0] {
        b.push(Id::new(i));
    }
    a.sort();
    b.sort();
    assert_eq!(a.get_data(), &vec![(0u64, 3u64), (9, 11), (20, 20)]);
    assert_eq!(a.get_data(), b.get_data());
    let once = a.get_data().clone();
    a.sort();
    assert_eq!(a.get_data(), &once);
    assert_eq!(a.len(), 8);
}

#[test]
fn iter_runs_cover_the_ids() {
    let mut l = RunList::<M>::new();
    l.push_run(Id::new(5), Id::new(7));
    l.push(Id::new(1));
    l.push(Id::new(12));
    let runs: Vec<(u64, u64)> = l.iter_runs().into_iter().map(|r| (r.start.raw, r.end.raw)).collect();
    assert_eq!(runs, vec![(5, 8), (12, 13), (1, 2)]);
}

#[test]
fn extend_adds_each_id() {
    let mut l = RunList::<M>::new();
    l.extend(&vec![Id::new(3), Id::new(4), Id::new(3)]);
    assert_eq!(l.len(), 2);
    assert_eq!(l.get_data(), &vec![(3u64, 4u64)]);
}

#[test]
fn id_range_operations() {
    let r = IdRange::<M>::new(Id::new(2), Id::new(5));
    assert_eq!(r.len(), 3);
    assert!(r.contains(Id::new(4)));
    assert!(!r.contains(Id::new(5)));
    assert_eq!(r.offset(1), Some(Id::new(3)));
    assert_eq!(r.offset(3), None);
    assert_eq!(r.inner_index(Id::new(4)), Some(2));
    let mut s = r;
    assert_eq!(s.step(), Some(Id::new(2)));
    assert_eq!(s.start.raw, 3);
    assert!(IdRange::<M>::empty().is_empty());
    assert_eq!(IdRange::<M>::to(Id::new(4)).iter().len(), 4);
    assert_eq!(Id::<M>::new(7).step(-2).raw, 5);
    assert_eq!(Id::<M>::last().raw, u64::MAX);
}

#[test]
fn raw_data_is_checked() {
    assert!(RunList::<M>::from_raw_data(4, vec![(0, 2), (9, 9)]).is_ok());
    assert_eq!(
        RunList::<M>::from_raw_data(3, vec![(0, 2), (9, 9)]).err(),
        Some(v9::runlist::RawDataError::LengthMismatch { actual: 4, given: 3 })
    );
    assert_eq!(
        RunList::<M>::from_raw_data(4, vec![(0, 2), (2, 2)]).err(),
        Some(v9::runlist::RawDataError::Invalid)
    );
    assert_eq!(
        RunList::<M>::from_raw_data(2, vec![(7, 3), (3, 3)]).err(),
        Some(v9::runlist::RawDataError::Invalid)
    );
    let l = RunList::<M>::from_raw_data(2, vec![(7, 3)]).unwrap();
    assert!(l.validate_data().is_ok());
    let r = RunList::<M>::from_range(IdRange::new(Id::new(4), Id::new(7)));
    assert_eq!(r.get_data(), &vec![(4u64, 6u64)]);
    assert_eq!(r.len(), 3);
}
