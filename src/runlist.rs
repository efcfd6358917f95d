//! A run-compressed list of distinct ids.
//!
//! Each stored pair `(a, b)` encodes ids: `a < b` is the closed run `a..=b`, `a == b` the
//! single id `a`, and `a > b` the two ids `a` and `b`.
use core::marker::PhantomData;
use vstd::prelude::*;
use crate::id::{Id, IdRange, LAST_RAW};

verus! {

/// The ids that one stored pair encodes, in stored order.
pub open spec fn pair_ids(p: (u64, u64)) -> Seq<u64> {
    if p.0 < p.1 {
        run_seq(p.0, p.1)
    } else if p.0 == p.1 {
        seq![p.0]
    } else {
        seq![p.0, p.1]
    }
}

/// The ids `lo..=hi` in ascending order.
pub open spec fn run_seq(lo: u64, hi: u64) -> Seq<u64> {
    Seq::new((hi - lo + 1) as nat, |k: int| (lo + k) as u64)
}

/// Whether the stored pair `p` encodes `x`.
pub open spec fn covers(p: (u64, u64), x: u64) -> bool {
    if p.0 <= p.1 {
        p.0 <= x <= p.1
    } else {
        x == p.0 || x == p.1
    }
}

/// Whether some pair of `d` encodes `x`.
pub open spec fn covered(d: Seq<(u64, u64)>, x: u64) -> bool {
    exists|i: int| 0 <= i < d.len() && covers(d[i], x)
}

/// All ids that the pairs `d` encode, pair after pair.
pub open spec fn flat(d: Seq<(u64, u64)>) -> Seq<u64>
    decreases d.len(),
{
    if d.len() == 0 {
        Seq::empty()
    } else {
        flat(d.drop_last()) + pair_ids(d.last())
    }
}

/// Ascending runs, each `lo <= hi`, with a gap of at least one id between neighbours.
pub open spec fn canonical(d: Seq<(u64, u64)>) -> bool {
    &&& forall|i: int| 0 <= i < d.len() ==> d[i].0 <= d[i].1
    &&& forall|i: int, j: int| 0 <= i < j < d.len() ==> d[i].1 + 1 < d[j].0
}

pub proof fn lemma_flat_push(d: Seq<(u64, u64)>, p: (u64, u64))
    ensures
        flat(d.push(p)) == flat(d) + pair_ids(p),
{
    assert(d.push(p).drop_last() =~= d);
}

pub proof fn lemma_flat_update_last(d: Seq<(u64, u64)>, p: (u64, u64))
    requires
        d.len() > 0,
    ensures
        flat(d.update(d.len() - 1, p)) == flat(d.drop_last()) + pair_ids(p),
{
    assert(d.update(d.len() - 1, p).drop_last() =~= d.drop_last());
}

pub proof fn lemma_pair_ids_covers(p: (u64, u64), x: u64)
    ensures
        pair_ids(p).contains(x) <==> covers(p, x),
{
    if p.0 < p.1 {
        if covers(p, x) {
            assert(pair_ids(p)[x - p.0] == x);
        }
    } else if p.0 == p.1 {
        assert(pair_ids(p)[0] == p.0);
    } else {
        assert(pair_ids(p)[0] == p.0);
        assert(pair_ids(p)[1] == p.1);
    }
}

pub proof fn lemma_flat_contains(d: Seq<(u64, u64)>, x: u64)
    ensures
        flat(d).contains(x) <==> covered(d, x),
    decreases d.len(),
{
    if d.len() > 0 {
        let dl = d.drop_last();
        lemma_flat_contains(dl, x);
        lemma_pair_ids_covers(d.last(), x);
        assert(flat(d) == flat(dl) + pair_ids(d.last()));
        if flat(d).contains(x) {
            let k = choose|k: int| 0 <= k < flat(d).len() && flat(d)[k] == x;
            if k < flat(dl).len() {
                assert(flat(dl)[k] == x);
                let i = choose|i: int| 0 <= i < dl.len() && covers(dl[i], x);
                assert(d[i] == dl[i]);
            } else {
                assert(pair_ids(d.last())[k - flat(dl).len()] == x);
                assert(covers(d[d.len() - 1], x));
            }
        }
        if covered(d, x) {
            let i = choose|i: int| 0 <= i < d.len() && covers(d[i], x);
            if i < d.len() - 1 {
                assert(dl[i] == d[i]);
                assert(covered(dl, x));
                let k = choose|k: int| 0 <= k < flat(dl).len() && flat(dl)[k] == x;
                assert(flat(d)[k] == x);
            } else {
                let k = choose|k: int| 0 <= k < pair_ids(d.last()).len() && pair_ids(d.last())[k] == x;
                assert(flat(d)[flat(dl).len() + k] == x);
            }
        }
    }
}

/// Appending `t` to `s`: no duplicates when neither has any and no id is shared.
pub proof fn lemma_concat_no_dup(s: Seq<u64>, t: Seq<u64>)
    requires
        s.no_duplicates(),
        t.no_duplicates(),
        forall|x: u64| s.contains(x) ==> !t.contains(x),
    ensures
        (s + t).no_duplicates(),
{
    let st = s + t;
    assert forall|i: int, j: int| 0 <= i < st.len() && 0 <= j < st.len() && i != j implies st[i]
        != st[j] by {
        if i < s.len() && j >= s.len() {
            assert(s.contains(st[i]));
            assert(t[j - s.len()] == st[j]);
        } else if j < s.len() && i >= s.len() {
            assert(s.contains(st[j]));
            assert(t[i - s.len()] == st[i]);
        } else if i >= s.len() && j >= s.len() {
            assert(t[i - s.len()] == st[i]);
            assert(t[j - s.len()] == st[j]);
        }
    }
}

/// The parts of a sequence without duplicates have none, and share no id.
pub proof fn lemma_concat_no_dup_parts(s: Seq<u64>, t: Seq<u64>)
    requires
        (s + t).no_duplicates(),
    ensures
        s.no_duplicates(),
        t.no_duplicates(),
        forall|x: u64| s.contains(x) ==> !t.contains(x),
{
    let st = s + t;
    assert forall|i: int, j: int| 0 <= i < s.len() && 0 <= j < s.len() && i != j implies s[i]
        != s[j] by {
        assert(st[i] == s[i] && st[j] == s[j]);
    }
    assert forall|i: int, j: int| 0 <= i < t.len() && 0 <= j < t.len() && i != j implies t[i]
        != t[j] by {
        assert(st[s.len() + i] == t[i] && st[s.len() + j] == t[j]);
    }
    assert forall|x: u64| s.contains(x) implies !t.contains(x) by {
        let i = choose|i: int| 0 <= i < s.len() && s[i] == x;
        if t.contains(x) {
            let j = choose|j: int| 0 <= j < t.len() && t[j] == x;
            assert(st[i] == x && st[s.len() + j] == x);
        }
    }
}

/// Pushing a new id: the ids are the old ones and `x`, still without duplicates.
pub proof fn lemma_push_contains(no_dup: bool, s: Seq<u64>, x: u64)
    requires
        no_dup ==> s.no_duplicates() && !s.contains(x),
    ensures
        forall|y: u64| s.push(x).contains(y) <==> (s.contains(y) || y == x),
        no_dup ==> s.push(x).no_duplicates(),
{
    assert forall|y: u64| s.push(x).contains(y) <==> (s.contains(y) || y == x) by {
        if s.push(x).contains(y) {
            let k = choose|k: int| 0 <= k < s.len() + 1 && s.push(x)[k] == y;
            if k < s.len() {
                assert(s[k] == y);
            }
        }
        if s.contains(y) {
            let k = choose|k: int| 0 <= k < s.len() && s[k] == y;
            assert(s.push(x)[k] == y);
        }
        assert(s.push(x)[s.len() as int] == x);
    }
    if no_dup {
        assert(s.push(x) =~= s + seq![x]);
        lemma_concat_no_dup(s, seq![x]);
    }
}

/// Replacing the tail `u` of a list of distinct ids by `t`, which holds the ids of `u` and
/// the new id `x`.
pub proof fn lemma_replace_tail(s: Seq<u64>, u: Seq<u64>, t: Seq<u64>, x: u64)
    requires
        (s + u).no_duplicates(),
        !(s + u).contains(x),
        t.no_duplicates(),
        t.len() == u.len() + 1,
        forall|y: u64| t.contains(y) <==> (u.contains(y) || y == x),
    ensures
        (s + t).no_duplicates(),
        (s + t).len() == (s + u).len() + 1,
        forall|y: u64| (s + t).contains(y) <==> ((s + u).contains(y) || y == x),
{
    lemma_concat_no_dup_parts(s, u);
    assert forall|y: u64| s.contains(y) implies !t.contains(y) by {
        if y == x {
            let k = choose|k: int| 0 <= k < s.len() && s[k] == y;
            assert((s + u)[k] == y);
        }
    }
    lemma_concat_no_dup(s, t);
    assert forall|y: u64| (s + t).contains(y) <==> ((s + u).contains(y) || y == x) by {
        if (s + t).contains(y) {
            let k = choose|k: int| 0 <= k < (s + t).len() && (s + t)[k] == y;
            if k < s.len() {
                assert((s + u)[k] == y);
            } else {
                assert(t[k - s.len()] == y);
                assert(t.contains(y));
                if y != x {
                    assert(u.contains(y));
                    let j = choose|j: int| 0 <= j < u.len() && u[j] == y;
                    assert((s + u)[s.len() + j] == y);
                }
            }
        }
        if (s + u).contains(y) {
            let k = choose|k: int| 0 <= k < (s + u).len() && (s + u)[k] == y;
            if k < s.len() {
                assert((s + t)[k] == y);
            } else {
                assert(u[k - s.len()] == y);
                assert(u.contains(y));
                assert(t.contains(y));
                let j = choose|j: int| 0 <= j < t.len() && t[j] == y;
                assert((s + t)[s.len() + j] == y);
            }
        }
        if y == x {
            assert(t.contains(y));
            let j = choose|j: int| 0 <= j < t.len() && t[j] == y;
            assert((s + t)[s.len() + j] == y);
        }
    }
}

/// Whether `x` lies in `lo..=hi`, as a sequence.
pub proof fn lemma_run_seq_contains(lo: u64, hi: u64, x: u64)
    requires
        lo <= hi,
    ensures
        run_seq(lo, hi).contains(x) <==> lo <= x <= hi,
        run_seq(lo, hi).no_duplicates(),
        pair_ids((lo, hi)) == run_seq(lo, hi),
{
    if lo <= x <= hi {
        assert(run_seq(lo, hi)[x - lo] == x);
    }
    if lo == hi {
        assert(pair_ids((lo, hi)) =~= run_seq(lo, hi));
    }
}

pub proof fn lemma_covered_push(d: Seq<(u64, u64)>, p: (u64, u64), x: u64)
    ensures
        covered(d.push(p), x) <==> (covered(d, x) || covers(p, x)),
{
    if covered(d.push(p), x) {
        let i = choose|i: int| 0 <= i < d.len() + 1 && covers(d.push(p)[i], x);
        if i < d.len() {
            assert(covers(d[i], x));
        }
    }
    if covered(d, x) {
        let i = choose|i: int| 0 <= i < d.len() && covers(d[i], x);
        assert(covers(d.push(p)[i], x));
    }
    assert(d.push(p)[d.len() as int] == p);
}

pub proof fn lemma_covered_insert(d: Seq<(u64, u64)>, pos: int, p: (u64, u64), x: u64)
    requires
        0 <= pos <= d.len(),
    ensures
        covered(d.insert(pos, p), x) <==> (covered(d, x) || covers(p, x)),
{
    let e = d.insert(pos, p);
    if covered(e, x) {
        let i = choose|i: int| 0 <= i < e.len() && covers(e[i], x);
        if i < pos {
            assert(covers(d[i], x));
        } else if i > pos {
            assert(covers(d[i - 1], x));
        }
    }
    if covered(d, x) {
        let i = choose|i: int| 0 <= i < d.len() && covers(d[i], x);
        if i < pos {
            assert(covers(e[i], x));
        } else {
            assert(covers(e[i + 1], x));
        }
    }
    assert(e[pos] == p);
}

/// Widening the last run `(a, b)` to `(a, c)` with `c >= b` adds the ids of `(lo, hi)`
/// when `a <= lo <= b + 1` and `c` is the larger of `b` and `hi`.
pub proof fn lemma_covered_widen_last(d: Seq<(u64, u64)>, lo: u64, hi: u64, x: u64)
    requires
        d.len() > 0,
        d.last().0 <= d.last().1,
        lo <= hi,
        d.last().0 <= lo <= d.last().1 + 1,
    ensures
        covered(d.update(d.len() - 1, (d.last().0, if d.last().1 >= hi { d.last().1 } else { hi })), x)
            <==> (covered(d, x) || (lo <= x <= hi)),
{
    let n = d.len() - 1;
    let e = d.update(n, (d.last().0, if d.last().1 >= hi { d.last().1 } else { hi }));
    if covered(e, x) {
        let i = choose|i: int| 0 <= i < e.len() && covers(e[i], x);
        if i < n {
            assert(covers(d[i], x));
        } else if !(lo <= x <= hi) {
            assert(covers(d[n], x));
        }
    }
    if covered(d, x) {
        let i = choose|i: int| 0 <= i < d.len() && covers(d[i], x);
        assert(covers(e[i], x));
    }
    if lo <= x <= hi {
        assert(covers(e[n], x));
    }
}

/// Canonical pairs encode distinct ids.
pub proof fn lemma_canonical_no_dup(d: Seq<(u64, u64)>)
    requires
        canonical(d),
    ensures
        flat(d).no_duplicates(),
    decreases d.len(),
{
    if d.len() > 0 {
        let dl = d.drop_last();
        let p = d.last();
        assert(canonical(dl));
        lemma_canonical_no_dup(dl);
        lemma_run_seq_contains(p.0, p.1, 0);
        assert forall|y: u64| flat(dl).contains(y) implies !pair_ids(p).contains(y) by {
            lemma_flat_contains(dl, y);
            let i = choose|i: int| 0 <= i < dl.len() && covers(dl[i], y);
            assert(d[i] == dl[i]);
            lemma_run_seq_contains(p.0, p.1, y);
        }
        lemma_concat_no_dup(flat(dl), pair_ids(p));
    }
}

/// Two canonical lists of pairs that encode the same ids are the same list.
pub proof fn lemma_canonical_unique(d1: Seq<(u64, u64)>, d2: Seq<(u64, u64)>)
    requires
        canonical(d1),
        canonical(d2),
        forall|x: u64| covered(d1, x) <==> covered(d2, x),
    ensures
        d1 == d2,
    decreases d1.len() + d2.len(),
{
    if d1.len() == 0 && d2.len() == 0 {
        assert(d1 =~= d2);
    } else if d1.len() == 0 {
        assert(covers(d2[0], d2[0].0));
        assert(covered(d2, d2[0].0));
    } else if d2.len() == 0 {
        assert(covers(d1[0], d1[0].0));
        assert(covered(d1, d1[0].0));
    } else {
        let n1 = d1.len() - 1;
        let n2 = d2.len() - 1;
        let p1 = d1[n1];
        let p2 = d2[n2];
        // Every id below a last run lies at least two below its start.
        assert forall|x: u64| covered(d1, x) && x + 1 >= p1.0 implies p1.0 <= x <= p1.1 by {
            let i = choose|i: int| 0 <= i < d1.len() && covers(d1[i], x);
            if i < n1 {
                assert(d1[i].1 + 1 < d1[n1].0);
            }
        }
        assert forall|x: u64| covered(d2, x) && x + 1 >= p2.0 implies p2.0 <= x <= p2.1 by {
            let i = choose|i: int| 0 <= i < d2.len() && covers(d2[i], x);
            if i < n2 {
                assert(d2[i].1 + 1 < d2[n2].0);
            }
        }
        assert(covers(d1[n1], p1.1) && covers(d1[n1], p1.0));
        assert(covers(d2[n2], p2.1) && covers(d2[n2], p2.0));
        assert(covered(d1, p1.1) && covered(d2, p2.1) && covered(d1, p1.0) && covered(d2, p2.0));
        // The last ends agree: each is the largest id.
        if p1.1 < p2.1 {
            assert(covered(d1, p2.1));
            let i = choose|i: int| 0 <= i < d1.len() && covers(d1[i], p2.1);
            if i < n1 {
                assert(d1[i].1 + 1 < d1[n1].0);
            }
            assert(false);
        }
        if p2.1 < p1.1 {
            assert(covered(d2, p1.1));
            let i = choose|i: int| 0 <= i < d2.len() && covers(d2[i], p1.1);
            if i < n2 {
                assert(d2[i].1 + 1 < d2[n2].0);
            }
            assert(false);
        }
        // The last starts agree: the id below each start is missing.
        if p1.0 < p2.0 {
            let y = (p2.0 - 1) as u64;
            assert(covers(d1[n1], y));
            assert(covered(d1, y));
            assert(false);
        }
        if p2.0 < p1.0 {
            let y = (p1.0 - 1) as u64;
            assert(covers(d2[n2], y));
            assert(covered(d2, y));
            assert(false);
        }
        let e1 = d1.drop_last();
        let e2 = d2.drop_last();
        assert(canonical(e1));
        assert(canonical(e2));
        assert forall|x: u64| covered(e1, x) <==> covered(e2, x) by {
            if covered(e1, x) {
                let i = choose|i: int| 0 <= i < e1.len() && covers(e1[i], x);
                assert(d1[i] == e1[i]);
                assert(d1[i].1 + 1 < d1[n1].0);
                assert(covered(d1, x));
                let j = choose|j: int| 0 <= j < d2.len() && covers(d2[j], x);
                if j == n2 {
                    assert(false);
                }
                assert(covers(e2[j], x));
            }
            if covered(e2, x) {
                let i = choose|i: int| 0 <= i < e2.len() && covers(e2[i], x);
                assert(d2[i] == e2[i]);
                assert(d2[i].1 + 1 < d2[n2].0);
                assert(covered(d2, x));
                let j = choose|j: int| 0 <= j < d1.len() && covers(d1[j], x);
                if j == n1 {
                    assert(false);
                }
                assert(covers(e1[j], x));
            }
        }
        lemma_canonical_unique(e1, e2);
        assert(d1 =~= e1.push(p1));
        assert(d2 =~= e2.push(p2));
    }
}

/// Sorted lists are determined by their ids: two sorted lists that hold the same ids
/// store the same pairs. So sorting twice stores what sorting once did, and lists that
/// hold the same ids in any arrangement sort to identical data.
pub proof fn lemma_sorted_data_is_unique<M>(a: RunList<M>, b: RunList<M>)
    requires
        a.wf(),
        b.wf(),
        a.is_sorted(),
        b.is_sorted(),
        forall|y: u64| a@.contains(y) <==> b@.contains(y),
    ensures
        a.data@ == b.data@,
{
    assert forall|y: u64| covered(a.data@, y) <==> covered(b.data@, y) by {
        lemma_flat_contains(a.data@, y);
        lemma_flat_contains(b.data@, y);
    }
    lemma_canonical_unique(a.data@, b.data@);
}

/// A list of distinct ids below `cap` holds at most `cap` of them.
pub proof fn lemma_bounded_len(s: Seq<u64>, cap: u64)
    requires
        s.no_duplicates(),
        forall|y: u64| s.contains(y) ==> y < cap,
    ensures
        s.len() <= cap,
{
    lemma_below_len(cap);
    s.unique_seq_to_set();
    assert(s.to_set().subset_of(below(cap)));
    vstd::set_lib::lemma_len_subset(s.to_set(), below(cap));
}

/// The ids below `cap`.
pub open spec fn below(cap: u64) -> Set<u64> {
    Set::new(|y: u64| y < cap)
}

pub proof fn lemma_below_len(cap: u64)
    ensures
        below(cap).finite(),
        below(cap).len() == cap,
    decreases cap,
{
    if cap == 0 {
        assert(below(cap) =~= Set::empty());
    } else {
        lemma_below_len((cap - 1) as u64);
        assert(below((cap - 1) as u64).insert((cap - 1) as u64) =~= below(cap));
    }
}

pub proof fn lemma_concat_contains(s: Seq<u64>, t: Seq<u64>, y: u64)
    ensures
        (s + t).contains(y) <==> (s.contains(y) || t.contains(y)),
{
    if (s + t).contains(y) {
        let k = choose|k: int| 0 <= k < (s + t).len() && (s + t)[k] == y;
        if k < s.len() {
            assert(s[k] == y);
        } else {
            assert(t[k - s.len()] == y);
        }
    }
    if s.contains(y) {
        let k = choose|k: int| 0 <= k < s.len() && s[k] == y;
        assert((s + t)[k] == y);
    }
    if t.contains(y) {
        let k = choose|k: int| 0 <= k < t.len() && t[k] == y;
        assert((s + t)[s.len() + k] == y);
    }
}

/// The ids of the first `j` pairs come first among the ids of all pairs.
pub proof fn lemma_flat_take_prefix(d: Seq<(u64, u64)>, j: int)
    requires
        0 <= j <= d.len(),
    ensures
        flat(d.take(j)).len() <= flat(d).len(),
        forall|k: int| 0 <= k < flat(d.take(j)).len() ==> flat(d.take(j))[k] == flat(d)[k],
    decreases d.len(),
{
    if j == d.len() {
        assert(d.take(j) =~= d);
    } else {
        let dl = d.drop_last();
        assert(d.take(j) =~= dl.take(j));
        lemma_flat_take_prefix(dl, j);
        assert(flat(d) == flat(dl) + pair_ids(d.last()));
    }
}

/// A repeated or invalid id among the first `j` pairs is one among all pairs.
pub proof fn lemma_bad_prefix(d: Seq<(u64, u64)>, j: int)
    requires
        0 <= j <= d.len(),
        !flat(d.take(j)).no_duplicates() || flat(d.take(j)).contains(LAST_RAW),
    ensures
        !flat(d).no_duplicates() || flat(d).contains(LAST_RAW),
{
    lemma_flat_take_prefix(d, j);
    let p = flat(d.take(j));
    if !p.no_duplicates() {
        let (x, y) = choose|x: int, y: int| 0 <= x < p.len() && 0 <= y < p.len() && x != y && p[x] == p[y];
        assert(flat(d)[x] == flat(d)[y]);
    } else {
        let k = choose|k: int| 0 <= k < p.len() && p[k] == LAST_RAW;
        assert(flat(d)[k] == LAST_RAW);
    }
}

/// Why stored pairs do not make a list.
#[derive(Debug, Clone, Copy, PartialEq, Eq, Structural)]
pub enum RawDataError {
    /// An id is repeated, or is the invalid id.
    Invalid,
    /// The pairs hold `actual` ids where `given` were announced.
    LengthMismatch { actual: usize, given: usize },
    /// The pairs hold more ids than a `usize` counts.
    Overflow,
}

/// A compact set of ids of the table marked by `M`.
#[derive(Debug)]
pub struct RunList<M> {
    pub data: Vec<(u64, u64)>,
    pub len: usize,
    pub table: PhantomData<M>,
}

impl<M> View for RunList<M> {
    type V = Seq<u64>;

    /// The ids in stored order.
    open spec fn view(&self) -> Seq<u64> {
        flat(self.data@)
    }
}

impl<M> RunList<M> {
    /// Well-formed: distinct ids, none of them the invalid id, counted by `len`.
    pub open spec fn wf(&self) -> bool {
        &&& self@.no_duplicates()
        &&& self.len == self@.len()
        &&& !self@.contains(LAST_RAW)
    }

    /// The pairs are in canonical form, as `sort` leaves them.
    pub open spec fn is_sorted(&self) -> bool {
        canonical(self.data@)
    }

    pub fn new() -> (r: RunList<M>)
        ensures
            r.wf(),
            r@ == Seq::<u64>::empty(),
            r.is_sorted(),
    {
        RunList { data: Vec::new(), len: 0, table: PhantomData }
    }

    /// The list holding `id` alone.
    pub fn on(id: Id<M>) -> (r: RunList<M>)
        requires
            id.raw != LAST_RAW,
        ensures
            r.wf(),
            r@ == seq![id.raw],
            r.is_sorted(),
    {
        let mut data: Vec<(u64, u64)> = Vec::new();
        data.push((id.raw, id.raw));
        proof {
            lemma_flat_push(Seq::empty(), (id.raw, id.raw));
            assert(flat(data@) =~= seq![id.raw]);
        }
        RunList { data, len: 1, table: PhantomData }
    }

    /// The stored pairs.
    pub fn get_data(&self) -> (r: &Vec<(u64, u64)>)
        ensures
            r@ == self.data@,
    {
        &self.data
    }

    pub fn len(&self) -> (r: usize)
        requires
            self.wf(),
        ensures
            r == self@.len(),
    {
        self.len
    }

    pub fn is_empty(&self) -> (r: bool)
        requires
            self.wf(),
        ensures
            r == (self@.len() == 0),
    {
        self.len == 0
    }

    pub fn contains(&self, id: Id<M>) -> (r: bool)
        ensures
            r == self@.contains(id.raw),
    {
        let x = id.raw;
        let mut i: usize = 0;
        while i < self.data.len()
            invariant
                x == id.raw,
                i <= self.data@.len(),
                forall|j: int| 0 <= j < i ==> !covers(self.data@[j], x),
            decreases self.data@.len() - i,
        {
            let (a, b) = self.data[i];
            if (a <= b && a <= x && x <= b) || (a > b && (x == a || x == b)) {
                proof {
                    assert(covers(self.data@[i as int], x));
                    assert(covered(self.data@, x));
                    lemma_flat_contains(self.data@, x);
                }
                return true;
            }
            i = i + 1;
        }
        proof {
            lemma_flat_contains(self.data@, x);
        }
        false
    }

    /// Adds `id`; an id already present leaves the list as it is.
    pub fn push(&mut self, id: Id<M>)
        requires
            old(self).wf(),
            id.raw != LAST_RAW,
            old(self).len < usize::MAX,
        ensures
            final(self).wf(),
            final(self)@.len() == old(self)@.len() + if old(self)@.contains(id.raw) {
                0int
            } else {
                1int
            },
            forall|y: u64| final(self)@.contains(y) <==> (old(self)@.contains(y) || y == id.raw),
    {
        let x = id.raw;
        if self.contains(id) {
            assert forall|y: u64| self@.contains(y) <==> (old(self)@.contains(y) || y == id.raw) by {}
            return;
        }
        let n = self.data.len();
        let ghost d = self.data@;
        if n == 0 {
            self.data.push((x, x));
            self.len = self.len + 1;
            proof {
                lemma_flat_push(d, (x, x));
                assert(flat(self.data@) =~= seq![x]);
                lemma_push_contains(d.len() == 0, flat(d), x);
            }
            return;
        }
        let (a, b) = self.data[n - 1];
        let ghost dl = d.drop_last();
        proof {
            assert(flat(d) == flat(dl) + pair_ids((a, b)));
            lemma_concat_no_dup_parts(flat(dl), pair_ids((a, b)));
            lemma_flat_contains(d, a);
            lemma_flat_contains(d, b);
            assert(covers(d[n - 1], a) && covers(d[n - 1], b));
        }
        let replaced: Option<(u64, u64)> = if a < b {
            if b + 1 == x {
                proof {
                    assert(pair_ids((a, x)) =~= pair_ids((a, b)).push(x));
                }
                Some((a, x))
            } else {
                None
            }
        } else if a == b {
            if a + 1 == x {
                proof {
                    assert(pair_ids((a, x)) =~= seq![a, x]);
                }
                Some((a, x))
            } else if x + 1 == a {
                proof {
                    assert(pair_ids((x, a)) =~= seq![x, a]);
                }
                Some((x, a))
            } else if x > a {
                Some((x, a))
            } else {
                Some((a, x))
            }
        } else {
            None
        };
        match replaced {
            Some(p) => {
                self.data.set(n - 1, p);
                proof {
                    lemma_flat_update_last(d, p);
                    assert forall|y: u64| pair_ids(p).contains(y) <==> (pair_ids((a, b)).contains(y)
                        || y == x) by {
                        lemma_pair_ids_covers(p, y);
                        lemma_pair_ids_covers((a, b), y);
                    }
                    assert(pair_ids(p).no_duplicates()) by {
                        if p.0 >= p.1 {
                            assert(pair_ids(p) =~= seq![p.0, p.1]);
                        }
                    }
                    lemma_replace_tail(flat(dl), pair_ids((a, b)), pair_ids(p), x);
                }
            },
            None => {
                self.data.push((x, x));
                proof {
                    lemma_flat_push(d, (x, x));
                    assert(pair_ids((x, x)) =~= seq![x]);
                    assert(flat(self.data@) =~= flat(d).push(x));
                    lemma_push_contains(true, flat(d), x);
                }
            },
        }
        self.len = self.len + 1;
    }

    /// Removes and returns the last id in stored order.
    pub fn pop(&mut self) -> (r: Option<Id<M>>)
        requires
            old(self).wf(),
        ensures
            final(self).wf(),
            old(self)@.len() == 0 ==> r is None && final(self)@ == old(self)@,
            old(self)@.len() > 0 ==> r is Some && r->Some_0.raw == old(self)@.last()
                && final(self)@ == old(self)@.drop_last(),
            old(self).is_sorted() ==> final(self).is_sorted(),
    {
        let n = self.data.len();
        let ghost d = self.data@;
        if n == 0 {
            return None;
        }
        let (a, b) = self.data[n - 1];
        proof {
            assert(flat(d) == flat(d.drop_last()) + pair_ids((a, b)));
        }
        let out: u64;
        if a < b {
            self.data.set(n - 1, (a, (b - 1) as u64));
            out = b;
            proof {
                lemma_flat_update_last(d, (a, (b - 1) as u64));
                assert(pair_ids((a, (b - 1) as u64)) =~= pair_ids((a, b)).drop_last());
            }
        } else if a == b {
            self.data.pop();
            out = a;
            proof {
                assert(self.data@ =~= d.drop_last());
            }
        } else {
            self.data.set(n - 1, (a, a));
            out = b;
            proof {
                lemma_flat_update_last(d, (a, a));
                assert(pair_ids((a, a)) =~= pair_ids((a, b)).drop_last());
            }
        }
        proof {
            assert(flat(self.data@) =~= flat(d).drop_last());
            assert forall|y: u64| flat(d).drop_last().contains(y) implies flat(d).contains(y) by {
                let k = choose|k: int| 0 <= k < flat(d).len() - 1 && flat(d).drop_last()[k] == y;
                assert(flat(d)[k] == y);
            }
        }
        self.len = self.len - 1;
        Some(Id::new(out))
    }

    pub fn clear(&mut self)
        ensures
            final(self).wf(),
            final(self)@ == Seq::<u64>::empty(),
            final(self).is_sorted(),
    {
        self.data.clear();
        self.len = 0;
        proof {
            assert(self.data@ =~= Seq::<(u64, u64)>::empty());
        }
    }

    /// Every id, in stored order.
    pub fn iter(&self) -> (r: Vec<Id<M>>)
        requires
            self.wf(),
        ensures
            r@.len() == self@.len(),
            forall|k: int| 0 <= k < r@.len() ==> r@[k].raw == self@[k],
    {
        let mut out: Vec<Id<M>> = Vec::new();
        let mut i: usize = 0;
        while i < self.data.len()
            invariant
                i <= self.data@.len(),
                self.wf(),
                out@.len() == flat(self.data@.take(i as int)).len(),
                forall|k: int| 0 <= k < out@.len() ==> out@[k].raw == flat(self.data@.take(i as int))[k],
            decreases self.data@.len() - i,
        {
            let ghost before = out@;
            let ghost pre = flat(self.data@.take(i as int));
            let (a, b) = self.data[i];
            proof {
                assert(self.data@.take(i as int + 1) =~= self.data@.take(i as int).push((a, b)));
                lemma_flat_push(self.data@.take(i as int), (a, b));
                lemma_flat_contains(self.data@, b);
                assert(covers(self.data@[i as int], b));
            }
            if a < b {
                let mut c = a;
                while c <= b
                    invariant
                        a <= c <= b + 1,
                        b < LAST_RAW,
                        out@.len() == before.len() + (c - a),
                        forall|k: int| 0 <= k < before.len() ==> out@[k] == before[k],
                        forall|k: int| before.len() <= k < out@.len() ==> out@[k].raw == a + (k - before.len()),
                    decreases b + 1 - c,
                {
                    out.push(Id::new(c));
                    c = c + 1;
                }
            } else if a == b {
                out.push(Id::new(a));
            } else {
                out.push(Id::new(a));
                out.push(Id::new(b));
            }
            i = i + 1;
        }
        proof {
            assert(self.data@.take(self.data@.len() as int) =~= self.data@);
        }
        out
    }

    /// Adds the ids `lo..=hi`, none of which is present yet.
    pub fn push_run(&mut self, lo: Id<M>, hi: Id<M>)
        requires
            old(self).wf(),
            lo.raw <= hi.raw,
            hi.raw < LAST_RAW,
            forall|y: u64| lo.raw <= y <= hi.raw ==> !old(self)@.contains(y),
            old(self).len + (hi.raw - lo.raw + 1) <= usize::MAX,
        ensures
            final(self).wf(),
            final(self)@ == old(self)@ + run_seq(lo.raw, hi.raw),
            old(self).data@.len() == 0 ==> final(self).data@ == seq![(lo.raw, hi.raw)],
    {
        let (l, h) = (lo.raw, hi.raw);
        let ghost d = self.data@;
        proof {
            lemma_run_seq_contains(l, h, 0);
            assert forall|y: u64| old(self)@.contains(y) implies !run_seq(l, h).contains(y) by {
                lemma_run_seq_contains(l, h, y);
            }
            lemma_concat_no_dup(old(self)@, run_seq(l, h));
            assert(!(old(self)@ + run_seq(l, h)).contains(LAST_RAW)) by {
                lemma_run_seq_contains(l, h, LAST_RAW);
                if (old(self)@ + run_seq(l, h)).contains(LAST_RAW) {
                    let k = choose|k: int|
                        0 <= k < (old(self)@ + run_seq(l, h)).len() && (old(self)@ + run_seq(l, h))[k]
                            == LAST_RAW;
                    if k < old(self)@.len() {
                        assert(old(self)@[k] == LAST_RAW);
                    } else {
                        assert(run_seq(l, h)[k - old(self)@.len()] == LAST_RAW);
                    }
                }
            }
        }
        let n = self.data.len();
        if n > 0 {
            let (a, b) = self.data[n - 1];
            proof {
                lemma_flat_contains(d, b);
                assert(covers(d[n - 1], b));
            }
            if a < b && b + 1 == l {
                self.data.set(n - 1, (a, h));
                proof {
                    lemma_flat_update_last(d, (a, h));
                    assert(flat(d) == flat(d.drop_last()) + pair_ids((a, b)));
                    assert(pair_ids((a, h)) =~= pair_ids((a, b)) + run_seq(l, h));
                    assert(flat(self.data@) =~= flat(d) + run_seq(l, h));
                }
                self.len = self.len + (h - l + 1) as usize;
                return;
            }
        }
        self.data.push((l, h));
        proof {
            lemma_flat_push(d, (l, h));
            if d.len() == 0 {
                assert(self.data@ =~= seq![(l, h)]);
            }
        }
        self.len = self.len + (h - l + 1) as usize;
    }

    /// The runs `lo..=hi` whose ids are exactly the list's, an unordered pair split in two.
    fn runs_inclusive(&self) -> (r: Vec<(u64, u64)>)
        requires
            self.wf(),
        ensures
            forall|k: int| 0 <= k < r@.len() ==> r@[k].0 <= r@[k].1 && r@[k].1 < LAST_RAW,
            forall|x: u64| covered(r@, x) <==> self@.contains(x),
    {
        let mut out: Vec<(u64, u64)> = Vec::new();
        let mut i: usize = 0;
        while i < self.data.len()
            invariant
                i <= self.data@.len(),
                self.wf(),
                forall|k: int| 0 <= k < out@.len() ==> out@[k].0 <= out@[k].1 && out@[k].1 < LAST_RAW,
                forall|x: u64| covered(out@, x) <==> covered(self.data@.take(i as int), x),
            decreases self.data@.len() - i,
        {
            let (a, b) = self.data[i];
            let ghost before = out@;
            proof {
                assert(self.data@.take(i as int + 1) =~= self.data@.take(i as int).push((a, b)));
                lemma_flat_contains(self.data@, a);
                lemma_flat_contains(self.data@, b);
                assert(covers(self.data@[i as int], a) && covers(self.data@[i as int], b));
            }
            if a <= b {
                out.push((a, b));
                proof {
                    assert forall|x: u64| covered(out@, x) <==> covered(
                        self.data@.take(i as int + 1),
                        x,
                    ) by {
                        lemma_covered_push(before, (a, b), x);
                        lemma_covered_push(self.data@.take(i as int), (a, b), x);
                    }
                }
            } else {
                out.push((a, a));
                out.push((b, b));
                proof {
                    assert forall|x: u64| covered(out@, x) <==> covered(
                        self.data@.take(i as int + 1),
                        x,
                    ) by {
                        lemma_covered_push(before, (a, a), x);
                        lemma_covered_push(before.push((a, a)), (b, b), x);
                        lemma_covered_push(self.data@.take(i as int), (a, b), x);
                    }
                }
            }
            i = i + 1;
        }
        proof {
            assert(self.data@.take(self.data@.len() as int) =~= self.data@);
            assert forall|x: u64| covered(out@, x) <==> self@.contains(x) by {
                lemma_flat_contains(self.data@, x);
            }
        }
        out
    }

    /// The ids as ranges `start..end`, one for each stored run.
    pub fn iter_runs(&self) -> (r: Vec<IdRange<M>>)
        requires
            self.wf(),
        ensures
            forall|k: int| 0 <= k < r@.len() ==> r@[k].start.raw < r@[k].end.raw,
            forall|x: u64| self@.contains(x) <==> exists|k: int|
                #![trigger r@[k]]
                0 <= k < r@.len() && r@[k].start.raw <= x < r@[k].end.raw,
    {
        let runs = self.runs_inclusive();
        let mut out: Vec<IdRange<M>> = Vec::new();
        let mut i: usize = 0;
        while i < runs.len()
            invariant
                i <= runs@.len(),
                out@.len() == i,
                forall|k: int| 0 <= k < runs@.len() ==> runs@[k].0 <= runs@[k].1 && runs@[k].1 < LAST_RAW,
                forall|k: int| 0 <= k < i ==> out@[k].start.raw == runs@[k].0 && out@[k].end.raw == runs@[k].1 + 1,
            decreases runs@.len() - i,
        {
            let (lo, hi) = runs[i];
            out.push(IdRange::new(Id::new(lo), Id::new(hi + 1)));
            i = i + 1;
        }
        proof {
            assert forall|k: int| 0 <= k < out@.len() implies out@[k].start.raw < out@[k].end.raw by {
                assert(runs@[k].0 <= runs@[k].1);
            }
            assert forall|x: u64| self@.contains(x) <==> exists|k: int|
                #![trigger out@[k]]
                0 <= k < out@.len() && out@[k].start.raw <= x < out@[k].end.raw by {
                if self@.contains(x) {
                    assert(covered(runs@, x));
                    let k = choose|k: int| 0 <= k < runs@.len() && covers(runs@[k], x);
                    assert(out@[k].start.raw <= x < out@[k].end.raw);
                }
                if exists|k: int|
                    #![trigger out@[k]]
                    0 <= k < out@.len() && out@[k].start.raw <= x < out@[k].end.raw {
                    let k = choose|k: int|
                        #![trigger out@[k]]
                        0 <= k < out@.len() && out@[k].start.raw <= x < out@[k].end.raw;
                    assert(covers(runs@[k], x));
                    assert(covered(runs@, x));
                }
            }
        }
        out
    }

    /// Brings the pairs into canonical form: ascending runs with gaps between them.
    pub fn sort(&mut self)
        requires
            old(self).wf(),
        ensures
            final(self).wf(),
            final(self).is_sorted(),
            forall|y: u64| final(self)@.contains(y) <==> old(self)@.contains(y),
            final(self)@.len() == old(self)@.len(),
            old(self).is_sorted() ==> final(self).data@ == old(self).data@,
    {
        let runs = self.runs_inclusive();
        let mut sorted: Vec<(u64, u64)> = Vec::new();
        let mut i: usize = 0;
        while i < runs.len()
            invariant
                i <= runs@.len(),
                forall|k: int| 0 <= k < runs@.len() ==> runs@[k].0 <= runs@[k].1 && runs@[k].1 < LAST_RAW,
                forall|k: int| 0 <= k < sorted@.len() ==> sorted@[k].0 <= sorted@[k].1 && sorted@[k].1 < LAST_RAW,
                forall|j: int, k: int| 0 <= j < k < sorted@.len() ==> sorted@[j].0 <= sorted@[k].0,
                forall|x: u64| covered(sorted@, x) <==> covered(runs@.take(i as int), x),
            decreases runs@.len() - i,
        {
            let r = runs[i];
            let mut pos: usize = 0;
            while pos < sorted.len() && sorted[pos].0 <= r.0
                invariant
                    pos <= sorted@.len(),
                    forall|j: int| 0 <= j < pos ==> sorted@[j].0 <= r.0,
                decreases sorted@.len() - pos,
            {
                pos = pos + 1;
            }
            let ghost before = sorted@;
            sorted.insert(pos, r);
            proof {
                assert(runs@.take(i as int + 1) =~= runs@.take(i as int).push(r));
                assert forall|x: u64| covered(sorted@, x) <==> covered(runs@.take(i as int + 1), x) by {
                    lemma_covered_insert(before, pos as int, r, x);
                    lemma_covered_push(runs@.take(i as int), r, x);
                }
                assert forall|j: int, k: int| 0 <= j < k < sorted@.len() implies sorted@[j].0
                    <= sorted@[k].0 by {
                    if pos < before.len() {
                        assert(before[pos as int].0 > r.0);
                    }
                }
            }
            i = i + 1;
        }
        proof {
            assert(runs@.take(runs@.len() as int) =~= runs@);
        }
        let mut out: Vec<(u64, u64)> = Vec::new();
        let mut i: usize = 0;
        while i < sorted.len()
            invariant
                i <= sorted@.len(),
                forall|k: int| 0 <= k < sorted@.len() ==> sorted@[k].0 <= sorted@[k].1 && sorted@[k].1 < LAST_RAW,
                forall|j: int, k: int| 0 <= j < k < sorted@.len() ==> sorted@[j].0 <= sorted@[k].0,
                canonical(out@),
                forall|k: int| 0 <= k < out@.len() ==> out@[k].1 < LAST_RAW,
                out@.len() > 0 ==> forall|k: int| i <= k < sorted@.len() ==> out@.last().0 <= sorted@[k].0,
                forall|x: u64| covered(out@, x) <==> covered(sorted@.take(i as int), x),
            decreases sorted@.len() - i,
        {
            let (lo, hi) = sorted[i];
            let ghost before = out@;
            proof {
                assert(sorted@.take(i as int + 1) =~= sorted@.take(i as int).push((lo, hi)));
            }
            let n = out.len();
            if n > 0 && lo <= out[n - 1].1 + 1 {
                let (a, b) = out[n - 1];
                let c = if b >= hi { b } else { hi };
                out.set(n - 1, (a, c));
                proof {
                    assert forall|x: u64| covered(out@, x) <==> covered(sorted@.take(i as int + 1), x) by {
                        lemma_covered_widen_last(before, lo, hi, x);
                        lemma_covered_push(sorted@.take(i as int), (lo, hi), x);
                    }
                }
            } else {
                out.push((lo, hi));
                proof {
                    assert forall|x: u64| covered(out@, x) <==> covered(sorted@.take(i as int + 1), x) by {
                        lemma_covered_push(before, (lo, hi), x);
                        lemma_covered_push(sorted@.take(i as int), (lo, hi), x);
                    }
                }
            }
            i = i + 1;
        }
        proof {
            assert(sorted@.take(sorted@.len() as int) =~= sorted@);
            lemma_canonical_no_dup(out@);
            assert forall|y: u64| flat(out@).contains(y) <==> old(self)@.contains(y) by {
                lemma_flat_contains(out@, y);
            }
            assert(flat(out@).to_set() =~= old(self)@.to_set());
            flat(out@).unique_seq_to_set();
            old(self)@.unique_seq_to_set();
            assert(!flat(out@).contains(LAST_RAW));
            if canonical(old(self).data@) {
                assert forall|y: u64| covered(out@, y) <==> covered(old(self).data@, y) by {
                    lemma_flat_contains(out@, y);
                    lemma_flat_contains(old(self).data@, y);
                }
                lemma_canonical_unique(out@, old(self).data@);
            }
        }
        self.data = out;
    }

    /// Adds each id of `ids`.
    pub fn extend(&mut self, ids: &Vec<Id<M>>)
        requires
            old(self).wf(),
            forall|k: int| 0 <= k < ids@.len() ==> ids@[k].raw != LAST_RAW,
            old(self).len + ids@.len() <= usize::MAX,
        ensures
            final(self).wf(),
            forall|y: u64| final(self)@.contains(y) <==> (old(self)@.contains(y) || exists|k: int|
                0 <= k < ids@.len() && ids@[k].raw == y),
    {
        let mut i: usize = 0;
        while i < ids.len()
            invariant
                i <= ids@.len(),
                self.wf(),
                forall|k: int| 0 <= k < ids@.len() ==> ids@[k].raw != LAST_RAW,
                self.len <= old(self).len + i,
                old(self).len + ids@.len() <= usize::MAX,
                forall|y: u64| self@.contains(y) <==> (old(self)@.contains(y) || exists|k: int|
                    0 <= k < i && ids@[k].raw == y),
            decreases ids@.len() - i,
        {
            let ghost prev = self@;
            self.push(ids[i]);
            proof {
                assert forall|y: u64| self@.contains(y) <==> (old(self)@.contains(y) || exists|k: int|
                    0 <= k < i + 1 && ids@[k].raw == y) by {
                    if y == ids@[i as int].raw {
                        assert(exists|k: int| 0 <= k < i + 1 && ids@[k].raw == y);
                    }
                    if exists|k: int| 0 <= k < i + 1 && ids@[k].raw == y {
                        let k = choose|k: int| 0 <= k < i + 1 && ids@[k].raw == y;
                        if k < i {
                            assert(prev.contains(y));
                        }
                    }
                }
            }
            i = i + 1;
        }
    }
    /// Takes the `n` highest ids of the run at position `i` of a sorted list, and returns
    /// the first of them.
    pub fn carve_top(&mut self, i: usize, n: u64) -> (r: u64)
        requires
            old(self).wf(),
            old(self).is_sorted(),
            i < old(self).data@.len(),
            1 <= n <= old(self).data@[i as int].1 - old(self).data@[i as int].0 + 1,
        ensures
            final(self).wf(),
            final(self).is_sorted(),
            r == old(self).data@[i as int].1 - n + 1,
            final(self)@.len() == old(self)@.len() - n,
            forall|y: u64| final(self)@.contains(y) <==> (old(self)@.contains(y) && !(r <= y
                <= old(self).data@[i as int].1)),
            forall|y: u64| r <= y <= old(self).data@[i as int].1 ==> old(self)@.contains(y),
    {
        let ghost d = self.data@;
        let (lo, hi) = self.data[i];
        let first = hi - (n - 1);
        if first == lo {
            self.data.remove(i);
        } else {
            self.data.set(i, (lo, first - 1));
        }
        proof {
            let e = self.data@;
            assert(canonical(e)) by {
                if first == lo {
                    assert forall|a: int, b: int| 0 <= a < b < e.len() implies e[a].1 + 1 < e[b].0 by {
                        let a2 = if a < i { a } else { a + 1 };
                        let b2 = if b < i { b } else { b + 1 };
                        assert(e[a] == d[a2] && e[b] == d[b2]);
                    }
                } else {
                    assert forall|a: int, b: int| 0 <= a < b < e.len() implies e[a].1 + 1 < e[b].0 by {
                        if a == i {
                            assert(d[a].1 + 1 < d[b].0);
                        }
                    }
                }
            }
            // The ids that remain are the old ones less the carved run.
            assert forall|y: u64| covered(e, y) <==> (covered(d, y) && !(first <= y <= hi)) by {
                if covered(e, y) {
                    let k = choose|k: int| 0 <= k < e.len() && covers(e[k], y);
                    let k2 = if first == lo {
                        if k < i { k } else { k + 1 }
                    } else {
                        k
                    };
                    assert(covers(d[k2], y));
                    if k2 != i && first <= y <= hi {
                        if k2 < i {
                            assert(d[k2].1 + 1 < d[i as int].0);
                        } else {
                            assert(d[i as int].1 + 1 < d[k2].0);
                        }
                    }
                }
                if covered(d, y) && !(first <= y <= hi) {
                    let k = choose|k: int| 0 <= k < d.len() && covers(d[k], y);
                    if first == lo {
                        if k < i {
                            assert(covers(e[k], y));
                        } else if k > i {
                            assert(covers(e[k - 1], y));
                        }
                    } else {
                        assert(covers(e[k], y));
                    }
                }
            }
            assert forall|y: u64| first <= y <= hi implies flat(d).contains(y) by {
                assert(covers(d[i as int], y));
                lemma_flat_contains(d, y);
            }
            lemma_canonical_no_dup(e);
            assert forall|y: u64| flat(e).contains(y) <==> (flat(d).contains(y) && !(first <= y <= hi)) by {
                lemma_flat_contains(e, y);
                lemma_flat_contains(d, y);
            }
            // Counting: the old ids are the remaining ones and the carved run, apart.
            let run = run_seq(first, hi);
            lemma_run_seq_contains(first, hi, 0);
            assert forall|y: u64| flat(e).contains(y) implies !run.contains(y) by {
                lemma_run_seq_contains(first, hi, y);
            }
            assert forall|y: u64| (flat(e) + run).contains(y) <==> flat(d).contains(y) by {
                lemma_concat_contains(flat(e), run, y);
                lemma_run_seq_contains(first, hi, y);
                lemma_flat_contains(d, y);
            }
            lemma_concat_no_dup(flat(e), run);
            assert((flat(e) + run).to_set() =~= flat(d).to_set());
            (flat(e) + run).unique_seq_to_set();
            flat(d).unique_seq_to_set();
            assert(!flat(e).contains(LAST_RAW));
        }
        self.len = self.len - n as usize;
        first
    }
    /// The list of the ids of a range.
    pub fn from_range(r: IdRange<M>) -> (l: RunList<M>)
        requires
            r.end.raw <= LAST_RAW,
            r.end.raw - r.start.raw <= usize::MAX,
        ensures
            l.wf(),
            l.is_sorted(),
            l@ == r.view_ids(),
    {
        let mut l = RunList::new();
        if r.start.raw < r.end.raw {
            l.push_run(r.start, Id::new(r.end.raw - 1));
            proof {
                assert(l@ =~= r.view_ids());
                assert(l.data@ == seq![(r.start.raw, (r.end.raw - 1) as u64)]);
            }
        } else {
            proof {
                assert(r.view_ids() =~= Seq::<u64>::empty());
            }
        }
        l
    }

    /// A list from stored pairs, checked: every id distinct and valid, and `len` of them.
    pub fn from_raw_data(len: usize, data: Vec<(u64, u64)>) -> (r: Result<RunList<M>, RawDataError>)
        ensures
            r is Ok <==> (flat(data@).no_duplicates() && !flat(data@).contains(LAST_RAW)
                && flat(data@).len() == len),
            r is Ok ==> r->Ok_0.wf() && r->Ok_0.data@ == data@,
            r matches Err(RawDataError::LengthMismatch { actual, given }) ==> given == len
                && actual == flat(data@).len() && actual != len,
    {
        match Self::check_pairs(len, &data) {
            Ok(()) => Ok(RunList { data, len, table: PhantomData }),
            Err(e) => Err(e),
        }
    }

    fn check_pairs(len: usize, data: &Vec<(u64, u64)>) -> (r: Result<(), RawDataError>)
        ensures
            r is Ok <==> (flat(data@).no_duplicates() && !flat(data@).contains(LAST_RAW)
                && flat(data@).len() == len),
            r matches Err(RawDataError::LengthMismatch { actual, given }) ==> given == len
                && actual == flat(data@).len() && actual != len,
    {
        let mut seen: RunList<M> = RunList::new();
        let mut i: usize = 0;
        while i < data.len()
            invariant
                i <= data@.len(),
                seen.wf(),
                flat(data@.take(i as int)).no_duplicates(),
                !flat(data@.take(i as int)).contains(LAST_RAW),
                seen@.len() == flat(data@.take(i as int)).len(),
                forall|y: u64| seen@.contains(y) <==> flat(data@.take(i as int)).contains(y),
            decreases data@.len() - i,
        {
            let (a, b) = data[i];
            let ghost pre = flat(data@.take(i as int));
            proof {
                assert(data@.take(i as int + 1) =~= data@.take(i as int).push((a, b)));
                lemma_flat_push(data@.take(i as int), (a, b));
            }
            let (lo, hi) = if a < b {
                (a, b)
            } else {
                (a, a)
            };
            if hi == LAST_RAW {
                proof {
                    let whole = pre + pair_ids((a, b));
                    if a < b {
                        assert(whole[whole.len() - 1] == LAST_RAW);
                    } else if a == b {
                        assert(whole[whole.len() - 1] == LAST_RAW);
                    } else {
                        assert(whole[pre.len() as int] == LAST_RAW);
                    }
                    lemma_bad_prefix(data@, i as int + 1);
                }
                return Err(RawDataError::Invalid);
            }
            let mut c = lo;
            while c <= hi
                invariant
                    lo <= c <= hi + 1,
                    hi < LAST_RAW,
                    i < data@.len(),
                    (a, b) == data@[i as int],
                    lo == a,
                    hi == if a < b {
                        b
                    } else {
                        a
                    },
                    pre == flat(data@.take(i as int)),
                    flat(data@.take(i as int + 1)) == pre + pair_ids((a, b)),
                    seen.wf(),
                    (pre + run_seq(lo, (c - 1) as u64).take(c - lo)).no_duplicates(),
                    !(pre + run_seq(lo, (c - 1) as u64).take(c - lo)).contains(LAST_RAW),
                    seen@.len() == (pre + run_seq(lo, (c - 1) as u64).take(c - lo)).len(),
                    forall|y: u64| seen@.contains(y) <==> (pre + run_seq(lo, (c - 1) as u64).take(c - lo)).contains(y),
                decreases hi + 1 - c,
            {
                if seen.contains(Id::new(c)) {
                    proof {
                        let part = run_seq(lo, (c - 1) as u64).take(c - lo);
                        let whole = pre + pair_ids((a, b));
                        let k = choose|k: int| 0 <= k < (pre + part).len() && (pre + part)[k] == c;
                        if a < b {
                            assert(whole[k] == (pre + part)[k]);
                            assert(pair_ids((a, b)) == run_seq(a, b));
                            assert(run_seq(a, b)[c - a] == c);
                            assert(whole[pre.len() + (c - lo)] == c);
                        } else {
                            assert(part.len() == 0);
                            assert(whole[k] == c);
                            assert(whole[pre.len() as int] == c);
                        }
                        lemma_bad_prefix(data@, i as int + 1);
                    }
                    return Err(RawDataError::Invalid);
                }
                if seen.len() == usize::MAX {
                    proof {
                        let part = run_seq(lo, (c - 1) as u64).take(c - lo);
                        assert(pair_ids((a, b)).len() >= part.len() + 1);
                        lemma_flat_take_prefix(data@, i as int + 1);
                    }
                    return Err(RawDataError::Overflow);
                }
                seen.push(Id::new(c));
                proof {
                    let part = run_seq(lo, (c - 1) as u64).take(c - lo);
                    let next = run_seq(lo, c).take(c + 1 - lo);
                    assert(next =~= part.push(c));
                    assert(pre + next =~= (pre + part).push(c));
                    lemma_push_contains(true, pre + part, c);
                }
                c = c + 1;
            }
            if a > b {
                if b == LAST_RAW || seen.contains(Id::new(b)) {
                    proof {
                        assert(run_seq(lo, (c - 1) as u64).take(c - lo) =~= seq![a]);
                        let whole = pre + pair_ids((a, b));
                        assert(whole =~= (pre + seq![a]).push(b));
                        if b == LAST_RAW {
                            assert(whole[whole.len() - 1] == LAST_RAW);
                        } else {
                            let k = choose|k: int| 0 <= k < (pre + seq![a]).len() && (pre + seq![a])[k] == b;
                            assert(whole[k] == b && whole[whole.len() - 1] == b);
                        }
                        lemma_bad_prefix(data@, i as int + 1);
                    }
                    return Err(RawDataError::Invalid);
                }
                if seen.len() == usize::MAX {
                    proof {
                        assert(run_seq(lo, (c - 1) as u64).take(c - lo) =~= seq![a]);
                        assert(pair_ids((a, b)).len() == 2);
                        lemma_flat_take_prefix(data@, i as int + 1);
                    }
                    return Err(RawDataError::Overflow);
                }
                seen.push(Id::new(b));
            }
            proof {
                assert(c == hi + 1);
                if a > b {
                    assert(run_seq(lo, (c - 1) as u64).take(c - lo) =~= seq![a]);
                    assert(pair_ids((a, b)) =~= seq![a].push(b));
                    assert(pre + pair_ids((a, b)) =~= (pre + seq![a]).push(b));
                    lemma_push_contains(true, pre + seq![a], b);
                } else {
                    assert(run_seq(lo, (c - 1) as u64).take(c - lo) =~= pair_ids((a, b)));
                }
                assert(flat(data@.take(i as int + 1)) == pre + pair_ids((a, b)));
            }
            i = i + 1;
        }
        proof {
            assert(data@.take(data@.len() as int) =~= data@);
        }
        if seen.len() != len {
            return Err(RawDataError::LengthMismatch { actual: seen.len(), given: len });
        }
        Ok(())
    }

    /// Checks the list's own invariant, for a list whose fields were set from outside.
    pub fn validate_data(&self) -> (r: Result<(), RawDataError>)
        ensures
            r is Ok <==> self.wf(),
    {
        Self::check_pairs(self.len, &self.data)
    }
    /// The same ids, as ids of the table marked by `N`.
    pub fn retag<N>(self) -> (r: RunList<N>)
        ensures
            r.data@ == self.data@,
            r.len == self.len,
            r@ == self@,
    {
        RunList { data: self.data, len: self.len, table: PhantomData }
    }
}

} // verus!
