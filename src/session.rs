use vstd::prelude::*;
use vstd::slice::slice_subrange;
use vstd::std_specs::iter::IteratorSpec;

use crate::solve_time::{Penalty, SolveTime, MAX_ELAPSED, PLUS_TWO_NANOS};
use crate::stats::{
    all_fit, average_of, best_recorded, dnf_count, finished_sum, lemma_window_bounds, mean_of,
    worst_recorded,
};

verus! {

/// One attempt as the session keeps it.
#[derive(Clone, Debug)]
pub struct Solve {
    pub time: SolveTime,
    /// When the attempt ended, in milliseconds since the Unix epoch.
    pub timestamp: u64,
    /// The scramble the attempt was made on; empty when none was recorded.
    pub scramble: String,
}

/// One row of a session: an attempt and the statistics of the windows that
/// end with it.
#[derive(Clone, Debug)]
pub struct SessionEntry {
    pub solve: Solve,
    pub mo3: Option<SolveTime>,
    pub ao5: Option<SolveTime>,
    pub ao12: Option<SolveTime>,
}

/// The times of a run of entries.
pub open spec fn solve_times(entries: Seq<SessionEntry>) -> Seq<SolveTime> {
    entries.map_values(|e: SessionEntry| e.solve.time)
}

/// The mean of three that ends at index `i`, once there are three attempts.
pub open spec fn mo3_at(ts: Seq<SolveTime>, i: int) -> Option<SolveTime> {
    if 2 <= i < ts.len() {
        Some(mean_of(ts.subrange(i - 2, i + 1)))
    } else {
        None
    }
}

/// The average of five that ends at index `i`, once there are five attempts.
pub open spec fn ao5_at(ts: Seq<SolveTime>, i: int) -> Option<SolveTime> {
    if 4 <= i < ts.len() {
        Some(average_of(ts.subrange(i - 4, i + 1)))
    } else {
        None
    }
}

/// The average of twelve that ends at index `i`, once there are twelve attempts.
pub open spec fn ao12_at(ts: Seq<SolveTime>, i: int) -> Option<SolveTime> {
    if 11 <= i < ts.len() {
        Some(average_of(ts.subrange(i - 11, i + 1)))
    } else {
        None
    }
}

/// The attempts of a session stay within the largest elapsed time.
pub open spec fn times_in_range(entries: Seq<SessionEntry>) -> bool {
    forall|i: int| 0 <= i < entries.len() ==> #[trigger] entries[i].solve.time.time <= MAX_ELAPSED
}

pub open spec fn mo3_ok(entries: Seq<SessionEntry>, i: int) -> bool {
    entries[i].mo3 == mo3_at(solve_times(entries), i)
}

pub open spec fn ao5_ok(entries: Seq<SessionEntry>, i: int) -> bool {
    entries[i].ao5 == ao5_at(solve_times(entries), i)
}

pub open spec fn ao12_ok(entries: Seq<SessionEntry>, i: int) -> bool {
    entries[i].ao12 == ao12_at(solve_times(entries), i)
}

/// Every statistic is up to date, except possibly those whose window holds
/// the entry at `changed`.
pub open spec fn stats_ok_apart_from(entries: Seq<SessionEntry>, changed: int) -> bool {
    &&& forall|i: int|
        0 <= i < entries.len() && (i < changed || i >= changed + 3) ==> #[trigger] mo3_ok(
            entries,
            i,
        )
    &&& forall|i: int|
        0 <= i < entries.len() && (i < changed || i >= changed + 5) ==> #[trigger] ao5_ok(
            entries,
            i,
        )
    &&& forall|i: int|
        0 <= i < entries.len() && (i < changed || i >= changed + 12) ==> #[trigger] ao12_ok(
            entries,
            i,
        )
}

/// A well-formed session: times in range and every statistic up to date.
pub open spec fn session_ok(entries: Seq<SessionEntry>) -> bool {
    &&& times_in_range(entries)
    &&& stats_ok_apart_from(entries, entries.len() as int)
}

/// The best statistic among those present: there is one exactly when some
/// entry has one, it is one of them, and none is better.
pub open spec fn is_best_of(stats: Seq<Option<SolveTime>>, r: Option<SolveTime>) -> bool {
    match r {
        None => forall|i: int| 0 <= i < stats.len() ==> #[trigger] stats[i] is None,
        Some(b) => {
            &&& exists|i: int| 0 <= i < stats.len() && #[trigger] stats[i] == Some(b)
            &&& forall|i: int|
                0 <= i < stats.len() && #[trigger] stats[i] is Some ==> !stats[i].unwrap().faster_than(
                    b,
                )
        },
    }
}

/// The sum, the DNF count and the extremes of a run of entries, in one pass.
fn scan_window(entries: &[SessionEntry]) -> (r: (u128, usize, Option<u128>, Option<u128>))
    requires
        entries@.len() <= u32::MAX,
    ensures
        r.0 == finished_sum(solve_times(entries@)),
        r.1 == dnf_count(solve_times(entries@)),
        r.2 matches Some(b) ==> best_recorded(solve_times(entries@)) == Some(b as int),
        r.2 is None ==> best_recorded(solve_times(entries@)) is None,
        r.3 matches Some(m) ==> worst_recorded(solve_times(entries@)) == Some(m as int),
        r.3 is None ==> worst_recorded(solve_times(entries@)) is None,
{
    let ghost w = solve_times(entries@);
    let mut sum: u128 = 0;
    let mut dnfs: usize = 0;
    let mut best: Option<u128> = None;
    let mut worst: Option<u128> = None;
    let mut i: usize = 0;
    while i < entries.len()
        invariant
            w == solve_times(entries@),
            entries@.len() <= u32::MAX,
            i <= entries@.len(),
            sum == finished_sum(w.take(i as int)),
            dnfs == dnf_count(w.take(i as int)),
            dnfs <= i,
            best matches Some(b) ==> best_recorded(w.take(i as int)) == Some(b as int),
            best is None ==> best_recorded(w.take(i as int)) is None,
            worst matches Some(m) ==> worst_recorded(w.take(i as int)) == Some(m as int),
            worst is None ==> worst_recorded(w.take(i as int)) is None,
        decreases entries@.len() - i,
    {
        let ghost p = w.take(i as int);
        let ghost q = w.take(i + 1);
        assert(q.drop_last() =~= p);
        assert(q.last() == entries@[i as int].solve.time);
        proof {
            lemma_window_bounds(q);
            assert(finished_sum(q) <= (i + 1) * (u64::MAX + PLUS_TWO_NANOS)) by (nonlinear_arith)
                requires
                    finished_sum(q) <= (q.len() - dnf_count(q)) * (u64::MAX + PLUS_TWO_NANOS),
                    dnf_count(q) <= q.len(),
                    q.len() == i + 1,
            ;
            assert((i + 1) * (u64::MAX + PLUS_TWO_NANOS) <= (u32::MAX as int) * (u64::MAX
                + PLUS_TWO_NANOS)) by (nonlinear_arith)
                requires
                    i + 1 <= u32::MAX,
            ;
        }
        match entries[i].solve.time.recorded_wide() {
            None => {
                dnfs = dnfs + 1;
            },
            Some(t) => {
                sum = sum + t;
                best = match best {
                    None => Some(t),
                    Some(b) => Some(if t < b { t } else { b }),
                };
                worst = match worst {
                    None => Some(t),
                    Some(m) => Some(if t > m { t } else { m }),
                };
            },
        }
        i = i + 1;
    }
    assert(w.take(entries@.len() as int) =~= w);
    (sum, dnfs, best, worst)
}

/// The plain mean of a run of entries; `None` for an empty run.
pub fn mean_of_n(entries: &[SessionEntry]) -> (r: Option<SolveTime>)
    requires
        entries@.len() <= u32::MAX,
        all_fit(solve_times(entries@)),
    ensures
        entries@.len() == 0 ==> r is None,
        entries@.len() > 0 ==> r == Some(mean_of(solve_times(entries@))),
{
    let n = entries.len();
    if n == 0 {
        return None;
    }
    let (sum, dnfs, best, worst) = scan_window(entries);
    if dnfs > 0 {
        return Some(SolveTime::dnf());
    }
    let ghost w = solve_times(entries@);
    proof {
        lemma_window_bounds(w);
        let b = best_recorded(w).unwrap();
        let m = worst_recorded(w).unwrap();
        assert(sum <= n * (u64::MAX as int)) by (nonlinear_arith)
            requires
                sum <= b + (n - 1) * m,
                0 <= b <= m <= u64::MAX,
                n >= 1,
        ;
        assert((sum as int) / (n as int) <= u64::MAX) by (nonlinear_arith)
            requires
                sum <= n * (u64::MAX as int),
                n >= 1,
        ;
    }
    let mean = sum / (n as u128);
    Some(SolveTime { time: mean as u64, penalty: None })
}

/// The trimmed mean of a run of entries: the best and the worst attempt are
/// left out and the rest averaged. `None` for fewer than three entries.
pub fn average_of_n(entries: &[SessionEntry]) -> (r: Option<SolveTime>)
    requires
        entries@.len() <= u32::MAX,
        all_fit(solve_times(entries@)),
    ensures
        entries@.len() < 3 ==> r is None,
        entries@.len() >= 3 ==> r == Some(average_of(solve_times(entries@))),
{
    let n = entries.len();
    if n < 3 {
        return None;
    }
    let (sum, dnfs, best, worst) = scan_window(entries);
    if dnfs >= 2 {
        return Some(SolveTime::dnf());
    }
    let ghost w = solve_times(entries@);
    proof {
        lemma_window_bounds(w);
    }
    let b = match best {
        Some(b) => b,
        None => 0,
    };
    let m = match worst {
        Some(m) => m,
        None => 0,
    };
    let dropped_worst = if dnfs == 1 {
        0
    } else {
        m
    };
    proof {
        let k = n - dnfs;
        assert(best is Some && worst is Some);
        assert(sum <= b + (k - 1) * m);
        assert(0 <= b <= m <= u64::MAX);
        assert((n - 2) * m <= (n - 2) * (u64::MAX as int)) by (nonlinear_arith)
            requires
                m <= u64::MAX,
                n >= 3,
        ;
        if dnfs == 0 {
            assert(sum - b - m <= (n - 2) * m) by (nonlinear_arith)
                requires
                    sum <= b + (n - 1) * m,
            ;
        } else {
            assert(sum - b <= (n - 2) * m) by (nonlinear_arith)
                requires
                    sum <= b + (n - 2) * m,
            ;
        }
        assert(sum - b - dropped_worst <= (n - 2) * (u64::MAX as int));
    }
    assert(sum >= b + dropped_worst);
    let trimmed = sum - b - dropped_worst;
    let avg = trimmed / ((n - 2) as u128);
    proof {
        assert(avg <= u64::MAX) by (nonlinear_arith)
            requires
                trimmed <= (n - 2) * (u64::MAX as int),
                avg == (trimmed as int) / ((n - 2) as int),
                n >= 3,
        ;
    }
    Some(SolveTime { time: avg as u64, penalty: None })
}

/// Which of the three statistics of an entry.
#[derive(Clone, Copy)]
enum Stat {
    Mo3,
    Ao5,
    Ao12,
}

spec fn stat_of(e: SessionEntry, which: Stat) -> Option<SolveTime> {
    match which {
        Stat::Mo3 => e.mo3,
        Stat::Ao5 => e.ao5,
        Stat::Ao12 => e.ao12,
    }
}

/// The mean-of-three column of a run of entries.
pub open spec fn mo3s(entries: Seq<SessionEntry>) -> Seq<Option<SolveTime>> {
    entries.map_values(|e: SessionEntry| e.mo3)
}

/// The average-of-five column of a run of entries.
pub open spec fn ao5s(entries: Seq<SessionEntry>) -> Seq<Option<SolveTime>> {
    entries.map_values(|e: SessionEntry| e.ao5)
}

/// The average-of-twelve column of a run of entries.
pub open spec fn ao12s(entries: Seq<SessionEntry>) -> Seq<Option<SolveTime>> {
    entries.map_values(|e: SessionEntry| e.ao12)
}

/// Two runs of entries hold the same attempts, whatever their statistics.
pub open spec fn same_solves(a: Seq<SessionEntry>, b: Seq<SessionEntry>) -> bool {
    &&& a.len() == b.len()
    &&& forall|j: int| 0 <= j < a.len() ==> #[trigger] a[j].solve == b[j].solve
}

proof fn lemma_same_solves_same_times(a: Seq<SessionEntry>, b: Seq<SessionEntry>)
    requires
        same_solves(a, b),
    ensures
        solve_times(a) == solve_times(b),
        times_in_range(a) == times_in_range(b),
{
    assert(solve_times(a) =~= solve_times(b));
    if times_in_range(a) {
        assert forall|i: int| 0 <= i < b.len() implies #[trigger] b[i].solve.time.time
            <= MAX_ELAPSED by {
            assert(a[i].solve == b[i].solve);
        }
    }
    if times_in_range(b) {
        assert forall|i: int| 0 <= i < a.len() implies #[trigger] a[i].solve.time.time
            <= MAX_ELAPSED by {
            assert(a[i].solve == b[i].solve);
        }
    }
}

/// Statistics look only at their own trailing window: two runs of entries
/// whose first `n` attempts agree have the same statistics at every index
/// below `n`.
pub proof fn lemma_stats_depend_on_prefix(a: Seq<SessionEntry>, b: Seq<SessionEntry>, n: int)
    requires
        0 <= n <= a.len(),
        n <= b.len(),
        forall|j: int| 0 <= j < n ==> #[trigger] a[j].solve.time == b[j].solve.time,
    ensures
        forall|i: int|
            0 <= i < n ==> {
                &&& #[trigger] mo3_at(solve_times(a), i) == mo3_at(solve_times(b), i)
                &&& ao5_at(solve_times(a), i) == ao5_at(solve_times(b), i)
                &&& ao12_at(solve_times(a), i) == ao12_at(solve_times(b), i)
            },
{
    let ta = solve_times(a);
    let tb = solve_times(b);
    assert forall|i: int| 0 <= i < n implies {
        &&& #[trigger] mo3_at(ta, i) == mo3_at(tb, i)
        &&& ao5_at(ta, i) == ao5_at(tb, i)
        &&& ao12_at(ta, i) == ao12_at(tb, i)
    } by {
        assert forall|lo: int| 0 <= lo <= i implies #[trigger] ta.subrange(lo, i + 1)
            == tb.subrange(lo, i + 1) by {
            assert(ta.subrange(lo, i + 1) =~= tb.subrange(lo, i + 1));
        }
        if i >= 2 {
            assert(ta.subrange(i - 2, i + 1) == tb.subrange(i - 2, i + 1));
        }
        if i >= 4 {
            assert(ta.subrange(i - 4, i + 1) == tb.subrange(i - 4, i + 1));
        }
        if i >= 11 {
            assert(ta.subrange(i - 11, i + 1) == tb.subrange(i - 11, i + 1));
        }
    }
}

/// The mean of three appears with the third attempt: no index of a run of at
/// most two entries has one, and with three entries the one at index two is
/// the mean of all three.
pub proof fn lemma_mo3_from_third_solve(entries: Seq<SessionEntry>)
    ensures
        entries.len() <= 2 ==> forall|i: int| #[trigger] mo3_at(solve_times(entries), i) is None,
        entries.len() == 3 ==> mo3_at(solve_times(entries), 2) == Some(
            mean_of(solve_times(entries)),
        ),
{
    if entries.len() == 3 {
        assert(solve_times(entries).subrange(0, 3) =~= solve_times(entries));
    }
}

/// A window of a session's entries holds attempts whose recorded times fit.
proof fn lemma_window_fits(entries: Seq<SessionEntry>, lo: int, hi: int)
    requires
        times_in_range(entries),
        0 <= lo <= hi <= entries.len(),
    ensures
        solve_times(entries.subrange(lo, hi)) == solve_times(entries).subrange(lo, hi),
        all_fit(solve_times(entries.subrange(lo, hi))),
{
    assert(solve_times(entries.subrange(lo, hi)) =~= solve_times(entries).subrange(lo, hi));
    let w = solve_times(entries.subrange(lo, hi));
    assert forall|i: int| 0 <= i < w.len() implies #[trigger] w[i].fits() by {
        assert(entries[lo + i].solve.time.time <= MAX_ELAPSED);
    }
}

/// An ordered record of attempts, each with the statistics of the windows
/// that end with it.
pub struct Session {
    entries: Vec<SessionEntry>,
}

impl View for Session {
    type V = Seq<SessionEntry>;

    closed spec fn view(&self) -> Seq<SessionEntry> {
        self.entries@
    }
}

impl Session {
    /// The session keeps its invariant: times in range, statistics up to date.
    pub open spec fn wf(&self) -> bool {
        session_ok(self@)
    }

    pub fn new() -> (r: Session)
        ensures
            r@ == Seq::<SessionEntry>::empty(),
            r.wf(),
    {
        Session { entries: Vec::new() }
    }

    pub fn get_n_solves(&self) -> (r: usize)
        ensures
            r == self@.len(),
    {
        self.entries.len()
    }

    pub fn get_solve(&self, index: usize) -> (r: Option<&Solve>)
        ensures
            index < self@.len() ==> r == Some(&self@[index as int].solve),
            index >= self@.len() ==> r is None,
    {
        if index < self.entries.len() {
            Some(&self.entries[index].solve)
        } else {
            None
        }
    }

    fn compute_mo3(&self, index: usize) -> (r: Option<SolveTime>)
        requires
            times_in_range(self@),
        ensures
            r == mo3_at(solve_times(self@), index as int),
    {
        if index >= 2 && index < self.entries.len() {
            proof {
                lemma_window_fits(self@, index - 2, index + 1);
            }
            mean_of_n(slice_subrange(self.entries.as_slice(), index - 2, index + 1))
        } else {
            None
        }
    }

    fn compute_ao5(&self, index: usize) -> (r: Option<SolveTime>)
        requires
            times_in_range(self@),
        ensures
            r == ao5_at(solve_times(self@), index as int),
    {
        if index >= 4 && index < self.entries.len() {
            proof {
                lemma_window_fits(self@, index - 4, index + 1);
            }
            average_of_n(slice_subrange(self.entries.as_slice(), index - 4, index + 1))
        } else {
            None
        }
    }

    fn compute_ao12(&self, index: usize) -> (r: Option<SolveTime>)
        requires
            times_in_range(self@),
        ensures
            r == ao12_at(solve_times(self@), index as int),
    {
        if index >= 11 && index < self.entries.len() {
            proof {
                lemma_window_fits(self@, index - 11, index + 1);
            }
            average_of_n(slice_subrange(self.entries.as_slice(), index - 11, index + 1))
        } else {
            None
        }
    }

    fn update_mo3(&mut self, index: usize)
        requires
            index < old(self)@.len(),
            times_in_range(old(self)@),
        ensures
            final(self)@ == old(self)@.update(
                index as int,
                SessionEntry { mo3: mo3_at(solve_times(old(self)@), index as int), ..old(self)@[index as int] },
            ),
    {
        let mo3 = self.compute_mo3(index);
        self.entries[index].mo3 = mo3;
    }

    fn update_ao5(&mut self, index: usize)
        requires
            index < old(self)@.len(),
            times_in_range(old(self)@),
        ensures
            final(self)@ == old(self)@.update(
                index as int,
                SessionEntry { ao5: ao5_at(solve_times(old(self)@), index as int), ..old(self)@[index as int] },
            ),
    {
        let ao5 = self.compute_ao5(index);
        self.entries[index].ao5 = ao5;
    }

    fn update_ao12(&mut self, index: usize)
        requires
            index < old(self)@.len(),
            times_in_range(old(self)@),
        ensures
            final(self)@ == old(self)@.update(
                index as int,
                SessionEntry { ao12: ao12_at(solve_times(old(self)@), index as int), ..old(self)@[index as int] },
            ),
    {
        let ao12 = self.compute_ao12(index);
        self.entries[index].ao12 = ao12;
    }

    /// Recomputes the statistics of the last entry, after its attempt changed.
    pub fn update_statistics_last(&mut self)
        requires
            old(self)@.len() > 0,
            times_in_range(old(self)@),
            stats_ok_apart_from(old(self)@, old(self)@.len() - 1),
        ensures
            final(self).wf(),
            same_solves(final(self)@, old(self)@),
            forall|i: int| 0 <= i < old(self)@.len() - 1 ==> #[trigger] final(self)@[i] == old(self)@[i],
    {
        let index = self.entries.len() - 1;
        let ghost ts = solve_times(old(self)@);
        self.update_mo3(index);
        proof {
            lemma_same_solves_same_times(self@, old(self)@);
        }
        self.update_ao5(index);
        proof {
            lemma_same_solves_same_times(self@, old(self)@);
        }
        self.update_ao12(index);
        proof {
            lemma_same_solves_same_times(self@, old(self)@);
            let e = self@;
            assert forall|i: int| 0 <= i < e.len() implies #[trigger] mo3_ok(e, i) by {
                if i < index {
                    assert(mo3_ok(old(self)@, i));
                }
            }
            assert forall|i: int| 0 <= i < e.len() implies #[trigger] ao5_ok(e, i) by {
                if i < index {
                    assert(ao5_ok(old(self)@, i));
                }
            }
            assert forall|i: int| 0 <= i < e.len() implies #[trigger] ao12_ok(e, i) by {
                if i < index {
                    assert(ao12_ok(old(self)@, i));
                }
            }
        }
    }

    /// Appends an attempt and computes the statistics that end with it.
    pub fn add_solve(&mut self, solve: Solve)
        requires
            old(self).wf(),
            solve.time.time <= MAX_ELAPSED,
        ensures
            final(self).wf(),
            final(self)@.len() == old(self)@.len() + 1,
            final(self)@.take(old(self)@.len() as int) == old(self)@,
            final(self)@.last().solve == solve,
    {
        let ghost before = self@;
        self.entries.push(SessionEntry { solve, mo3: None, ao5: None, ao12: None });
        proof {
            let e = self@;
            assert(e.take(before.len() as int) =~= before);
            lemma_stats_depend_on_prefix(e, before, before.len() as int);
            assert forall|j: int| 0 <= j < e.len() implies #[trigger] e[j].solve.time.time
                <= MAX_ELAPSED by {
                if j < before.len() {
                    assert(e[j] == before[j]);
                }
            }
            assert forall|i: int| 0 <= i < before.len() implies #[trigger] mo3_ok(e, i) by {
                assert(mo3_ok(before, i));
                assert(e[i] == before[i]);
            }
            assert forall|i: int| 0 <= i < before.len() implies #[trigger] ao5_ok(e, i) by {
                assert(mo3_at(solve_times(e), i) == mo3_at(solve_times(before), i));
                assert(ao5_ok(before, i));
                assert(e[i] == before[i]);
            }
            assert forall|i: int| 0 <= i < before.len() implies #[trigger] ao12_ok(e, i) by {
                assert(mo3_at(solve_times(e), i) == mo3_at(solve_times(before), i));
                assert(ao12_ok(before, i));
                assert(e[i] == before[i]);
            }
        }
        self.update_statistics_last();
        proof {
            assert(self@.take(before.len() as int) =~= before);
        }
    }

    /// The mean of three that ends at `index`; `None` before the third attempt
    /// and past the end.
    pub fn get_mo3(&self, index: usize) -> (r: Option<SolveTime>)
        requires
            self.wf(),
        ensures
            r == mo3_at(solve_times(self@), index as int),
    {
        if self.entries.len() >= 3 && index < self.entries.len() {
            proof {
                assert(mo3_ok(self@, index as int));
            }
            self.entries[index].mo3
        } else {
            None
        }
    }

    /// The average of five that ends at `index`; `None` before the fifth
    /// attempt and past the end.
    pub fn get_ao5(&self, index: usize) -> (r: Option<SolveTime>)
        requires
            self.wf(),
        ensures
            r == ao5_at(solve_times(self@), index as int),
    {
        if self.entries.len() >= 5 && index < self.entries.len() {
            proof {
                assert(ao5_ok(self@, index as int));
            }
            self.entries[index].ao5
        } else {
            None
        }
    }

    /// The average of twelve that ends at `index`; `None` before the twelfth
    /// attempt and past the end.
    pub fn get_ao12(&self, index: usize) -> (r: Option<SolveTime>)
        requires
            self.wf(),
        ensures
            r == ao12_at(solve_times(self@), index as int),
    {
        if self.entries.len() >= 12 && index < self.entries.len() {
            proof {
                assert(ao12_ok(self@, index as int));
            }
            self.entries[index].ao12
        } else {
            None
        }
    }

    /// The most recent attempt, if any.
    pub fn last_solve(&self) -> (r: Option<&Solve>)
        ensures
            self@.len() == 0 ==> r is None,
            self@.len() > 0 ==> r == Some(&self@.last().solve),
    {
        let n = self.entries.len();
        if n > 0 {
            Some(&self.entries[n - 1].solve)
        } else {
            None
        }
    }

    /// The statistic of the last entry.
    fn last_stat(&self, which: Stat) -> (r: Option<SolveTime>)
        ensures
            self@.len() == 0 ==> r is None,
            self@.len() > 0 ==> r == stat_of(self@.last(), which),
    {
        let n = self.entries.len();
        if n > 0 {
            match which {
                Stat::Mo3 => self.entries[n - 1].mo3,
                Stat::Ao5 => self.entries[n - 1].ao5,
                Stat::Ao12 => self.entries[n - 1].ao12,
            }
        } else {
            None
        }
    }

    /// The mean of three that ends with the last attempt.
    pub fn last_mo3(&self) -> (r: Option<SolveTime>)
        requires
            self.wf(),
        ensures
            r == mo3_at(solve_times(self@), self@.len() - 1),
    {
        proof {
            if self@.len() > 0 {
                assert(mo3_ok(self@, self@.len() - 1));
            }
        }
        self.last_stat(Stat::Mo3)
    }

    /// The average of five that ends with the last attempt.
    pub fn last_ao5(&self) -> (r: Option<SolveTime>)
        requires
            self.wf(),
        ensures
            r == ao5_at(solve_times(self@), self@.len() - 1),
    {
        proof {
            if self@.len() > 0 {
                assert(ao5_ok(self@, self@.len() - 1));
            }
        }
        self.last_stat(Stat::Ao5)
    }

    /// The average of twelve that ends with the last attempt.
    pub fn last_ao12(&self) -> (r: Option<SolveTime>)
        requires
            self.wf(),
        ensures
            r == ao12_at(solve_times(self@), self@.len() - 1),
    {
        proof {
            if self@.len() > 0 {
                assert(ao12_ok(self@, self@.len() - 1));
            }
        }
        self.last_stat(Stat::Ao12)
    }

    /// The best value of one statistic over the whole session.
    fn best_stat(&self, which: Stat) -> (r: Option<SolveTime>)
        ensures
            is_best_of(self@.map_values(|e: SessionEntry| stat_of(e, which)), r),
    {
        let ghost col = self@.map_values(|e: SessionEntry| stat_of(e, which));
        let mut best: Option<SolveTime> = None;
        let mut i: usize = 0;
        while i < self.entries.len()
            invariant
                col == self@.map_values(|e: SessionEntry| stat_of(e, which)),
                i <= col.len(),
                col.len() == self@.len(),
                is_best_of(col.take(i as int), best),
            decreases col.len() - i,
        {
            let ghost p = col.take(i as int);
            let ghost q = col.take(i + 1);
            assert(q.drop_last() =~= p);
            let x = match which {
                Stat::Mo3 => self.entries[i].mo3,
                Stat::Ao5 => self.entries[i].ao5,
                Stat::Ao12 => self.entries[i].ao12,
            };
            assert(x == col[i as int]);
            assert(q[i as int] == x);
            assert forall|j: int| 0 <= j < i implies #[trigger] q[j] == p[j] by {}
            match x {
                None => {
                    proof {
                        if let Some(b) = best {
                            let w = choose|j: int| 0 <= j < p.len() && #[trigger] p[j] == Some(b);
                            assert(q[w] == Some(b));
                        }
                    }
                },
                Some(v) => {
                    let better = match best {
                        None => true,
                        Some(b) => match v.compare(&b) {
                            core::cmp::Ordering::Less => true,
                            _ => false,
                        },
                    };
                    if better {
                        best = Some(v);
                        assert(q[i as int] == Some(v));
                    } else {
                        proof {
                            let b = best.unwrap();
                            let w = choose|j: int| 0 <= j < p.len() && #[trigger] p[j] == Some(b);
                            assert(q[w] == Some(b));
                        }
                    }
                },
            }
            i = i + 1;
        }
        assert(col.take(col.len() as int) =~= col);
        best
    }

    /// The best mean of three of the session, `None` while there is none.
    pub fn best_mo3(&self) -> (r: Option<SolveTime>)
        ensures
            is_best_of(mo3s(self@), r),
    {
        let r = self.best_stat(Stat::Mo3);
        assert(self@.map_values(|e: SessionEntry| stat_of(e, Stat::Mo3)) =~= mo3s(self@));
        r
    }

    /// The best average of five of the session, `None` while there is none.
    pub fn best_ao5(&self) -> (r: Option<SolveTime>)
        ensures
            is_best_of(ao5s(self@), r),
    {
        let r = self.best_stat(Stat::Ao5);
        assert(self@.map_values(|e: SessionEntry| stat_of(e, Stat::Ao5)) =~= ao5s(self@));
        r
    }

    /// The best average of twelve of the session, `None` while there is none.
    pub fn best_ao12(&self) -> (r: Option<SolveTime>)
        ensures
            is_best_of(ao12s(self@), r),
    {
        let r = self.best_stat(Stat::Ao12);
        assert(self@.map_values(|e: SessionEntry| stat_of(e, Stat::Ao12)) =~= ao12s(self@));
        r
    }

    /// The entries in order, first to last.
    pub fn iter(&self) -> (r: core::slice::Iter<'_, SessionEntry>)
        ensures
            r.remaining().unref() == self@,
    {
        self.entries.iter()
    }

    /// The most recent attempt, to edit in place. After a change of its time
    /// the caller brings the statistics up to date with
    /// `update_statistics_last`.
    pub fn last_solve_mut(&mut self) -> (r: Option<&mut Solve>)
        ensures
            old(self)@.len() == 0 ==> r is None && final(self)@ == old(self)@,
            old(self)@.len() > 0 ==> {
                &&& r is Some
                &&& *r.unwrap() == old(self)@.last().solve
                &&& final(self)@ == old(self)@.update(
                    old(self)@.len() - 1,
                    SessionEntry { solve: *final(r.unwrap()), ..old(self)@.last() },
                )
            },
    {
        match self.entries.as_mut_slice().last_mut() {
            Some(e) => Some(&mut e.solve),
            None => None,
        }
    }

    /// Recomputes every statistic whose window holds the entry at `index`,
    /// after the attempt there changed.
    pub fn update_statistics(&mut self, index: usize)
        requires
            times_in_range(old(self)@),
            stats_ok_apart_from(old(self)@, index as int),
        ensures
            final(self).wf(),
            same_solves(final(self)@, old(self)@),
            forall|i: int| 0 <= i < index ==> #[trigger] final(self)@[i] == old(self)@[i],
    {
        let len = self.entries.len();
        let end = if index < len && len - index > 3 {
            index + 3
        } else {
            len
        };
        let mut i: usize = index;
        while i < end
            invariant
                index <= i,
                end <= len,
                len == self@.len(),
                index < len && len - index > 3 ==> end == index + 3,
                !(index < len && len - index > 3) ==> end == len,
                same_solves(self@, old(self)@),
                times_in_range(self@),
                forall|j: int| 0 <= j < index ==> #[trigger] self@[j] == old(self)@[j],
                forall|j: int|
                    0 <= j < len && (j < i || j >= index + 3) ==> #[trigger] mo3_ok(self@, j),
                forall|j: int|
                    0 <= j < len && (j < index || j >= index + 5) ==> #[trigger] ao5_ok(self@, j),
                forall|j: int|
                    0 <= j < len && (j < index || j >= index + 12) ==> #[trigger] ao12_ok(self@, j),
            decreases end - i,
        {
            let ghost before = self@;
            self.update_mo3(i);
            proof {
                lemma_same_solves_same_times(self@, old(self)@);
                lemma_same_solves_same_times(self@, before);
                assert forall|j: int|
                    0 <= j < len && (j < i + 1 || j >= index + 3) implies #[trigger] mo3_ok(
                    self@,
                    j,
                ) by {
                    if j != i {
                        assert(mo3_ok(before, j));
                    }
                }
                assert forall|j: int| 0 <= j < len && (j < index || j >= index + 5) implies #[trigger] ao5_ok(self@, j) by {
                    assert(ao5_ok(before, j));
                }
                assert forall|j: int| 0 <= j < len && (j < index || j >= index + 12) implies #[trigger] ao12_ok(self@, j) by {
                    assert(ao12_ok(before, j));
                }
            }
            i = i + 1;
        }
        let end = if index < len && len - index > 5 {
            index + 5
        } else {
            len
        };
        let mut i: usize = index;
        while i < end
            invariant
                index <= i,
                end <= len,
                len == self@.len(),
                index < len && len - index > 5 ==> end == index + 5,
                !(index < len && len - index > 5) ==> end == len,
                same_solves(self@, old(self)@),
                times_in_range(self@),
                forall|j: int| 0 <= j < index ==> #[trigger] self@[j] == old(self)@[j],
                forall|j: int|
                    0 <= j < len && (j < i || j >= index + 5) ==> #[trigger] ao5_ok(self@, j),
                forall|j: int| 0 <= j < len ==> #[trigger] mo3_ok(self@, j),
                forall|j: int|
                    0 <= j < len && (j < index || j >= index + 12) ==> #[trigger] ao12_ok(self@, j),
            decreases end - i,
        {
            let ghost before = self@;
            self.update_ao5(i);
            proof {
                lemma_same_solves_same_times(self@, old(self)@);
                lemma_same_solves_same_times(self@, before);
                assert forall|j: int|
                    0 <= j < len && (j < i + 1 || j >= index + 5) implies #[trigger] ao5_ok(
                    self@,
                    j,
                ) by {
                    if j != i {
                        assert(ao5_ok(before, j));
                    }
                }
                assert forall|j: int| 0 <= j < len implies #[trigger] mo3_ok(self@, j) by {
                    assert(mo3_ok(before, j));
                }
                assert forall|j: int| 0 <= j < len && (j < index || j >= index + 12) implies #[trigger] ao12_ok(self@, j) by {
                    assert(ao12_ok(before, j));
                }
            }
            i = i + 1;
        }
        let end = if index < len && len - index > 12 {
            index + 12
        } else {
            len
        };
        let mut i: usize = index;
        while i < end
            invariant
                index <= i,
                end <= len,
                len == self@.len(),
                index < len && len - index > 12 ==> end == index + 12,
                !(index < len && len - index > 12) ==> end == len,
                same_solves(self@, old(self)@),
                times_in_range(self@),
                forall|j: int| 0 <= j < index ==> #[trigger] self@[j] == old(self)@[j],
                forall|j: int|
                    0 <= j < len && (j < i || j >= index + 12) ==> #[trigger] ao12_ok(self@, j),
                forall|j: int| 0 <= j < len ==> #[trigger] mo3_ok(self@, j),
                forall|j: int| 0 <= j < len ==> #[trigger] ao5_ok(self@, j),
            decreases end - i,
        {
            let ghost before = self@;
            self.update_ao12(i);
            proof {
                lemma_same_solves_same_times(self@, old(self)@);
                lemma_same_solves_same_times(self@, before);
                assert forall|j: int|
                    0 <= j < len && (j < i + 1 || j >= index + 12) implies #[trigger] ao12_ok(
                    self@,
                    j,
                ) by {
                    if j != i {
                        assert(ao12_ok(before, j));
                    }
                }
                assert forall|j: int| 0 <= j < len implies #[trigger] mo3_ok(self@, j) by {
                    assert(mo3_ok(before, j));
                }
                assert forall|j: int| 0 <= j < len implies #[trigger] ao5_ok(self@, j) by {
                    assert(ao5_ok(before, j));
                }
            }
            i = i + 1;
        }
    }

    /// Gives the last attempt a new penalty and brings its statistics up to
    /// date. Nothing happens to an empty session.
    pub fn set_last_penalty(&mut self, penalty: Option<Penalty>)
        requires
            old(self).wf(),
        ensures
            final(self).wf(),
            final(self)@.len() == old(self)@.len(),
            forall|i: int| 0 <= i < old(self)@.len() - 1 ==> #[trigger] final(self)@[i] == old(self)@[i],
            old(self)@.len() > 0 ==> final(self)@.last().solve == (Solve {
                time: SolveTime { penalty, ..old(self)@.last().solve.time },
                ..old(self)@.last().solve
            }),
            old(self)@.len() == 0 ==> final(self)@ == old(self)@,
    {
        let ghost before = self@;
        match self.last_solve_mut() {
            Some(s) => {
                s.time.penalty = penalty;
            },
            None => {
                return;
            },
        }
        proof {
            let e = self@;
            let n = before.len() as int;
            assert forall|j: int| 0 <= j < n - 1 implies #[trigger] e[j].solve.time
                == before[j].solve.time by {}
            lemma_stats_depend_on_prefix(e, before, n - 1);
            assert forall|j: int| 0 <= j < e.len() implies #[trigger] e[j].solve.time.time
                <= MAX_ELAPSED by {
                if j < n - 1 {
                    assert(e[j] == before[j]);
                }
                assert(before[j].solve.time.time <= MAX_ELAPSED);
            }
            assert forall|i: int| 0 <= i < n - 1 implies #[trigger] mo3_ok(e, i) by {
                assert(mo3_ok(before, i));
                assert(e[i] == before[i]);
            }
            assert forall|i: int| 0 <= i < n - 1 implies #[trigger] ao5_ok(e, i) by {
                assert(mo3_at(solve_times(e), i) == mo3_at(solve_times(before), i));
                assert(ao5_ok(before, i));
                assert(e[i] == before[i]);
            }
            assert forall|i: int| 0 <= i < n - 1 implies #[trigger] ao12_ok(e, i) by {
                assert(mo3_at(solve_times(e), i) == mo3_at(solve_times(before), i));
                assert(ao12_ok(before, i));
                assert(e[i] == before[i]);
            }
        }
        self.update_statistics_last();
    }
}

/// Changing the penalty of the last attempt leaves the statistics of every
/// earlier entry as they were: two well-formed sessions that differ only in
/// the penalty of their last attempt agree on all other statistics.
pub proof fn lemma_last_penalty_edit_keeps_earlier_stats(a: Seq<SessionEntry>, b: Seq<SessionEntry>)
    requires
        session_ok(a),
        session_ok(b),
        a.len() == b.len(),
        a.len() > 0,
        forall|j: int| 0 <= j < a.len() - 1 ==> #[trigger] a[j].solve == b[j].solve,
        a.last().solve.time.time == b.last().solve.time.time,
    ensures
        forall|i: int|
            0 <= i < a.len() - 1 ==> {
                &&& #[trigger] a[i].mo3 == b[i].mo3
                &&& a[i].ao5 == b[i].ao5
                &&& a[i].ao12 == b[i].ao12
            },
{
    let n = a.len() - 1;
    assert forall|j: int| 0 <= j < n implies #[trigger] a[j].solve.time == b[j].solve.time by {
        assert(a[j].solve == b[j].solve);
    }
    lemma_stats_depend_on_prefix(a, b, n);
    assert forall|i: int| 0 <= i < n implies {
        &&& #[trigger] a[i].mo3 == b[i].mo3
        &&& a[i].ao5 == b[i].ao5
        &&& a[i].ao12 == b[i].ao12
    } by {
        assert(mo3_at(solve_times(a), i) == mo3_at(solve_times(b), i));
        assert(mo3_ok(a, i) && mo3_ok(b, i));
        assert(ao5_ok(a, i) && ao5_ok(b, i));
        assert(ao12_ok(a, i) && ao12_ok(b, i));
    }
}

} // verus!
