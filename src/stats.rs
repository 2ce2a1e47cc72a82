use vstd::prelude::*;

use crate::solve_time::{Penalty, SolveTime, PLUS_TWO_NANOS};

verus! {

/// The largest recorded time an attempt can have.
pub open spec fn max_recorded() -> int {
    u64::MAX + PLUS_TWO_NANOS
}

/// How many attempts of the window did not finish.
pub open spec fn dnf_count(w: Seq<SolveTime>) -> nat
    decreases w.len(),
{
    if w.len() == 0 {
        0
    } else {
        dnf_count(w.drop_last()) + if w.last().spec_is_dnf() {
            1nat
        } else {
            0nat
        }
    }
}

/// The sum of the recorded times of the finished attempts of the window.
pub open spec fn finished_sum(w: Seq<SolveTime>) -> int
    decreases w.len(),
{
    if w.len() == 0 {
        0
    } else {
        finished_sum(w.drop_last()) + match w.last().recorded() {
            Some(t) => t,
            None => 0,
        }
    }
}

/// The best (smallest) recorded time among the finished attempts of the window.
pub open spec fn best_recorded(w: Seq<SolveTime>) -> Option<int>
    decreases w.len(),
{
    if w.len() == 0 {
        None
    } else {
        let rest = best_recorded(w.drop_last());
        match w.last().recorded() {
            None => rest,
            Some(t) => match rest {
                None => Some(t),
                Some(b) => Some(if t < b { t } else { b }),
            },
        }
    }
}

/// The worst (largest) recorded time among the finished attempts of the window.
pub open spec fn worst_recorded(w: Seq<SolveTime>) -> Option<int>
    decreases w.len(),
{
    if w.len() == 0 {
        None
    } else {
        let rest = worst_recorded(w.drop_last());
        match w.last().recorded() {
            None => rest,
            Some(t) => match rest {
                None => Some(t),
                Some(b) => Some(if t > b { t } else { b }),
            },
        }
    }
}

/// Every attempt of the window has a recorded time that fits in a `u64`.
pub open spec fn all_fit(w: Seq<SolveTime>) -> bool {
    forall|i: int| 0 <= i < w.len() ==> #[trigger] w[i].fits()
}

/// The value a statistic takes when its window does not allow a ranked result.
pub open spec fn dnf_result() -> SolveTime {
    SolveTime { time: 0, penalty: Some(Penalty::Dnf) }
}

/// A finished statistic of the given recorded time.
pub open spec fn timed_result(t: int) -> SolveTime {
    SolveTime { time: t as u64, penalty: None }
}

/// The plain mean of a window: DNF as soon as one attempt did not finish,
/// otherwise the sum of the recorded times divided by their number,
/// truncated to whole nanoseconds.
pub open spec fn mean_of(w: Seq<SolveTime>) -> SolveTime {
    if dnf_count(w) > 0 {
        dnf_result()
    } else {
        timed_result(finished_sum(w) / w.len() as int)
    }
}

/// The trimmed mean of a window of at least three attempts: the best and the
/// worst attempt are left out and the others averaged. A DNF is the worst
/// attempt, so a window with one DNF still has a time, and one with two or
/// more is DNF. Which of several tied attempts is left out does not change
/// the value.
pub open spec fn average_of(w: Seq<SolveTime>) -> SolveTime {
    if dnf_count(w) >= 2 {
        dnf_result()
    } else {
        let worst = if dnf_count(w) == 1 {
            0
        } else {
            worst_recorded(w).unwrap()
        };
        timed_result(
            (finished_sum(w) - best_recorded(w).unwrap() - worst) / (w.len() - 2) as int,
        )
    }
}

/// The facts about a window's sums and extremes that keep the statistics
/// inside their integer types.
pub proof fn lemma_window_bounds(w: Seq<SolveTime>)
    ensures
        dnf_count(w) <= w.len(),
        0 <= finished_sum(w) <= (w.len() - dnf_count(w)) * max_recorded(),
        best_recorded(w) is Some <==> dnf_count(w) < w.len(),
        best_recorded(w) is Some <==> worst_recorded(w) is Some,
        best_recorded(w) matches Some(b) ==> {
            &&& 0 <= b <= worst_recorded(w).unwrap() <= max_recorded()
            &&& finished_sum(w) <= b + (w.len() - dnf_count(w) - 1) * worst_recorded(w).unwrap()
            &&& w.len() - dnf_count(w) == 1 ==> finished_sum(w) == b && b == worst_recorded(
                w,
            ).unwrap()
            &&& w.len() - dnf_count(w) >= 2 ==> finished_sum(w) >= b + worst_recorded(w).unwrap()
        },
        all_fit(w) && worst_recorded(w) is Some ==> worst_recorded(w).unwrap() <= u64::MAX,
    decreases w.len(),
{
    if w.len() > 0 {
        let p = w.drop_last();
        lemma_window_bounds(p);
        assert(all_fit(w) ==> all_fit(p)) by {
            if all_fit(w) {
                assert forall|i: int| 0 <= i < p.len() implies #[trigger] p[i].fits() by {
                    assert(p[i] == w[i]);
                }
            }
        }
        assert(all_fit(w) ==> w.last().fits()) by {
            if all_fit(w) {
                assert(w[w.len() - 1].fits());
            }
        }
        match w.last().recorded() {
            None => {},
            Some(t) => {
                let k = p.len() - dnf_count(p);
                match best_recorded(p) {
                    None => {},
                    Some(b) => {
                        let m = worst_recorded(p).unwrap();
                        let s = finished_sum(p);
                        let b2 = if t < b { t } else { b };
                        let m2 = if t > m { t } else { m };
                        assert(k == 1 ==> s + t == b2 + m2);
                        assert(k >= 2 ==> s + t >= b2 + m2);
                        assert(s + t <= b2 + k * m2) by (nonlinear_arith)
                            requires
                                s <= b + (k - 1) * m,
                                0 <= b <= m,
                                b2 <= b,
                                b2 == t || b2 == b,
                                m <= m2,
                                t <= m2,
                                k >= 1,
                        ;
                    },
                }
            },
        }
    }
}

/// A trimmed average tolerates one DNF: with exactly one in the window, the
/// DNF is the attempt left out at the top, and the average is a time made of
/// the finished attempts without the best one.
pub proof fn lemma_average_tolerates_one_dnf(w: Seq<SolveTime>)
    requires
        w.len() >= 3,
        dnf_count(w) == 1,
    ensures
        !average_of(w).spec_is_dnf(),
        average_of(w) == timed_result(
            (finished_sum(w) - best_recorded(w).unwrap()) / (w.len() - 2) as int,
        ),
{
}

/// A trimmed average with two or more DNFs in its window is a DNF.
pub proof fn lemma_average_two_dnfs_is_dnf(w: Seq<SolveTime>)
    requires
        dnf_count(w) >= 2,
    ensures
        average_of(w).spec_is_dnf(),
{
}

/// A plain mean is a DNF exactly when some attempt of its window is.
pub proof fn lemma_mean_dnf_iff_some_dnf(w: Seq<SolveTime>)
    ensures
        mean_of(w).spec_is_dnf() <==> dnf_count(w) > 0,
{
}

} // verus!
