use kubia_timer::{average_of_n, mean_of_n, Penalty, Session, SessionEntry, Solve, SolveTime};

const MS: u64 = 1_000_000;

fn solve(ms: u64, penalty: Option<Penalty>) -> Solve {
    Solve { time: SolveTime::new(ms * MS, penalty), timestamp: 0, scramble: String::new() }
}

fn session_of(times: &[(u64, Option<Penalty>)]) -> Session {
    let mut s = Session::new();
    for &(ms, p) in times {
        s.add_solve(solve(ms, p));
    }
    s
}

fn timed(ns: u64) -> Option<SolveTime> {
    Some(SolveTime::new(ns, None))
}

#[test]
fn mo3_appears_with_the_third_solve() {
    let mut s = session_of(&[(10_000, None), (12_000, None)]);
    for i in 0..4 {
        assert_eq!(s.get_mo3(i), None);
    }
    assert_eq!(s.last_mo3(), None);
    s.add_solve(solve(11_000, None));
    assert_eq!(s.get_mo3(0), None);
    assert_eq!(s.get_mo3(1), None);
    assert_eq!(s.get_mo3(2), timed(11_000 * MS));
    assert_eq!(s.last_mo3(), timed(11_000 * MS));
    assert_eq!(s.get_mo3(3), None);
}

#[test]
fn mo3_counts_plus2_and_truncates() {
    let s = session_of(&[(10_000, None), (10_000, Some(Penalty::Plus2)), (10_001, None)]);
    // (10.000 + 12.000 + 10.001) / 3 = 10.667
    assert_eq!(s.get_mo3(2), timed(10_667 * MS));
    let s = session_of(&[(1, None), (1, None), (2, None)]);
    // 4 ms / 3 = 1333333.33 ns, truncated
    assert_eq!(s.get_mo3(2), timed(1_333_333));
}

#[test]
fn mo3_with_a_dnf_is_dnf() {
    let s = session_of(&[(10_000, None), (12_000, Some(Penalty::Dnf)), (11_000, None)]);
    assert_eq!(s.get_mo3(2), Some(SolveTime::dnf()));
    assert!(s.get_mo3(2).unwrap().is_dnf());
}

#[test]
fn ao5_drops_best_and_worst() {
    let s = session_of(&[
        (10_000, None),
        (12_000, None),
        (9_000, None),
        (100_000, None),
        (11_000, None),
    ]);
    for i in 0..4 {
        assert_eq!(s.get_ao5(i), None);
    }
    assert_eq!(s.get_ao5(4), timed(11_000 * MS));
    assert_eq!(s.last_ao5(), timed(11_000 * MS));
    assert_eq!(s.get_ao5(4).unwrap().display(), "11.00");
}

#[test]
fn ao5_tolerates_one_dnf() {
    let s = session_of(&[
        (10_000, None),
        (12_000, None),
        (9_000, None),
        (8_000, Some(Penalty::Dnf)),
        (11_000, None),
    ]);
    let ao5 = s.get_ao5(4).unwrap();
    assert!(!ao5.is_dnf());
    assert_eq!(ao5, SolveTime::new(11_000 * MS, None));
}

#[test]
fn ao5_with_two_dnfs_is_dnf() {
    let s = session_of(&[
        (10_000, None),
        (12_000, Some(Penalty::Dnf)),
        (9_000, None),
        (8_000, Some(Penalty::Dnf)),
        (11_000, None),
    ]);
    assert!(s.get_ao5(4).unwrap().is_dnf());
    assert_eq!(s.last_ao5(), Some(SolveTime::dnf()));
}

#[test]
fn ao5_with_ties() {
    let s = session_of(&[(10_000, None); 5]);
    assert_eq!(s.get_ao5(4), timed(10_000 * MS));
    let s = session_of(&[
        (9_000, None),
        (9_000, None),
        (10_000, None),
        (13_000, None),
        (13_000, None),
    ]);
    // drops one 9.00 and one 13.00: (9 + 10 + 13) / 3
    assert_eq!(s.get_ao5(4), timed(10_666_666_666));
}

#[test]
fn ao12_appears_with_the_twelfth_solve() {
    let times: Vec<(u64, Option<Penalty>)> = (1..=12).map(|k| (k * 1_000, None)).collect();
    let mut s = session_of(&times[..11]);
    assert_eq!(s.last_ao12(), None);
    for i in 0..11 {
        assert_eq!(s.get_ao12(i), None);
    }
    s.add_solve(solve(12_000, None));
    // 2 + 3 + ... + 11 = 65 seconds over 10
    assert_eq!(s.get_ao12(11), timed(6_500 * MS));
    assert_eq!(s.last_ao12(), timed(6_500 * MS));
    // each ao5 ending at i >= 4 averages i-2, i-1, i (one-based seconds)
    assert_eq!(s.get_ao5(4), timed(3_000 * MS));
    assert_eq!(s.get_ao5(11), timed(10_000 * MS));
}

#[test]
fn best_statistics() {
    let s = session_of(&[(10_000, None), (12_000, None)]);
    assert_eq!(s.best_mo3(), None);
    assert_eq!(s.best_ao5(), None);
    assert_eq!(s.best_ao12(), None);
    let s = session_of(&[
        (10_000, None),
        (13_000, None),
        (7_000, None),
        (9_000, Some(Penalty::Dnf)),
        (8_000, None),
        (8_000, None),
    ]);
    // mo3: 10.00, DNF, DNF, DNF
    assert_eq!(s.best_mo3(), timed(10_000 * MS));
    // ao5 at 4: drop 7 and DNF -> (10 + 13 + 8) / 3; at 5: drop 7 and DNF -> (13 + 8 + 8) / 3
    assert_eq!(s.best_ao5(), timed(9_666_666_666));
    assert_eq!(s.best_ao12(), None);
    let s = session_of(&[(1_000, Some(Penalty::Dnf)), (1_000, Some(Penalty::Dnf)), (1_000, None)]);
    assert_eq!(s.best_mo3(), Some(SolveTime::dnf()));
}

#[test]
fn editing_last_penalty_updates_only_the_last_entry() {
    let mut s = session_of(&[
        (10_000, None),
        (12_000, None),
        (9_000, None),
        (14_000, None),
        (11_000, None),
        (10_000, None),
    ]);
    let before: Vec<SessionEntry> = s.iter().cloned().collect();
    assert_eq!(s.last_ao5(), timed(11_000 * MS));
    s.set_last_penalty(Some(Penalty::Dnf));
    let after: Vec<SessionEntry> = s.iter().cloned().collect();
    for i in 0..5 {
        assert_eq!(before[i].mo3, after[i].mo3);
        assert_eq!(before[i].ao5, after[i].ao5);
        assert_eq!(before[i].ao12, after[i].ao12);
        assert_eq!(before[i].solve.time, after[i].solve.time);
    }
    assert_eq!(s.last_mo3(), Some(SolveTime::dnf()));
    // 12, 9, 14, 11, DNF: drop 9 and DNF
    assert_eq!(s.last_ao5(), timed(12_333_333_333));
    assert_eq!(s.last_solve().unwrap().time, SolveTime::new(10_000 * MS, Some(Penalty::Dnf)));
}

#[test]
fn editing_through_last_solve_mut() {
    let mut s = session_of(&[(10_000, None), (12_000, None), (11_000, None)]);
    s.last_solve_mut().unwrap().time.penalty = Some(Penalty::Plus2);
    s.update_statistics_last();
    assert_eq!(s.get_mo3(2), timed(11_666_666_666));
    s.update_statistics(0);
    assert_eq!(s.get_mo3(2), timed(11_666_666_666));
    let mut empty = Session::new();
    assert!(empty.last_solve_mut().is_none());
}

#[test]
fn penalty_edit_on_empty_session_does_nothing() {
    let mut s = Session::new();
    s.set_last_penalty(Some(Penalty::Dnf));
    assert_eq!(s.get_n_solves(), 0);
}

#[test]
fn queries_on_indices() {
    let s = session_of(&[(10_000, None), (12_000, Some(Penalty::Plus2))]);
    assert_eq!(s.get_n_solves(), 2);
    assert_eq!(s.get_solve(1).unwrap().time, SolveTime::new(12_000 * MS, Some(Penalty::Plus2)));
    assert!(s.get_solve(2).is_none());
    assert_eq!(s.last_solve().unwrap().time.time, 12_000 * MS);
    assert_eq!(s.iter().count(), 2);
    assert_eq!(s.iter().count(), 2);
    let empty = Session::new();
    assert!(empty.last_solve().is_none());
    assert_eq!(empty.last_mo3(), None);
    assert_eq!(empty.last_ao5(), None);
    assert_eq!(empty.last_ao12(), None);
    assert_eq!(empty.iter().count(), 0);
}

#[test]
fn window_functions_on_short_runs() {
    let s = session_of(&[(10_000, None), (12_000, None), (14_000, None)]);
    let entries: Vec<SessionEntry> = s.iter().cloned().collect();
    assert_eq!(mean_of_n(&entries[..0]), None);
    assert_eq!(mean_of_n(&entries[..1]), timed(10_000 * MS));
    assert_eq!(mean_of_n(&entries[..2]), timed(11_000 * MS));
    assert_eq!(average_of_n(&entries[..2]), None);
    assert_eq!(average_of_n(&entries[..3]), timed(12_000 * MS));
}
