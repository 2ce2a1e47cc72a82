use kubia_timer::solve_time::MAX_ELAPSED;
use kubia_timer::{Penalty, SolveTime};
use std::cmp::Ordering;

const MS: u64 = 1_000_000;

#[test]
fn display_plus2_over_a_minute() {
    let st = SolveTime::new(124_000 * MS + 10 * MS, Some(Penalty::Plus2));
    assert_eq!(st.display(), "2:06.01+");
}

#[test]
fn display_truncates_to_centiseconds() {
    assert_eq!(SolveTime::new(1_239 * MS, None).display(), "1.23");
    assert_eq!(SolveTime::new(9_999 * MS + 999_999, None).display(), "9.99");
}

#[test]
fn display_below_and_at_a_minute() {
    assert_eq!(SolveTime::new(9_870 * MS, None).display(), "9.87");
    assert_eq!(SolveTime::new(50 * MS, None).display(), "0.05");
    assert_eq!(SolveTime::new(0, None).display(), "0.00");
    assert_eq!(SolveTime::new(59_990 * MS, None).display(), "59.99");
    assert_eq!(SolveTime::new(60_000 * MS, None).display(), "1:00.00");
    assert_eq!(SolveTime::new(3_600_000 * MS, None).display(), "60:00.00");
    assert_eq!(SolveTime::new(58_500 * MS, Some(Penalty::Plus2)).display(), "1:00.50+");
}

#[test]
fn display_dnf() {
    assert_eq!(SolveTime::new(12_340 * MS, Some(Penalty::Dnf)).display(), "DNF");
    assert_eq!(SolveTime::dnf().display(), "DNF");
}

#[test]
fn recorded_time_by_penalty() {
    assert_eq!(SolveTime::new(5_000 * MS, None).recorded_time(), Some(5_000 * MS));
    assert_eq!(SolveTime::new(5_000 * MS, Some(Penalty::Plus2)).recorded_time(), Some(7_000 * MS));
    assert_eq!(SolveTime::new(5_000 * MS, Some(Penalty::Dnf)).recorded_time(), None);
    assert_eq!(
        SolveTime::new(MAX_ELAPSED, Some(Penalty::Plus2)).recorded_time(),
        Some(u64::MAX)
    );
}

#[test]
fn order_follows_recorded_time() {
    let a = SolveTime::new(10_000 * MS, None);
    let b = SolveTime::new(11_000 * MS, None);
    let c = SolveTime::new(9_500 * MS, Some(Penalty::Plus2));
    let d = SolveTime::new(1 * MS, Some(Penalty::Dnf));
    let e = SolveTime::new(99_000 * MS, Some(Penalty::Dnf));
    assert_eq!(a.compare(&b), Ordering::Less);
    assert_eq!(b.compare(&a), Ordering::Greater);
    // 9.50 + 2 = 11.50 is slower than 11.00
    assert_eq!(c.compare(&b), Ordering::Greater);
    assert_eq!(SolveTime::new(9_000 * MS, Some(Penalty::Plus2)).compare(&b), Ordering::Equal);
    assert_eq!(a.compare(&d), Ordering::Less);
    assert_eq!(d.compare(&c), Ordering::Greater);
    assert_eq!(d.compare(&e), Ordering::Equal);
}

#[test]
fn flags_and_default() {
    let st = SolveTime::default();
    assert_eq!(st.time, 0);
    assert_eq!(st.penalty, None);
    assert!(SolveTime::new(1, Some(Penalty::Plus2)).is_plus2());
    assert!(!SolveTime::new(1, Some(Penalty::Plus2)).is_dnf());
    assert!(SolveTime::new(1, Some(Penalty::Dnf)).is_dnf());
}
