use kubia_timer::timer::PRESS_START_INTERVAL;
use kubia_timer::{
    Action, ButtonType, KTApplication, KubiaTimer, Message, Penalty, SolveTime, State, Theme,
};

const MS: u64 = 1_000_000;

fn armed_generation(a: Action) -> u64 {
    match a {
        Action::ArmTimeout { generation, delay } => {
            assert_eq!(delay, PRESS_START_INTERVAL);
            generation
        }
        Action::Nothing => panic!("expected a timeout to be armed"),
    }
}

/// Runs a whole attempt of `ticks` ticks, `step` apart, starting at `t0`.
fn run_attempt(timer: &mut KubiaTimer, t0: u64, ticks: u64, step: u64) -> u64 {
    let g = armed_generation(timer.update(Message::TriggerPress, t0, 7));
    timer.update(Message::TriggerTimeout { generation: g }, t0 + 600 * MS, 7);
    assert_eq!(timer.state(), State::Ready);
    let start = t0 + 700 * MS;
    timer.update(Message::TriggerRelease, start, 7);
    assert_eq!(timer.state(), State::Timing { last_tick: start });
    let mut now = start;
    for _ in 0..ticks {
        now += step;
        timer.update(Message::Tick(now), now, 7);
    }
    timer.update(Message::TriggerPress, now + 3 * MS, 1_700_000_000_000);
    assert_eq!(timer.state(), State::Finished);
    timer.update(Message::TriggerRelease, now + 4 * MS, 7);
    assert_eq!(timer.state(), State::Idle { pressed: false });
    now + 4 * MS
}

#[test]
fn long_hold_gets_ready() {
    let mut timer = KubiaTimer::new(0);
    assert_eq!(timer.state(), State::Idle { pressed: false });
    let g = armed_generation(timer.update(Message::TriggerPress, 1_000 * MS, 0));
    assert_eq!(timer.state(), State::Idle { pressed: true });
    assert_eq!(g, timer.generation());
    let a = timer.update(Message::TriggerTimeout { generation: g }, 1_600 * MS, 0);
    assert_eq!(a, Action::Nothing);
    assert_eq!(timer.state(), State::Ready);
    assert_eq!(timer.solve_time(), SolveTime::new(0, None));
}

#[test]
fn short_hold_never_gets_ready() {
    let mut timer = KubiaTimer::new(0);
    let g = armed_generation(timer.update(Message::TriggerPress, 1_000 * MS, 0));
    timer.update(Message::TriggerRelease, 1_300 * MS, 0);
    assert_eq!(timer.state(), State::Idle { pressed: false });
    timer.update(Message::TriggerTimeout { generation: g }, 1_500 * MS, 0);
    assert_eq!(timer.state(), State::Idle { pressed: false });
    // a new hold does not revive the old timeout
    let g2 = armed_generation(timer.update(Message::TriggerPress, 1_400 * MS, 0));
    assert_ne!(g, g2);
    timer.update(Message::TriggerTimeout { generation: g }, 1_500 * MS, 0);
    assert_eq!(timer.state(), State::Idle { pressed: true });
    timer.update(Message::TriggerTimeout { generation: g2 }, 1_900 * MS, 0);
    assert_eq!(timer.state(), State::Ready);
}

#[test]
fn early_timeout_is_ignored() {
    let mut timer = KubiaTimer::new(0);
    let g = armed_generation(timer.update(Message::TriggerPress, 1_000 * MS, 0));
    timer.update(Message::TriggerTimeout { generation: g }, 1_499 * MS, 0);
    assert_eq!(timer.state(), State::Idle { pressed: true });
    timer.update(Message::TriggerTimeout { generation: g }, 1_500 * MS, 0);
    assert_eq!(timer.state(), State::Ready);
}

#[test]
fn repeated_press_while_held_changes_nothing() {
    let mut timer = KubiaTimer::new(0);
    let g = armed_generation(timer.update(Message::TriggerPress, 1_000 * MS, 0));
    assert_eq!(timer.update(Message::TriggerPress, 1_200 * MS, 0), Action::Nothing);
    assert_eq!(timer.generation(), g);
    timer.update(Message::TriggerTimeout { generation: g }, 1_500 * MS, 0);
    assert_eq!(timer.state(), State::Ready);
}

#[test]
fn ticks_sum_to_elapsed_exactly() {
    let mut timer = KubiaTimer::new(0);
    run_attempt(&mut timer, 0, 50, 10 * MS);
    let session = timer.session();
    assert_eq!(session.get_n_solves(), 1);
    let solve = session.last_solve().unwrap();
    assert_eq!(solve.time, SolveTime::new(500 * MS, None));
    assert_eq!(solve.timestamp, 1_700_000_000_000);
    assert_eq!(solve.scramble, "");
    assert!(timer.link_to_last_solve());
}

#[test]
fn irregular_ticks_sum_to_elapsed() {
    let mut timer = KubiaTimer::new(0);
    let g = armed_generation(timer.update(Message::TriggerPress, 0, 0));
    timer.update(Message::TriggerTimeout { generation: g }, 500 * MS, 0);
    timer.update(Message::TriggerRelease, 800 * MS, 0);
    for t in [809, 821, 830, 845, 850] {
        timer.update(Message::Tick(t * MS + 3), 0, 0);
    }
    assert_eq!(timer.solve_time().time, 50 * MS + 3);
    // a tick from the past adds nothing
    timer.update(Message::Tick(840 * MS), 0, 0);
    assert_eq!(timer.solve_time().time, 50 * MS + 3);
    timer.update(Message::TriggerPress, 0, 0);
    assert_eq!(timer.session().last_solve().unwrap().time.time, 50 * MS + 3);
}

#[test]
fn ticks_outside_timing_are_ignored() {
    let mut timer = KubiaTimer::new(0);
    timer.update(Message::Tick(5 * MS), 0, 0);
    assert_eq!(timer.solve_time().time, 0);
    assert_eq!(timer.state(), State::Idle { pressed: false });
}

#[test]
fn penalty_applies_to_last_solve_after_finishing() {
    let mut timer = KubiaTimer::new(0);
    timer.update(Message::PenaltySelected(Some(Penalty::Plus2)), 0, 0);
    assert_eq!(timer.solve_time().penalty, Some(Penalty::Plus2));
    assert_eq!(timer.session().get_n_solves(), 0);
    let mut now = 0;
    for k in 0..3 {
        now = run_attempt(&mut timer, now, 100 + k * 10, 10 * MS);
    }
    // 1.00, 1.10, 1.20
    assert_eq!(timer.session().last_mo3(), Some(SolveTime::new(1_100 * MS, None)));
    timer.update(Message::PenaltySelected(Some(Penalty::Plus2)), now, 0);
    assert_eq!(
        timer.session().last_solve().unwrap().time,
        SolveTime::new(1_200 * MS, Some(Penalty::Plus2))
    );
    assert_eq!(timer.session().last_mo3(), Some(SolveTime::new(1_766_666_666, None)));
    assert_eq!(timer.session().get_solve(1).unwrap().time, SolveTime::new(1_100 * MS, None));
    timer.update(Message::PenaltySelected(None), now, 0);
    assert_eq!(timer.session().last_mo3(), Some(SolveTime::new(1_100 * MS, None)));
    timer.update(Message::PenaltySelected(Some(Penalty::Dnf)), now, 0);
    assert!(timer.session().last_mo3().unwrap().is_dnf());
}

#[test]
fn other_messages_change_nothing() {
    let mut timer = KubiaTimer::new(0);
    for m in [
        Message::Todo,
        Message::SolveSelected { index: 0 },
        Message::ButtonPressed(ButtonType::SetDnf),
        Message::ThemeSelected(Theme::Dark),
        Message::TriggerRelease,
    ] {
        assert_eq!(timer.update(m, 0, 0), Action::Nothing);
        assert_eq!(timer.state(), State::Idle { pressed: false });
    }
}

#[test]
fn application_selects_theme_and_runs_timer() {
    let mut app = KTApplication::new(0);
    assert_eq!(app.theme(), Theme::Light);
    app.update(Message::ThemeSelected(Theme::Tangible), 0, 0);
    assert_eq!(app.theme(), Theme::Tangible);
    assert_eq!(app.theme().name(), "Tangible");
    let a = app.update(Message::TriggerPress, 10, 0);
    assert!(matches!(a, Action::ArmTimeout { .. }));
    assert_eq!(app.timer().state(), State::Idle { pressed: true });
    assert_eq!(Theme::all(), vec![Theme::Light, Theme::Dark, Theme::Tangible]);
    assert_eq!(Theme::Dark.name(), "Dark");
    assert_eq!(Theme::Light.name(), "Light");
    assert_eq!(kubia_timer::Preferences::new().theme, Theme::Light);
    assert_eq!(kubia_timer::Preferences::default().theme, Theme::Light);
}
