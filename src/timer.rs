use vstd::prelude::*;

use crate::preferences::Theme;
use crate::session::{Session, SessionEntry, Solve};
use crate::solve_time::{Penalty, SolveTime, MAX_ELAPSED};

verus! {

/// How long the trigger must be held before the timer is ready, in nanoseconds.
pub const PRESS_START_INTERVAL: u64 = 500_000_000;

/// Where the timer stands in the course of an attempt.
#[derive(Clone, Copy, Debug, PartialEq, Eq, Structural)]
pub enum State {
    /// Waiting; `pressed` while the trigger is held but not yet long enough.
    Idle { pressed: bool },
    /// Held long enough: the attempt starts when the trigger is released.
    Ready,
    /// An attempt is running; `last_tick` is the instant of the last tick.
    Timing { last_tick: u64 },
    /// The attempt has just been stopped and recorded.
    Finished,
}

/// The buttons of the interface.
#[derive(Clone, Copy, Debug, PartialEq, Eq, Structural)]
pub enum ButtonType {
    SetOk,
    SetPlus2,
    SetDnf,
    SolveSummary { index: usize },
    DeleteSolve { index: usize },
}

/// The events the timer reacts to. Instants are nanoseconds of a monotonic
/// clock.
#[derive(Clone, Copy, Debug, PartialEq, Eq, Structural)]
pub enum Message {
    TriggerPress,
    TriggerRelease,
    /// The delayed wake-up armed by a press; `generation` names that press.
    TriggerTimeout { generation: u64 },
    Tick(u64),
    PenaltySelected(Option<Penalty>),
    ButtonPressed(ButtonType),
    SolveSelected { index: usize },
    ThemeSelected(Theme),
    Todo,
}

/// What the host has to do after an event.
#[derive(Clone, Copy, Debug, PartialEq, Eq, Structural)]
pub enum Action {
    Nothing,
    /// Deliver `TriggerTimeout { generation }` once `delay` nanoseconds have passed.
    ArmTimeout { generation: u64, delay: u64 },
}

/// The generation that follows `g`.
pub open spec fn next_generation(g: u64) -> u64 {
    if g == u64::MAX {
        0
    } else {
        (g + 1) as u64
    }
}

/// `a - b`, or zero when `b` is later.
pub open spec fn since(a: u64, b: u64) -> u64 {
    if a >= b {
        (a - b) as u64
    } else {
        0
    }
}

/// The elapsed time after a tick that adds `delta`, kept within `MAX_ELAPSED`.
pub open spec fn advanced(elapsed: u64, delta: u64) -> u64 {
    if elapsed + delta > MAX_ELAPSED {
        MAX_ELAPSED
    } else {
        (elapsed + delta) as u64
    }
}

/// A press at `now`: at rest it starts a hold and asks for a timeout; while
/// timing it stops the attempt and records it, stamped with `timestamp`;
/// otherwise nothing changes.
pub open spec fn press_step(
    pre: KubiaTimer,
    post: KubiaTimer,
    now: u64,
    timestamp: u64,
    r: Action,
) -> bool {
    if pre.spec_state() == (State::Idle { pressed: false }) {
        &&& post.spec_state() == (State::Idle { pressed: true })
        &&& post.pressed_at() == now
        &&& post.spec_generation() == next_generation(pre.spec_generation())
        &&& post.keeps_record(pre)
        &&& r == (Action::ArmTimeout {
            generation: post.spec_generation(),
            delay: PRESS_START_INTERVAL,
        })
    } else if pre.spec_state() is Timing {
        &&& post.spec_state() == State::Finished
        &&& post.linked()
        &&& post.pending() == pre.pending()
        &&& post.keeps_hold(pre)
        &&& post.entries().len() == pre.entries().len() + 1
        &&& post.entries().take(pre.entries().len() as int) == pre.entries()
        &&& post.entries().last().solve.time == pre.pending()
        &&& post.entries().last().solve.timestamp == timestamp
        &&& post.entries().last().solve.scramble@.len() == 0
        &&& r == Action::Nothing
    } else {
        post.unchanged_from(pre) && r == Action::Nothing
    }
}

/// A release at `now`: a hold that was too short ends (and its timeout goes
/// stale), a ready timer starts timing from `now`, a finished one comes to
/// rest; otherwise nothing changes.
pub open spec fn release_step(pre: KubiaTimer, post: KubiaTimer, now: u64, r: Action) -> bool {
    &&& r == Action::Nothing
    &&& post.keeps_record(pre)
    &&& post.pressed_at() == pre.pressed_at()
    &&& match pre.spec_state() {
        State::Idle { pressed: true } => {
            &&& post.spec_state() == (State::Idle { pressed: false })
            &&& post.spec_generation() == next_generation(pre.spec_generation())
        },
        State::Ready => {
            &&& post.spec_state() == (State::Timing { last_tick: now })
            &&& post.spec_generation() == pre.spec_generation()
        },
        State::Finished => {
            &&& post.spec_state() == (State::Idle { pressed: false })
            &&& post.spec_generation() == pre.spec_generation()
        },
        _ => post.unchanged_from(pre),
    }
}

/// The timeout of hold `generation` fires at `now`: if that hold is still on
/// and has lasted long enough, the timer becomes ready with a fresh attempt
/// of zero time; otherwise nothing changes.
pub open spec fn timeout_step(
    pre: KubiaTimer,
    post: KubiaTimer,
    generation: u64,
    now: u64,
    r: Action,
) -> bool {
    &&& r == Action::Nothing
    &&& if pre.spec_state() == (State::Idle { pressed: true }) && generation
        == pre.spec_generation() && since(now, pre.pressed_at()) >= PRESS_START_INTERVAL {
        &&& post.spec_state() == State::Ready
        &&& post.pending() == (SolveTime { time: 0, penalty: None })
        &&& post.linked() == pre.linked()
        &&& post.entries() == pre.entries()
        &&& post.keeps_hold(pre)
    } else {
        post.unchanged_from(pre)
    }
}

/// A tick at `now`: while timing, the time since the previous tick is added
/// to the attempt (up to `MAX_ELAPSED`); otherwise nothing changes.
pub open spec fn tick_step(pre: KubiaTimer, post: KubiaTimer, now: u64, r: Action) -> bool {
    &&& r == Action::Nothing
    &&& match pre.spec_state() {
        State::Timing { last_tick } => {
            &&& post.spec_state() == (State::Timing { last_tick: now })
            &&& post.pending() == (SolveTime {
                time: advanced(pre.pending().time, since(now, last_tick)),
                ..pre.pending()
            })
            &&& post.linked() == pre.linked()
            &&& post.entries() == pre.entries()
            &&& post.keeps_hold(pre)
        },
        _ => post.unchanged_from(pre),
    }
}

/// A penalty is chosen: it goes to the pending attempt and, once an attempt
/// has been recorded, to the last attempt of the session; every earlier entry
/// stays as it was.
pub open spec fn penalty_step(
    pre: KubiaTimer,
    post: KubiaTimer,
    penalty: Option<Penalty>,
    r: Action,
) -> bool {
    let n = pre.entries().len() as int;
    &&& r == Action::Nothing
    &&& post.pending() == (SolveTime { penalty, ..pre.pending() })
    &&& post.linked() == pre.linked()
    &&& post.keeps_hold(pre)
    &&& post.spec_state() == pre.spec_state()
    &&& post.entries().len() == n
    &&& forall|i: int| 0 <= i < n - 1 ==> #[trigger] post.entries()[i] == pre.entries()[i]
    &&& n > 0 ==> post.entries().last().solve == if pre.linked() {
        Solve {
            time: SolveTime { penalty, ..pre.entries().last().solve.time },
            ..pre.entries().last().solve
        }
    } else {
        pre.entries().last().solve
    }
    &&& !pre.linked() ==> post.entries() == pre.entries()
}

/// One event, handled by the step it calls for; the others change nothing.
pub open spec fn message_step(
    pre: KubiaTimer,
    post: KubiaTimer,
    message: Message,
    now: u64,
    timestamp: u64,
    r: Action,
) -> bool {
    match message {
        Message::TriggerPress => press_step(pre, post, now, timestamp, r),
        Message::TriggerRelease => release_step(pre, post, now, r),
        Message::TriggerTimeout { generation } => timeout_step(pre, post, generation, now, r),
        Message::Tick(at) => tick_step(pre, post, at, r),
        Message::PenaltySelected(penalty) => penalty_step(pre, post, penalty, r),
        _ => post.unchanged_from(pre) && r == Action::Nothing,
    }
}

/// The timing state machine together with the session it records into.
pub struct KubiaTimer {
    solve_time: SolveTime,
    link_to_last_solve: bool,
    last_pressed: u64,
    generation: u64,
    state: State,
    session: Session,
}

impl KubiaTimer {
    pub closed spec fn spec_state(&self) -> State {
        self.state
    }

    /// The attempt being timed, or the one that was timed last.
    pub closed spec fn pending(&self) -> SolveTime {
        self.solve_time
    }

    /// Whether a penalty selection also applies to the last recorded attempt.
    pub closed spec fn linked(&self) -> bool {
        self.link_to_last_solve
    }

    /// The instant of the press that began the current hold.
    pub closed spec fn pressed_at(&self) -> u64 {
        self.last_pressed
    }

    /// The generation of the current hold; a timeout of another is stale.
    pub closed spec fn spec_generation(&self) -> u64 {
        self.generation
    }

    pub closed spec fn entries(&self) -> Seq<SessionEntry> {
        self.session@
    }

    pub closed spec fn wf(&self) -> bool {
        &&& self.session.wf()
        &&& self.solve_time.time <= MAX_ELAPSED
    }

    /// A timer at rest with an empty session; `now` is the current instant.
    pub fn new(now: u64) -> (r: KubiaTimer)
        ensures
            r.wf(),
            r.spec_state() == (State::Idle { pressed: false }),
            r.pending() == (SolveTime { time: 0, penalty: None }),
            !r.linked(),
            r.pressed_at() == now,
            r.spec_generation() == 0,
            r.entries().len() == 0,
    {
        KubiaTimer {
            solve_time: SolveTime::default(),
            link_to_last_solve: false,
            last_pressed: now,
            generation: 0,
            state: State::Idle { pressed: false },
            session: Session::new(),
        }
    }

    pub fn state(&self) -> (r: State)
        ensures
            r == self.spec_state(),
    {
        self.state
    }

    pub fn solve_time(&self) -> (r: SolveTime)
        ensures
            r == self.pending(),
    {
        self.solve_time
    }

    pub fn link_to_last_solve(&self) -> (r: bool)
        ensures
            r == self.linked(),
    {
        self.link_to_last_solve
    }

    pub fn generation(&self) -> (r: u64)
        ensures
            r == self.spec_generation(),
    {
        self.generation
    }

    pub fn session(&self) -> (r: &Session)
        ensures
            r@ == self.entries(),
            self.wf() ==> r.wf(),
    {
        &self.session
    }

    /// `self` holds the same attempt, link and session as `other`.
    pub open spec fn keeps_record(&self, other: KubiaTimer) -> bool {
        &&& self.pending() == other.pending()
        &&& self.linked() == other.linked()
        &&& self.entries() == other.entries()
    }

    /// `self` holds the same press instant and generation as `other`.
    pub open spec fn keeps_hold(&self, other: KubiaTimer) -> bool {
        &&& self.pressed_at() == other.pressed_at()
        &&& self.spec_generation() == other.spec_generation()
    }

    /// `self` is `other` in every respect.
    pub open spec fn unchanged_from(&self, other: KubiaTimer) -> bool {
        &&& self.keeps_record(other)
        &&& self.keeps_hold(other)
        &&& self.spec_state() == other.spec_state()
    }

    /// The trigger went down at `now`. At rest this starts a hold and asks for
    /// a timeout; while timing it stops the attempt and records it, stamped
    /// with the wall-clock `timestamp`.
    pub fn on_press(&mut self, now: u64, timestamp: u64) -> (r: Action)
        requires
            old(self).wf(),
        ensures
            final(self).wf(),
            press_step(*old(self), *final(self), now, timestamp, r),
    {
        match self.state {
            State::Idle { pressed: false } => {
                self.state = State::Idle { pressed: true };
                self.last_pressed = now;
                self.generation = if self.generation == u64::MAX {
                    0
                } else {
                    self.generation + 1
                };
                Action::ArmTimeout { generation: self.generation, delay: PRESS_START_INTERVAL }
            },
            State::Timing { .. } => {
                let solve = Solve {
                    time: self.solve_time,
                    timestamp,
                    scramble: String::new(),
                };
                self.session.add_solve(solve);
                self.link_to_last_solve = true;
                self.state = State::Finished;
                Action::Nothing
            },
            _ => Action::Nothing,
        }
    }

    /// The trigger went up at `now`. A hold that was too short ends without
    /// effect, a ready timer starts timing, and a finished one comes to rest.
    pub fn on_release(&mut self, now: u64) -> (r: Action)
        requires
            old(self).wf(),
        ensures
            final(self).wf(),
            release_step(*old(self), *final(self), now, r),
    {
        match self.state {
            State::Idle { pressed: true } => {
                self.state = State::Idle { pressed: false };
                self.generation = if self.generation == u64::MAX {
                    0
                } else {
                    self.generation + 1
                };
            },
            State::Ready => {
                self.state = State::Timing { last_tick: now };
            },
            State::Finished => {
                self.state = State::Idle { pressed: false };
            },
            _ => {},
        }
        Action::Nothing
    }

    /// The timeout of hold `generation` fired at `now`. If that hold is still
    /// on and has lasted long enough, the timer becomes ready with a fresh
    /// attempt of zero time.
    pub fn on_timeout(&mut self, generation: u64, now: u64) -> (r: Action)
        requires
            old(self).wf(),
        ensures
            final(self).wf(),
            timeout_step(*old(self), *final(self), generation, now, r),
    {
        match self.state {
            State::Idle { pressed: true } => {
                let held = if now >= self.last_pressed {
                    now - self.last_pressed
                } else {
                    0
                };
                if generation == self.generation && held >= PRESS_START_INTERVAL {
                    self.solve_time = SolveTime::default();
                    self.state = State::Ready;
                }
            },
            _ => {},
        }
        Action::Nothing
    }

    /// A clock tick at `now`. While timing, the time since the previous tick
    /// is added to the attempt.
    pub fn on_tick(&mut self, now: u64) -> (r: Action)
        requires
            old(self).wf(),
        ensures
            final(self).wf(),
            tick_step(*old(self), *final(self), now, r),
    {
        match self.state {
            State::Timing { last_tick } => {
                let delta = if now >= last_tick {
                    now - last_tick
                } else {
                    0
                };
                let room = MAX_ELAPSED - self.solve_time.time;
                self.solve_time.time = if delta > room {
                    MAX_ELAPSED
                } else {
                    self.solve_time.time + delta
                };
                self.state = State::Timing { last_tick: now };
            },
            _ => {},
        }
        Action::Nothing
    }

    /// A penalty was chosen. It goes to the pending attempt and, once an
    /// attempt has been recorded, to the last attempt of the session, whose
    /// statistics follow.
    pub fn on_penalty_selected(&mut self, penalty: Option<Penalty>) -> (r: Action)
        requires
            old(self).wf(),
        ensures
            final(self).wf(),
            penalty_step(*old(self), *final(self), penalty, r),
    {
        self.solve_time.penalty = penalty;
        if self.link_to_last_solve {
            self.session.set_last_penalty(penalty);
        }
        Action::Nothing
    }

    /// Handles one event: `now` is the current monotonic instant and
    /// `timestamp` the wall-clock time, used to stamp a recorded attempt.
    /// Events that mean nothing in the current state change nothing.
    pub fn update(&mut self, message: Message, now: u64, timestamp: u64) -> (r: Action)
        requires
            old(self).wf(),
        ensures
            final(self).wf(),
            message_step(*old(self), *final(self), message, now, timestamp, r),
    {
        match message {
            Message::TriggerPress => self.on_press(now, timestamp),
            Message::TriggerRelease => self.on_release(now),
            Message::TriggerTimeout { generation } => self.on_timeout(generation, now),
            Message::Tick(at) => self.on_tick(at),
            Message::PenaltySelected(penalty) => self.on_penalty_selected(penalty),
            _ => Action::Nothing,
        }
    }
}

/// A hold that lasts the full interval makes the timer ready: from rest, a
/// press followed by its own timeout at least `PRESS_START_INTERVAL` later.
pub proof fn lemma_full_hold_gets_ready(
    a: KubiaTimer,
    b: KubiaTimer,
    c: KubiaTimer,
    pressed: u64,
    fired: u64,
    timestamp: u64,
    r1: Action,
    r2: Action,
)
    requires
        a.spec_state() == (State::Idle { pressed: false }),
        press_step(a, b, pressed, timestamp, r1),
        timeout_step(b, c, r1->generation, fired, r2),
        fired >= pressed + PRESS_START_INTERVAL,
    ensures
        c.spec_state() == State::Ready,
        c.pending() == (SolveTime { time: 0, penalty: None }),
{
}

/// A hold released early never makes the timer ready: the timeout it armed
/// finds the timer at rest, and stays stale after a new press.
pub proof fn lemma_released_hold_never_gets_ready(
    a: KubiaTimer,
    b: KubiaTimer,
    c: KubiaTimer,
    d: KubiaTimer,
    e: KubiaTimer,
    f: KubiaTimer,
    pressed: u64,
    released: u64,
    pressed_again: u64,
    fired: u64,
    timestamp: u64,
    r1: Action,
    r2: Action,
    r3: Action,
    r4: Action,
    r5: Action,
)
    requires
        a.spec_state() == (State::Idle { pressed: false }),
        press_step(a, b, pressed, timestamp, r1),
        release_step(b, c, released, r2),
        timeout_step(c, d, r1->generation, fired, r3),
        press_step(c, e, pressed_again, timestamp, r4),
        timeout_step(e, f, r1->generation, fired, r5),
    ensures
        d.spec_state() == (State::Idle { pressed: false }),
        f.spec_state() == (State::Idle { pressed: true }),
{
}

/// Ticks measure time exactly: while timing, and below `MAX_ELAPSED`, each
/// tick at an instant no earlier than the last adds exactly the time between
/// them, so the attempt's time minus the last tick's instant stays the same.
pub proof fn lemma_tick_adds_exact_delta(pre: KubiaTimer, post: KubiaTimer, now: u64, r: Action)
    requires
        pre.spec_state() matches State::Timing { last_tick } && now >= last_tick
            && pre.pending().time + (now - last_tick) <= MAX_ELAPSED,
        tick_step(pre, post, now, r),
    ensures
        post.spec_state() == (State::Timing { last_tick: now }),
        post.pending().time == pre.pending().time + (now - pre.spec_state()->last_tick),
        post.pending().time - now == pre.pending().time - pre.spec_state()->last_tick,
        post.pending().penalty == pre.pending().penalty,
{
}

/// A run of ticks measures the whole span: starting from timing with the
/// last tick at `start`, after ticks at the non-decreasing instants `at`
/// (staying below `MAX_ELAPSED`) the attempt has gained exactly the time from
/// `start` to the last tick, the sum of the gaps between ticks.
pub proof fn lemma_ticks_sum_to_span(
    timers: Seq<KubiaTimer>,
    at: Seq<u64>,
    actions: Seq<Action>,
    start: u64,
)
    requires
        at.len() > 0,
        timers.len() == at.len() + 1,
        actions.len() == at.len(),
        timers[0].spec_state() == (State::Timing { last_tick: start }),
        start <= at[0],
        forall|i: int| 0 <= i < at.len() - 1 ==> #[trigger] at[i] <= at[i + 1],
        forall|i: int|
            0 <= i < at.len() ==> #[trigger] tick_step(timers[i], timers[i + 1], at[i], actions[i]),
        timers[0].pending().time + (at.last() - start) <= MAX_ELAPSED,
    ensures
        timers.last().spec_state() == (State::Timing { last_tick: at.last() }),
        timers.last().pending().time == timers[0].pending().time + (at.last() - start),
    decreases at.len(),
{
    if at.len() > 1 {
        let n = at.len() - 1;
        let ts = timers.take(n + 1);
        let xs = at.take(n);
        let acts = actions.take(n);
        assert forall|i: int| 0 <= i < xs.len() - 1 implies #[trigger] xs[i] <= xs[i + 1] by {
            assert(at[i] <= at[i + 1]);
        }
        assert forall|i: int| 0 <= i < xs.len() implies #[trigger] tick_step(
            ts[i],
            ts[i + 1],
            xs[i],
            acts[i],
        ) by {
            assert(tick_step(timers[i], timers[i + 1], at[i], actions[i]));
        }
        assert(at[n - 1] <= at[n]);
        lemma_ticks_sum_to_span(ts, xs, acts, start);
        assert(tick_step(timers[n], timers[n + 1], at[n], actions[n]));
    } else {
        assert(tick_step(timers[0], timers[1], at[0], actions[0]));
    }
}

/// An attempt records exactly the span it was timed for: from timing with the
/// last tick at `start`, a run of `Tick` events at the non-decreasing instants
/// `at` (staying below `MAX_ELAPSED`) followed by a press appends one entry
/// whose time is the pending time plus the time from `start` to the last tick,
/// leaves every earlier entry as it was, and finishes the attempt.
pub proof fn lemma_timed_attempt_records_span(
    timers: Seq<KubiaTimer>,
    at: Seq<u64>,
    nows: Seq<u64>,
    stamps: Seq<u64>,
    actions: Seq<Action>,
    start: u64,
    done: KubiaTimer,
    press_now: u64,
    press_stamp: u64,
    press_action: Action,
)
    requires
        at.len() > 0,
        timers.len() == at.len() + 1,
        actions.len() == at.len(),
        nows.len() == at.len(),
        stamps.len() == at.len(),
        timers[0].spec_state() == (State::Timing { last_tick: start }),
        start <= at[0],
        forall|i: int| 0 <= i < at.len() - 1 ==> #[trigger] at[i] <= at[i + 1],
        forall|i: int|
            0 <= i < at.len() ==> #[trigger] message_step(
                timers[i],
                timers[i + 1],
                Message::Tick(at[i]),
                nows[i],
                stamps[i],
                actions[i],
            ),
        timers[0].pending().time + (at.last() - start) <= MAX_ELAPSED,
        message_step(timers.last(), done, Message::TriggerPress, press_now, press_stamp, press_action),
    ensures
        done.spec_state() == State::Finished,
        done.entries().len() == timers[0].entries().len() + 1,
        done.entries().take(timers[0].entries().len() as int) == timers[0].entries(),
        done.entries().last().solve.time.time == timers[0].pending().time + (at.last() - start),
        done.entries().last().solve.timestamp == press_stamp,
{
    assert forall|i: int| 0 <= i < at.len() implies #[trigger] tick_step(
        timers[i],
        timers[i + 1],
        at[i],
        actions[i],
    ) by {
        assert(message_step(
            timers[i],
            timers[i + 1],
            Message::Tick(at[i]),
            nows[i],
            stamps[i],
            actions[i],
        ));
    }
    lemma_ticks_sum_to_span(timers, at, actions, start);
    lemma_ticks_keep_entries(timers, at, actions, at.len() as int);
}

/// Ticks leave the recorded entries alone.
proof fn lemma_ticks_keep_entries(timers: Seq<KubiaTimer>, at: Seq<u64>, actions: Seq<Action>, k: int)
    requires
        0 <= k <= at.len(),
        timers.len() == at.len() + 1,
        actions.len() == at.len(),
        forall|i: int|
            0 <= i < at.len() ==> #[trigger] tick_step(timers[i], timers[i + 1], at[i], actions[i]),
    ensures
        timers[k].entries() == timers[0].entries(),
    decreases k,
{
    if k > 0 {
        lemma_ticks_keep_entries(timers, at, actions, k - 1);
        let j = k - 1;
        assert(tick_step(timers[j], timers[j + 1], at[j], actions[j]));
    }
}

} // verus!
