use vstd::prelude::*;

verus! {

/// Nanoseconds in one second.
pub const NANOS_PER_SEC: u64 = 1_000_000_000;

/// Nanoseconds in one centisecond, the resolution of a displayed time.
pub const NANOS_PER_CENTI: u64 = 10_000_000;

/// The time that a `+2` penalty adds, in nanoseconds.
pub const PLUS_TWO_NANOS: u64 = 2_000_000_000;

/// The largest elapsed time a recorded attempt may hold (a little over 584
/// years): with the `+2` penalty added it still fits in a `u64`.
pub const MAX_ELAPSED: u64 = 18_446_744_071_709_551_615;

/// A penalty given to an attempt.
#[derive(Clone, Copy, Debug, PartialEq, Eq, Structural)]
pub enum Penalty {
    /// Two seconds are added to the attempt.
    Plus2,
    /// The attempt did not finish and has no ranked time.
    Dnf,
}

/// One measured attempt: the elapsed time in nanoseconds and an optional penalty.
#[derive(Clone, Copy, Debug, PartialEq, Eq, Structural)]
pub struct SolveTime {
    pub time: u64,
    pub penalty: Option<Penalty>,
}

impl SolveTime {
    /// The time that ranks the attempt: `None` for a DNF, the elapsed time with
    /// two seconds added for `+2`, the elapsed time otherwise.
    pub open spec fn recorded(self) -> Option<int> {
        match self.penalty {
            Some(Penalty::Dnf) => None,
            Some(Penalty::Plus2) => Some(self.time + PLUS_TWO_NANOS),
            None => Some(self.time as int),
        }
    }

    pub open spec fn spec_is_dnf(&self) -> bool {
        self.penalty == Some(Penalty::Dnf)
    }

    /// The strict order of attempts: a smaller recorded time is better, and a
    /// DNF is worse than every finished attempt.
    pub open spec fn faster_than(self, other: SolveTime) -> bool {
        match (self.recorded(), other.recorded()) {
            (Some(a), Some(b)) => a < b,
            (Some(_), None) => true,
            _ => false,
        }
    }

    /// Whether the recorded time of this attempt fits in a `u64`.
    pub open spec fn fits(self) -> bool {
        self.penalty == Some(Penalty::Plus2) ==> self.time <= MAX_ELAPSED
    }

    pub fn new(time: u64, penalty: Option<Penalty>) -> (r: SolveTime)
        ensures
            r.time == time,
            r.penalty == penalty,
    {
        SolveTime { time, penalty }
    }

    /// The result of a statistic whose window holds too many DNFs.
    pub fn dnf() -> (r: SolveTime)
        ensures
            r.time == 0,
            r.penalty == Some(Penalty::Dnf),
    {
        SolveTime { time: 0, penalty: Some(Penalty::Dnf) }
    }

    #[verifier::when_used_as_spec(spec_is_dnf)]
    pub fn is_dnf(&self) -> (r: bool)
        ensures
            r == self.spec_is_dnf(),
    {
        match self.penalty {
            Some(Penalty::Dnf) => true,
            _ => false,
        }
    }

    pub fn is_plus2(&self) -> (r: bool)
        ensures
            r == (self.penalty == Some(Penalty::Plus2)),
    {
        match self.penalty {
            Some(Penalty::Plus2) => true,
            _ => false,
        }
    }

    /// The recorded time in nanoseconds, `None` for a DNF.
    pub fn recorded_time(&self) -> (r: Option<u64>)
        requires
            self.fits(),
        ensures
            r is None <==> self.recorded() is None,
            r matches Some(t) ==> self.recorded() == Some(t as int),
    {
        match self.penalty {
            Some(Penalty::Dnf) => None,
            Some(Penalty::Plus2) => Some(self.time + PLUS_TWO_NANOS),
            None => Some(self.time),
        }
    }

    /// The recorded time widened so that it always fits, `None` for a DNF.
    pub(crate) fn recorded_wide(&self) -> (r: Option<u128>)
        ensures
            r is None <==> self.recorded() is None,
            r matches Some(t) ==> self.recorded() == Some(t as int),
            r matches Some(t) ==> t <= u64::MAX + PLUS_TWO_NANOS,
    {
        match self.penalty {
            Some(Penalty::Dnf) => None,
            Some(Penalty::Plus2) => Some(self.time as u128 + PLUS_TWO_NANOS as u128),
            None => Some(self.time as u128),
        }
    }

    /// Compares two attempts: `Less` when `self` is the better one.
    /// Two DNFs compare as equal, as do two finished attempts with the same
    /// recorded time.
    pub fn compare(&self, other: &SolveTime) -> (r: core::cmp::Ordering)
        ensures
            (r == core::cmp::Ordering::Less) == self.faster_than(*other),
            (r == core::cmp::Ordering::Greater) == other.faster_than(*self),
    {
        match (self.recorded_wide(), other.recorded_wide()) {
            (Some(a), Some(b)) => {
                if a < b {
                    core::cmp::Ordering::Less
                } else if b < a {
                    core::cmp::Ordering::Greater
                } else {
                    core::cmp::Ordering::Equal
                }
            },
            (Some(_), None) => core::cmp::Ordering::Less,
            (None, Some(_)) => core::cmp::Ordering::Greater,
            (None, None) => core::cmp::Ordering::Equal,
        }
    }
}

/// The decimal digit `d` (below ten) as a character.
pub open spec fn digit_char(d: nat) -> char {
    if d == 0 { '0' }
    else if d == 1 { '1' }
    else if d == 2 { '2' }
    else if d == 3 { '3' }
    else if d == 4 { '4' }
    else if d == 5 { '5' }
    else if d == 6 { '6' }
    else if d == 7 { '7' }
    else if d == 8 { '8' }
    else { '9' }
}

/// `n` written in decimal, without leading zeros.
pub open spec fn decimal(n: nat) -> Seq<char>
    decreases n,
{
    if n < 10 {
        seq![digit_char(n)]
    } else {
        decimal(n / 10) + seq![digit_char(n % 10)]
    }
}

/// `n` (below a hundred) written with exactly two digits.
pub open spec fn two_digits(n: nat) -> Seq<char> {
    seq![digit_char(n / 10), digit_char(n % 10)]
}

/// How an attempt is shown: `DNF`; or the recorded time truncated to
/// centiseconds, as `m:ss.cc` from a minute on and as `s.cc` below, followed
/// by `+` for a `+2` penalty.
pub open spec fn display_chars(st: SolveTime) -> Seq<char> {
    match st.recorded() {
        None => seq!['D', 'N', 'F'],
        Some(t) => {
            let secs = (t / NANOS_PER_SEC as int) as nat;
            let centis = ((t % NANOS_PER_SEC as int) / NANOS_PER_CENTI as int) as nat;
            let whole = if secs >= 60 {
                decimal(secs / 60) + seq![':'] + two_digits(secs % 60)
            } else {
                decimal(secs)
            };
            let mark = if st.penalty == Some(Penalty::Plus2) {
                seq!['+']
            } else {
                Seq::<char>::empty()
            };
            whole + seq!['.'] + two_digits(centis) + mark
        },
    }
}

/// The digit `d` as a one-character string.
fn digit_str(d: u128) -> (r: &'static str)
    requires
        d < 10,
    ensures
        r@ == seq![digit_char(d as nat)],
{
    proof {
        reveal_strlit("0");
        reveal_strlit("1");
        reveal_strlit("2");
        reveal_strlit("3");
        reveal_strlit("4");
        reveal_strlit("5");
        reveal_strlit("6");
        reveal_strlit("7");
        reveal_strlit("8");
        reveal_strlit("9");
    }
    if d == 0 { "0" }
    else if d == 1 { "1" }
    else if d == 2 { "2" }
    else if d == 3 { "3" }
    else if d == 4 { "4" }
    else if d == 5 { "5" }
    else if d == 6 { "6" }
    else if d == 7 { "7" }
    else if d == 8 { "8" }
    else { "9" }
}

/// Appends `n` in decimal.
fn push_decimal(out: &mut String, n: u128)
    ensures
        final(out)@ == old(out)@ + decimal(n as nat),
    decreases n,
{
    if n >= 10 {
        push_decimal(out, n / 10);
    }
    out.append(digit_str(n % 10));
    assert(n >= 10 ==> decimal(n as nat) == decimal((n / 10) as nat) + seq![digit_char((n % 10) as nat)]);
}

/// Appends `n` (below a hundred) with exactly two digits.
fn push_two_digits(out: &mut String, n: u128)
    requires
        n < 100,
    ensures
        final(out)@ == old(out)@ + two_digits(n as nat),
{
    out.append(digit_str(n / 10));
    out.append(digit_str(n % 10));
}

impl SolveTime {
    /// The attempt as text, for instance `2:06.01+`, `9.87` or `DNF`.
    pub fn display(&self) -> (r: String)
        ensures
            r@ == display_chars(*self),
    {
        let mut out = String::new();
        match self.recorded_wide() {
            None => {
                proof {
                    reveal_strlit("DNF");
                }
                out.append("DNF");
            },
            Some(t) => {
                let secs = t / NANOS_PER_SEC as u128;
                let frac = t % NANOS_PER_SEC as u128;
                let centis = frac / NANOS_PER_CENTI as u128;
                assert(centis < 100) by (nonlinear_arith)
                    requires
                        frac < 1_000_000_000,
                        centis == frac / 10_000_000,
                ;
                if secs >= 60 {
                    push_decimal(&mut out, secs / 60);
                    proof {
                        reveal_strlit(":");
                    }
                    out.append(":");
                    push_two_digits(&mut out, secs % 60);
                } else {
                    push_decimal(&mut out, secs);
                }
                proof {
                    reveal_strlit(".");
                }
                out.append(".");
                push_two_digits(&mut out, centis);
                if self.is_plus2() {
                    proof {
                        reveal_strlit("+");
                    }
                    out.append("+");
                }
            },
        }
        out
    }
}

impl Default for SolveTime {
    fn default() -> (r: SolveTime)
        ensures
            r.time == 0,
            r.penalty is None,
    {
        SolveTime { time: 0, penalty: None }
    }
}

/// Among finished attempts, one is better than another exactly when its
/// recorded time is smaller; every finished attempt is better than a DNF.
pub proof fn lemma_order_follows_recorded_time(a: SolveTime, b: SolveTime)
    ensures
        !a.spec_is_dnf() && !b.spec_is_dnf() ==> (a.faster_than(b) <==> a.recorded().unwrap()
            < b.recorded().unwrap()),
        !a.spec_is_dnf() && b.spec_is_dnf() ==> a.faster_than(b),
{
}

} // verus!
