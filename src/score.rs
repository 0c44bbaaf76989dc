use vstd::prelude::*;
use std::time::{Duration, SystemTime, SystemTimeError};
use vstd::string::StringExecFns;

verus! {

#[verifier::external_type_specification]
#[verifier::external_body]
pub struct ExSystemTime(SystemTime);

#[verifier::external_type_specification]
#[verifier::external_body]
pub struct ExSystemTimeError(SystemTimeError);

/// The character of a decimal digit.
pub open spec fn digit_char(d: nat) -> char {
    if d == 0 {
        '0'
    } else if d == 1 {
        '1'
    } else if d == 2 {
        '2'
    } else if d == 3 {
        '3'
    } else if d == 4 {
        '4'
    } else if d == 5 {
        '5'
    } else if d == 6 {
        '6'
    } else if d == 7 {
        '7'
    } else if d == 8 {
        '8'
    } else {
        '9'
    }
}

/// The decimal numeral of `n`, without leading zeros.
pub open spec fn decimal(n: nat) -> Seq<char>
    decreases n,
{
    if n < 10 {
        seq![digit_char(n)]
    } else {
        decimal(n / 10).push(digit_char(n % 10))
    }
}

/// Relies on std's `Display` for `u64` (through `to_string`): the decimal numeral.
#[verifier::external_body]
fn u64_to_decimal(n: u64) -> (r: String)
    ensures
        r@ == decimal(n as nat),
{
    n.to_string()
}

/// Relies on std's `SystemTime::now`: the clock's current reading.
#[verifier::external_body]
fn clock_now() -> (r: SystemTime) {
    SystemTime::now()
}

/// Relies on std's `SystemTime::elapsed`: the time since `t`, or an error when
/// the clock reads earlier than `t`.
#[verifier::external_body]
fn time_since(t: &SystemTime) -> (r: Result<Duration, SystemTimeError>) {
    t.elapsed()
}

/// Relies on std's `Duration::as_secs`: the whole seconds of a duration.
#[verifier::external_body]
fn whole_seconds(d: &Duration) -> (r: u64) {
    d.as_secs()
}

/// Renders a number for a clock face.
pub trait WithLeadingZeros {
    spec fn padded_spec(&self) -> Seq<char>;

    fn with_leading_zeros(&self) -> (r: String)
        ensures
            r@ == self.padded_spec(),
    ;
}

impl WithLeadingZeros for u64 {
    /// A zero goes before numbers below nine.
    open spec fn padded_spec(&self) -> Seq<char> {
        if *self < 9 {
            seq!['0'] + decimal(*self as nat)
        } else {
            decimal(*self as nat)
        }
    }

    fn with_leading_zeros(&self) -> (r: String) {
        let digits = u64_to_decimal(*self);
        if *self < 9 {
            let mut r = String::from_str("0");
            proof {
                reveal_strlit("0");
            }
            r.append(digits.as_str());
            r
        } else {
            digits
        }
    }
}

/// Splits a count of seconds into whole minutes and the seconds left over,
/// each rendered for a clock face.
pub fn clock_strings(seconds: u64) -> (r: (String, String))
    ensures
        r.0@ == (seconds / 60).padded_spec(),
        r.1@ == (seconds % 60).padded_spec(),
{
    let minutes = seconds / 60;
    let rest = seconds - minutes * 60;
    (minutes.with_leading_zeros(), rest.with_leading_zeros())
}

/// The clock face for a reading of the time elapsed: whole minutes and the
/// seconds left over; the clock's error, unchanged, when the reading failed.
pub fn elapsed_clock(elapsed: Result<u64, SystemTimeError>) -> (r: Result<(String, String), SystemTimeError>)
    ensures
        match elapsed {
            Err(e) => r == Err::<(String, String), SystemTimeError>(e),
            Ok(s) => r.is_ok() && r.unwrap().0@ == (s / 60).padded_spec() && r.unwrap().1@ == (s % 60).padded_spec(),
        },
{
    match elapsed {
        Ok(s) => Ok(clock_strings(s)),
        Err(err) => Err(err),
    }
}

/// The player's score and the time the run started.
pub struct ScoreTracker {
    score: i32,
    start_time: SystemTime,
}

impl ScoreTracker {
    /// The score, as the methods report it.
    pub closed spec fn current_score(&self) -> int {
        self.score as int
    }

    /// When the run started, as the methods keep it.
    pub closed spec fn start_time_spec(&self) -> SystemTime {
        self.start_time
    }

    /// A score of zero, with the clock started now.
    pub fn new() -> (r: ScoreTracker)
        ensures
            r.current_score() == 0,
    {
        ScoreTracker { score: 0, start_time: clock_now() }
    }

    /// Adds ten for every point.
    pub fn increase_score(&mut self, points: i32)
        requires
            i32::MIN <= old(self).current_score() + points * 10 <= i32::MAX,
        ensures
            final(self).current_score() == old(self).current_score() + points * 10,
            final(self).start_time_spec() == old(self).start_time_spec(),
    {
        self.score = (self.score as i64 + points as i64 * 10) as i32;
    }

    /// Minutes and seconds since the start, for a clock face; the clock's error
    /// when it reads earlier than the start.
    pub fn get_time_elapsed(&self) -> (r: Result<(String, String), SystemTimeError>)
        ensures
            r.is_ok() ==> exists|s: u64|
                r.unwrap().0@ == (s / 60).padded_spec() && r.unwrap().1@ == #[trigger] (s % 60).padded_spec(),
    {
        match time_since(&self.start_time) {
            Ok(duration) => elapsed_clock(Ok(whole_seconds(&duration))),
            Err(err) => elapsed_clock(Err(err)),
        }
    }

    pub fn get_current_score(&self) -> (r: i32)
        ensures
            r == self.current_score(),
    {
        self.score
    }
}

} // verus!
