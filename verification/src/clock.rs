//! Points in time as plain numbers, the time between two of them, and the
//! label under which a point in time is written into the clipboard history.
//!
//! The crate never reads a clock: every function that needs the current time
//! takes it as an argument.

use vstd::prelude::*;

verus! {

/// Nanoseconds in one second.
pub const NANOS_PER_SECOND: u32 = 1_000_000_000;

/// Seconds in one day.
pub const SECONDS_PER_DAY: u64 = 86_400;

/// A point in time in UTC: whole seconds since 1970-01-01 00:00:00, and the
/// nanoseconds after them.
#[derive(Clone, Copy, Debug, PartialEq, Eq, Structural)]
pub struct Timestamp {
    pub secs: i64,
    pub nanos: u32,
}

impl Timestamp {
    /// The point in time in nanoseconds since 1970-01-01 00:00:00.
    pub open spec fn instant(self) -> int {
        self.secs * NANOS_PER_SECOND + self.nanos
    }

    /// Computes `instant`.
    pub fn instant_nanos(&self) -> (n: i128)
        ensures
            n == self.instant(),
    {
        assert(NANOS_PER_SECOND == 1_000_000_000);
        self.secs as i128 * 1_000_000_000i128 + self.nanos as i128
    }
}

/// The whole seconds in a time of `nanos` nanoseconds, rounded towards zero.
pub open spec fn whole_seconds(nanos: int) -> int {
    if nanos >= 0 {
        nanos / (NANOS_PER_SECOND as int)
    } else {
        -((-nanos) / (NANOS_PER_SECOND as int))
    }
}

/// The age at `now` of something that happened at `then`, in whole seconds.
/// What lies in the future has age zero; an age beyond the largest `u64` is
/// given as that.
pub open spec fn age_seconds(now: Timestamp, then: Timestamp) -> int {
    let age = whole_seconds(now.instant() - then.instant());
    if age < 0 {
        0
    } else if age > u64::MAX {
        u64::MAX as int
    } else {
        age
    }
}

/// Computes `age_seconds`.
pub fn age_in_seconds(now: Timestamp, then: Timestamp) -> (age: u64)
    ensures
        age == age_seconds(now, then),
{
    let diff: i128 = now.instant_nanos() - then.instant_nanos();
    if diff < 0 {
        proof {
            assert(whole_seconds(diff as int) <= 0) by (nonlinear_arith)
                requires
                    diff < 0,
            ;
        }
        0
    } else {
        let secs: i128 = diff / (NANOS_PER_SECOND as i128);
        if secs > u64::MAX as i128 {
            u64::MAX
        } else {
            secs as u64
        }
    }
}

/// With time the age of a thing does not shrink.
pub proof fn lemma_age_grows(earlier: Timestamp, later: Timestamp, then: Timestamp)
    requires
        earlier.instant() <= later.instant(),
    ensures
        age_seconds(earlier, then) <= age_seconds(later, then),
{
    let a = earlier.instant() - then.instant();
    let b = later.instant() - then.instant();
    if a >= 0 {
        assert(a / 1_000_000_000 <= b / 1_000_000_000) by (nonlinear_arith)
            requires
                0 <= a <= b,
        ;
    } else {
        assert(whole_seconds(a) <= 0) by (nonlinear_arith)
            requires
                a < 0,
        ;
        if b >= 0 {
            assert(b / 1_000_000_000 >= 0) by (nonlinear_arith)
                requires
                    b >= 0,
            ;
        } else {
            assert(whole_seconds(b) <= 0) by (nonlinear_arith)
                requires
                    b < 0,
            ;
        }
    }
}

/// After a second or more the age of a thing of the past has grown, unless it
/// has reached the largest age that is counted.
pub proof fn lemma_age_grows_strictly(earlier: Timestamp, later: Timestamp, then: Timestamp)
    requires
        then.instant() <= earlier.instant(),
        earlier.instant() + NANOS_PER_SECOND <= later.instant(),
        age_seconds(later, then) < u64::MAX,
    ensures
        age_seconds(earlier, then) < age_seconds(later, then),
{
    let a = earlier.instant() - then.instant();
    let b = later.instant() - then.instant();
    assert(a / 1_000_000_000 < b / 1_000_000_000) by (nonlinear_arith)
        requires
            0 <= a,
            a + 1_000_000_000 <= b,
    ;
}

/// More than `seconds` seconds lie between `then` and the later `now`.
pub open spec fn more_than_seconds(now: Timestamp, then: Timestamp, seconds: u64) -> bool {
    now.instant() - then.instant() > seconds * NANOS_PER_SECOND
}

/// Decides `more_than_seconds`.
pub fn is_more_than_seconds(now: Timestamp, then: Timestamp, seconds: u64) -> (r: bool)
    ensures
        r == more_than_seconds(now, then, seconds),
{
    let diff: i128 = now.instant_nanos() - then.instant_nanos();
    assert(NANOS_PER_SECOND == 1_000_000_000);
    diff > seconds as i128 * 1_000_000_000i128
}

/// The label of the second `secs` after 1970-01-01 00:00:00 UTC: its date and
/// time of day in UTC as `chrono` writes them, year, month, day, hour, minute
/// and second, or `None` for a second that lies outside the calendar of
/// `chrono`.
pub uninterp spec fn label_of(secs: i64) -> Option<Seq<char>>;

/// `chrono::DateTime::from_timestamp` with no nanoseconds, then
/// `DateTime::format` with `%Y-%m-%d %H:%M:%S`, written to a string. The first
/// gives `None` for a number of seconds out of range; the label depends on
/// `secs` alone, the time zone being UTC.
#[verifier::external_body]
fn format_label(secs: i64) -> (label: Option<String>)
    ensures
        label is Some <==> label_of(secs) is Some,
        label matches Some(s) ==> label_of(secs) == Some(s@),
{
    chrono::DateTime::from_timestamp(secs, 0).map(|t| t.format("%Y-%m-%d %H:%M:%S").to_string())
}

/// The label under which `at` is written into the clipboard history.
pub fn label_at(at: Timestamp) -> (label: Option<String>)
    ensures
        label is Some <==> label_of(at.secs) is Some,
        label matches Some(s) ==> label_of(at.secs) == Some(s@),
{
    format_label(at.secs)
}

} // verus!
