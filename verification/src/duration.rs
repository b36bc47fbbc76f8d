use vstd::prelude::*;

verus! {

/// Largest number of whole seconds that a `chrono::Duration` can hold.
pub const MAX_SECONDS: i64 = 9_223_372_036_854_775;

/// The seconds in an hour.
pub const SECONDS_PER_HOUR: i64 = 3_600;

/// The seconds in a day.
pub const SECONDS_PER_DAY: i64 = 86_400;

/// The seconds in a week.
pub const SECONDS_PER_WEEK: i64 = 604_800;

/// A signed span of time, counted in whole milliseconds.
#[derive(Debug, Clone, Copy, PartialEq, Eq, Structural)]
pub struct Duration {
    millis: i64,
}

/// The span that `secs` whole seconds make, where `chrono` can represent it.
pub open spec fn span_of_seconds(secs: int) -> Option<int> {
    if -MAX_SECONDS <= secs <= MAX_SECONDS {
        Some(secs * 1000)
    } else {
        None
    }
}

impl View for Duration {
    type V = int;

    closed spec fn view(&self) -> int {
        self.millis as int
    }
}

impl Duration {
    /// A span of `millis` milliseconds.
    pub fn milliseconds(millis: i64) -> (d: Duration)
        ensures
            d@ == millis,
    {
        Duration { millis }
    }

    /// The length of the span in milliseconds.
    pub fn num_milliseconds(&self) -> (millis: i64)
        ensures
            millis == self@,
    {
        self.millis
    }
}

/// Calls `chrono::Duration::try_hours` and reads the result back with
/// `num_milliseconds`. Claims that the call succeeds exactly when
/// `hours * 3600` seconds lie within `chrono`'s bound of `i64::MAX / 1000`
/// seconds either way, and that the result then counts a thousand
/// milliseconds for each of those seconds.
#[verifier::external_body]
pub(crate) fn chrono_try_hours(hours: i64) -> (d: Option<Duration>)
    ensures
        d.is_some() == span_of_seconds(hours * SECONDS_PER_HOUR).is_some(),
        d matches Some(span) ==> Some(span@) == span_of_seconds(hours * SECONDS_PER_HOUR),
{
    match chrono::Duration::try_hours(hours) {
        Some(span) => Some(Duration { millis: span.num_milliseconds() }),
        None => None,
    }
}

/// Calls `chrono::Duration::try_days` and reads the result back with
/// `num_milliseconds`. Claims that the call succeeds exactly when
/// `days * 86400` seconds lie within `chrono`'s bound of `i64::MAX / 1000`
/// seconds either way, and that the result then counts a thousand
/// milliseconds for each of those seconds.
#[verifier::external_body]
pub(crate) fn chrono_try_days(days: i64) -> (d: Option<Duration>)
    ensures
        d.is_some() == span_of_seconds(days * SECONDS_PER_DAY).is_some(),
        d matches Some(span) ==> Some(span@) == span_of_seconds(days * SECONDS_PER_DAY),
{
    match chrono::Duration::try_days(days) {
        Some(span) => Some(Duration { millis: span.num_milliseconds() }),
        None => None,
    }
}

/// Calls `chrono::Duration::try_weeks` and reads the result back with
/// `num_milliseconds`. Claims that the call succeeds exactly when
/// `weeks * 604800` seconds lie within `chrono`'s bound of `i64::MAX / 1000`
/// seconds either way, and that the result then counts a thousand
/// milliseconds for each of those seconds.
#[verifier::external_body]
pub(crate) fn chrono_try_weeks(weeks: i64) -> (d: Option<Duration>)
    ensures
        d.is_some() == span_of_seconds(weeks * SECONDS_PER_WEEK).is_some(),
        d matches Some(span) ==> Some(span@) == span_of_seconds(weeks * SECONDS_PER_WEEK),
{
    match chrono::Duration::try_weeks(weeks) {
        Some(span) => Some(Duration { millis: span.num_milliseconds() }),
        None => None,
    }
}

} // verus!
