//! The scheduled-draw decisions: when to wake next, and which sampling
//! bound to use for a cycle.
//!
//! The schedule reaches the library as a cron expression and an IANA
//! timezone name; cron and chrono-tz compute the next occurrence behind one
//! trusted wrapper, and everything around that call is verified.

use vstd::prelude::*;

use crate::index::Index;
use crate::SNOWFLAKE_EPOCH_MS;

verus! {

/// One day in milliseconds: the fallback wait when a schedule has no future
/// occurrence.
pub const DAY_MS: u64 = 86400000;

/// The last clock reading the scheduler accepts: the final millisecond of
/// year 9999. Clocks read far below this; the bound keeps the cron search
/// away from the top of chrono's representable range.
pub const MAX_CLOCK_MS: u64 = 253402300799999;

/// The next occurrence of a cron schedule: what cron computes from the
/// schedule expression, the IANA timezone name and the instant alone (the
/// timezone data is compiled in), in milliseconds since the Unix epoch.
/// Nothing when the expression or the zone does not parse, when the
/// schedule has no future occurrence, or when the occurrence is not
/// representable.
pub uninterp spec fn next_occurrence_of(expr: Seq<char>, zone: Seq<char>, now_ms: u64) -> Option<
    u64,
>;

/// Relies on cron's `Schedule::after` iterator for the schedule's next
/// occurrence after `now_ms` in the named zone, converted to milliseconds
/// since the Unix epoch. The result is a function of the three arguments
/// alone, named `next_occurrence_of`; `wake_from` handles every value of
/// it.
///
/// The bounds on `now_ms` keep the call away from its two panic paths: the
/// search builds each candidate date with a panicking local-date
/// conversion, which chrono-tz answers with nothing exactly when a timezone
/// transition skipped that whole local day — the zone data ships no such
/// day after 2011, and the search never proposes a date in a year before
/// `now_ms`'s — and it first adds one second to `now_ms` with chrono's
/// panicking addition, which cannot overflow below the year-9999 bound.
#[verifier::external_body]
fn schedule_next_occurrence(expr: &str, zone: &str, now_ms: u64) -> (r: Option<u64>)
    requires
        SNOWFLAKE_EPOCH_MS <= now_ms <= MAX_CLOCK_MS,
    ensures
        r == next_occurrence_of(expr@, zone@, now_ms),
{
    let schedule = expr.parse::<cron::Schedule>().ok()?;
    let tz = zone.parse::<chrono_tz::Tz>().ok()?;
    let now_signed = i64::try_from(now_ms).ok()?;
    let now_utc = chrono::TimeZone::timestamp_millis_opt(&chrono::Utc, now_signed).single()?;
    let now_local = now_utc.with_timezone(&tz);
    let next = schedule.after(&now_local).next()?;
    u64::try_from(next.timestamp_millis()).ok()
}

/// The instant to sleep until, given the schedule's next occurrence: the
/// occurrence itself when it lies ahead, now when it claims to lie behind,
/// and a full day ahead when there is none (saturating at the largest
/// representable instant).
pub open spec fn wake_at(now_ms: u64, occurrence: Option<u64>) -> u64 {
    match occurrence {
        Some(o) => if o >= now_ms {
            o
        } else {
            now_ms
        },
        None => if now_ms <= u64::MAX - DAY_MS {
            (now_ms + DAY_MS) as u64
        } else {
            u64::MAX
        },
    }
}

/// Compute `wake_at` for a given occurrence.
pub fn wake_from(now_ms: u64, occurrence: Option<u64>) -> (t: u64)
    ensures
        t == wake_at(now_ms, occurrence),
        t >= now_ms,
{
    match occurrence {
        Some(o) => if o >= now_ms {
            o
        } else {
            now_ms
        },
        None => if now_ms <= u64::MAX - DAY_MS {
            now_ms + DAY_MS
        } else {
            u64::MAX
        },
    }
}

/// The next instant the scheduler wakes at: the schedule's next occurrence
/// after `now_ms` in the named zone when it has one ahead, and a day ahead
/// when it has none. `now_ms` must lie between the snowflake epoch and the
/// year-9999 bound (the cron search cannot be trusted outside them, see the
/// wrapper); every clock reading satisfies that.
pub fn next_wake(expr: &str, zone: &str, now_ms: u64) -> (t: u64)
    requires
        SNOWFLAKE_EPOCH_MS <= now_ms <= MAX_CLOCK_MS,
    ensures
        t == wake_at(now_ms, next_occurrence_of(expr@, zone@, now_ms)),
        t >= now_ms,
{
    let occurrence = schedule_next_occurrence(expr, zone, now_ms);
    wake_from(now_ms, occurrence)
}

/// One sampling cycle of the scheduled draw: a draw bounded below by the
/// last trigger instant when one is known, and an unbounded draw otherwise.
pub fn draw_for_cycle(index: &Index, last_trigger: Option<u64>) -> (r: Option<(u64, u64)>)
    ensures
        match last_trigger {
            None => match r {
                None => index.flat().len() == 0,
                Some(p) => index.flat().len() > 0 && index.flat().contains(p),
            },
            Some(ts) => match r {
                None => index.flat_since(ts).len() == 0,
                Some(p) => index.flat_since(ts).len() > 0 && index.flat_since(ts).contains(p),
            },
        },
{
    match last_trigger {
        Some(ts) => index.random_message_since(ts),
        None => index.random_message(),
    }
}

} // verus!
