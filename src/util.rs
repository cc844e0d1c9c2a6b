use vstd::prelude::*;
use crate::model::Event;

verus! {

/// Seconds in one calendar day.
pub const SECONDS_PER_DAY: i64 = 86400;

/// Remainder of `ts` divided by a day, with the sign of `ts` (as Rust's `%` gives it).
pub open spec fn day_remainder(ts: int) -> int {
    if ts >= 0 {
        ts % 86400
    } else {
        -((-ts) % 86400)
    }
}

/// Seconds from `ts` to the next midnight (UTC).
pub open spec fn seconds_before_midnight(ts: int) -> int {
    86400 - day_remainder(ts)
}

pub fn get_seconds_before_midnight(ts: i64) -> (r: i64)
    ensures
        r == seconds_before_midnight(ts as int),
        0 < r <= 2 * 86400,
{
    let rem: i64 = ts % SECONDS_PER_DAY;
    SECONDS_PER_DAY - rem
}

/// The title of an event: its name, wrapped in a link when the event has one.
pub open spec fn title_of(name: Seq<char>, link: Seq<char>) -> Seq<char> {
    if link.len() > 0 {
        "<a href=\""@ + link + "\">"@ + name + "</a>"@
    } else {
        name
    }
}

pub fn format_event_title(event: &Event) -> (r: String)
    ensures
        r@ == title_of(event.name@, event.link@),
{
    if !event.link.as_str().is_empty() {
        let mut t = String::from_str("<a href=\"");
        t.append(event.link.as_str());
        t.append("\">");
        t.append(event.name.as_str());
        t.append("</a>");
        t
    } else {
        event.name.clone()
    }
}

/// Relies on `SystemTime::elapsed` from `UNIX_EPOCH`: whole seconds since the epoch by
/// the system clock, or `None` when the clock stands before the epoch.
#[verifier::external_body]
fn seconds_since_epoch() -> (r: Option<u64>) {
    std::time::UNIX_EPOCH.elapsed().ok().map(|d| d.as_secs())
}

/// Seconds since the epoch as an `i64`, from a clock reading in whole seconds:
/// capped at `i64::MAX`, and 0 when the clock stands before the epoch (`None`).
pub open spec fn unix_time_spec(reading: Option<u64>) -> i64 {
    match reading {
        Some(s) => if s > i64::MAX as u64 {
            i64::MAX
        } else {
            s as i64
        },
        None => 0,
    }
}

/// Converts a clock reading in whole seconds since the epoch.
pub fn unix_time_of(reading: Option<u64>) -> (r: i64)
    ensures
        r == unix_time_spec(reading),
        r >= 0,
{
    match reading {
        Some(s) => {
            if s > i64::MAX as u64 {
                i64::MAX
            } else {
                s as i64
            }
        },
        None => 0,
    }
}

/// The current time in seconds since the epoch, read from the system clock and
/// converted by `unix_time_of`.
pub fn get_unix_time() -> (r: i64)
    ensures
        r >= 0,
        exists|reading: Option<u64>| r == unix_time_spec(reading),
{
    let reading = seconds_since_epoch();
    let r = unix_time_of(reading);
    assert(r == unix_time_spec(reading));
    r
}

} // verus!
