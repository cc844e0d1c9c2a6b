use vstd::prelude::*;
use crate::model::{Event, NewEvent};

verus! {

/// How an admin writes an instant: date, time and offset.
pub const INSTANT_FORMAT: &'static str = "%Y-%m-%d %H:%M  %z";

/// The instant, in seconds since the epoch, that `s` denotes in the format `fmt`.
pub uninterp spec fn parsed_instant(s: Seq<char>, fmt: Seq<char>) -> Option<i64>;

/// Relies on chrono's `DateTime::parse_from_str` and `DateTime::timestamp`: the instant
/// written in `s` in the format `fmt`, or `None` when `s` does not match it; the result
/// depends on the two strings alone.
#[verifier::external_body]
fn parse_instant(s: &str, fmt: &str) -> (r: Option<i64>)
    ensures
        r == parsed_instant(s@, fmt@),
{
    match chrono::DateTime::parse_from_str(s, fmt) {
        Ok(d) => Some(d.timestamp()),
        Err(_) => None,
    }
}

/// The event that a request describes, given its parsed instants: present when both
/// instants parsed, no capacity is negative and the reminder does not come after the
/// start. Its id is still unassigned.
pub open spec fn event_from_parts(req: NewEvent, start: Option<i64>, remind: Option<i64>) -> Option<Event> {
    if start.is_some() && remind.is_some() && req.max_adults >= 0 && req.max_children >= 0
        && req.max_adults_per_reservation >= 0 && req.max_children_per_reservation >= 0
        && remind.unwrap() <= start.unwrap() {
        Some(
            Event {
                id: 0,
                name: req.name,
                link: req.link,
                ts: start.unwrap(),
                remind: remind.unwrap(),
                max_adults: req.max_adults,
                max_children: req.max_children,
                max_adults_per_reservation: req.max_adults_per_reservation,
                max_children_per_reservation: req.max_children_per_reservation,
            },
        )
    } else {
        None
    }
}

/// Builds the event of `req` from its already parsed instants.
pub fn build_event(req: NewEvent, start: Option<i64>, remind: Option<i64>) -> (r: Option<Event>)
    ensures
        r == event_from_parts(req, start, remind),
        r is Some ==> r->Some_0.valid(),
{
    match (start, remind) {
        (Some(ts), Some(rm)) => {
            if req.max_adults >= 0 && req.max_children >= 0 && req.max_adults_per_reservation >= 0
                && req.max_children_per_reservation >= 0 && rm <= ts {
                Some(
                    Event {
                        id: 0,
                        name: req.name,
                        link: req.link,
                        ts,
                        remind: rm,
                        max_adults: req.max_adults,
                        max_children: req.max_children,
                        max_adults_per_reservation: req.max_adults_per_reservation,
                        max_children_per_reservation: req.max_children_per_reservation,
                    },
                )
            } else {
                None
            }
        },
        _ => None,
    }
}

/// Parses the instants of `req` and builds its event.
pub fn event_from_request(req: NewEvent) -> (r: Option<Event>)
    ensures
        r == event_from_parts(
            req,
            parsed_instant(req.start@, INSTANT_FORMAT@),
            parsed_instant(req.remind@, INSTANT_FORMAT@),
        ),
        r is Some ==> r->Some_0.valid(),
{
    let start = parse_instant(req.start.as_str(), INSTANT_FORMAT);
    let remind = parse_instant(req.remind.as_str(), INSTANT_FORMAT);
    build_event(req, start, remind)
}

} // verus!
