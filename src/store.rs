use vstd::prelude::*;
use crate::model::{EngineError, Event, Placement, Registration, ReminderRecord};
use crate::laws::reminders_cleared;
use crate::util::{get_seconds_before_midnight, seconds_before_midnight};

verus! {

broadcast use vstd::seq_lib::group_to_multiset_ensures;

/// `r` belongs to the group of one event, one category and one state.
pub open spec fn in_group(r: Registration, e: i64, adult: bool, waiting: bool) -> bool {
    r.event_id == e && r.is_adult == adult && r.waiting == waiting
}

pub open spec fn indicator(r: Registration, e: i64, adult: bool, waiting: bool) -> int {
    if in_group(r, e, adult, waiting) {
        1
    } else {
        0
    }
}

/// Number of rows of `s` in the group (event `e`, category `adult`, state `waiting`).
pub open spec fn count_group(s: Seq<Registration>, e: i64, adult: bool, waiting: bool) -> nat
    decreases s.len(),
{
    if s.len() == 0 {
        0
    } else {
        (count_group(s.drop_last(), e, adult, waiting) + indicator(s.last(), e, adult, waiting)) as nat
    }
}

/// The key of a row: event, user and category.
pub open spec fn same_key(r: Registration, e: i64, u: i64, adult: bool) -> bool {
    r.event_id == e && r.user_id == u && r.is_adult == adult
}

/// Index of the first row of `s` with the given key, or -1.
pub open spec fn row_index(s: Seq<Registration>, e: i64, u: i64, adult: bool) -> int
    decreases s.len(),
{
    if s.len() == 0 {
        -1
    } else {
        let k = row_index(s.drop_last(), e, u, adult);
        if k >= 0 {
            k
        } else if same_key(s.last(), e, u, adult) {
            s.len() - 1
        } else {
            -1
        }
    }
}

/// Index of the waiting row of (`e`, `adult`) with the smallest join instant, the
/// earliest such row among equal instants; -1 when nobody waits.
pub open spec fn first_waiting(s: Seq<Registration>, e: i64, adult: bool) -> int
    decreases s.len(),
{
    if s.len() == 0 {
        -1
    } else {
        let k = first_waiting(s.drop_last(), e, adult);
        if in_group(s.last(), e, adult, true) && (k < 0 || s.last().ts < s[k].ts) {
            s.len() - 1
        } else {
            k
        }
    }
}

/// Index of the first event of `s` with id `id`, or -1.
pub open spec fn event_index(s: Seq<Event>, id: i64) -> int
    decreases s.len(),
{
    if s.len() == 0 {
        -1
    } else {
        let k = event_index(s.drop_last(), id);
        if k >= 0 {
            k
        } else if s.last().id == id {
            s.len() - 1
        } else {
            -1
        }
    }
}

/// Confirmed rows of `ev` stay within its capacity, in both categories.
pub open spec fn capacity_respected(s: Seq<Registration>, ev: Event) -> bool {
    &&& count_group(s, ev.id, true, false) <= ev.max_adults
    &&& count_group(s, ev.id, false, false) <= ev.max_children
}

/// Confirmed rows of (`e`, `adult`) held by users other than `u`.
pub open spec fn others_confirmed(s: Seq<Registration>, e: i64, u: i64, adult: bool) -> int {
    let k = row_index(s, e, u, adult);
    count_group(s, e, adult, false) - (if k >= 0 && !s[k].waiting {
        1int
    } else {
        0int
    })
}

/// Where a sign-up of `u` for category `adult` of `ev` lands.
pub open spec fn placement_for(s: Seq<Registration>, ev: Event, u: i64, adult: bool) -> Placement {
    if others_confirmed(s, ev.id, u, adult) < ev.capacity(adult) {
        Placement::Confirmed
    } else {
        Placement::Waiting
    }
}

/// The rows after `row` is signed up: it replaces the row with its key, or is appended.
pub open spec fn with_row(s: Seq<Registration>, row: Registration) -> Seq<Registration> {
    let k = row_index(s, row.event_id, row.user_id, row.is_adult);
    if k >= 0 {
        s.update(k, row)
    } else {
        s.push(row)
    }
}

/// The row a sign-up writes. A repeated sign-up keeps the join instant, the note and
/// the reminder state of the row it replaces; a first one starts fresh at `now`.
pub open spec fn signed_row(
    s: Seq<Registration>,
    e: i64,
    u: i64,
    user_name1: String,
    user_name2: String,
    adult: bool,
    waiting: bool,
    now: i64,
) -> Registration {
    let k = row_index(s, e, u, adult);
    if k >= 0 {
        Registration { user_name1, user_name2, waiting, ..s[k] }
    } else {
        Registration {
            event_id: e,
            user_id: u,
            user_name1,
            user_name2,
            is_adult: adult,
            waiting,
            ts: now,
            attachment: None,
            reminded: false,
        }
    }
}

/// A sign-up request is refused when it asks for no unit, or for more units than one
/// reservation may hold (one row holds one unit, and the event may allow fewer).
pub open spec fn units_refused(ev: Event, adult: bool, units: i64) -> bool {
    units < 1 || units > 1 || units > ev.per_reservation(adult)
}

pub(crate) proof fn lemma_count_push(s: Seq<Registration>, x: Registration, e: i64, adult: bool, waiting: bool)
    ensures
        count_group(s.push(x), e, adult, waiting) == count_group(s, e, adult, waiting) + indicator(
            x,
            e,
            adult,
            waiting,
        ),
{
    assert(s.push(x).drop_last() =~= s);
}

pub(crate) proof fn lemma_count_prefix(s: Seq<Registration>, i: int, e: i64, adult: bool, waiting: bool)
    requires
        0 <= i < s.len(),
    ensures
        count_group(s.subrange(0, i + 1), e, adult, waiting) == count_group(
            s.subrange(0, i),
            e,
            adult,
            waiting,
        ) + indicator(s[i], e, adult, waiting),
{
    assert(s.subrange(0, i + 1).drop_last() =~= s.subrange(0, i));
}

pub(crate) proof fn lemma_count_update(
    s: Seq<Registration>,
    i: int,
    x: Registration,
    e: i64,
    adult: bool,
    waiting: bool,
)
    requires
        0 <= i < s.len(),
    ensures
        count_group(s.update(i, x), e, adult, waiting) == count_group(s, e, adult, waiting)
            - indicator(s[i], e, adult, waiting) + indicator(x, e, adult, waiting),
    decreases s.len(),
{
    if i == s.len() - 1 {
        assert(s.update(i, x).drop_last() =~= s.drop_last());
    } else {
        assert(s.update(i, x).drop_last() =~= s.drop_last().update(i, x));
        lemma_count_update(s.drop_last(), i, x, e, adult, waiting);
    }
}

pub(crate) proof fn lemma_count_remove(s: Seq<Registration>, i: int, e: i64, adult: bool, waiting: bool)
    requires
        0 <= i < s.len(),
    ensures
        count_group(s.remove(i), e, adult, waiting) == count_group(s, e, adult, waiting)
            - indicator(s[i], e, adult, waiting),
    decreases s.len(),
{
    if i == s.len() - 1 {
        assert(s.remove(i) =~= s.drop_last());
    } else {
        assert(s.remove(i).drop_last() =~= s.drop_last().remove(i));
        lemma_count_remove(s.drop_last(), i, e, adult, waiting);
    }
}

/// Filtering keeps a whole group (`kept`) or drops a whole group (`!kept`).
pub(crate) proof fn lemma_count_filter(
    s: Seq<Registration>,
    p: spec_fn(Registration) -> bool,
    kept: bool,
    e: i64,
    adult: bool,
    waiting: bool,
)
    requires
        forall|r: Registration| in_group(r, e, adult, waiting) ==> p(r) == kept,
    ensures
        count_group(s.filter(p), e, adult, waiting) == if kept {
            count_group(s, e, adult, waiting)
        } else {
            0
        },
    decreases s.len(),
{
    if s.len() == 0 {
        assert(s.filter(p) =~= s) by {
            reveal(Seq::filter);
        }
    } else {
        let t = s.drop_last();
        lemma_count_filter(t, p, kept, e, adult, waiting);
        assert(t.push(s.last()) =~= s);
        t.lemma_filter_push(s.last(), p);
        lemma_count_push(t.filter(p), s.last(), e, adult, waiting);
    }
}

/// `k` is the first index of a row with the key, or -1 when no row has it.
pub(crate) proof fn lemma_row_index(s: Seq<Registration>, e: i64, u: i64, adult: bool, k: int)
    requires
        -1 <= k < s.len(),
        k >= 0 ==> same_key(s[k], e, u, adult),
        forall|j: int| 0 <= j < s.len() && (k < 0 || j < k) ==> !same_key(#[trigger] s[j], e, u, adult),
    ensures
        row_index(s, e, u, adult) == k,
    decreases s.len(),
{
    if s.len() > 0 {
        let t = s.drop_last();
        let k2 = if k == s.len() - 1 { -1 } else { k };
        assert forall|j: int| 0 <= j < t.len() && (k2 < 0 || j < k2) implies !same_key(#[trigger] t[j], e, u, adult) by {
            assert(t[j] == s[j]);
        }
        lemma_row_index(t, e, u, adult, k2);
    }
}

pub(crate) proof fn lemma_row_index_facts(s: Seq<Registration>, e: i64, u: i64, adult: bool)
    ensures
        -1 <= row_index(s, e, u, adult) < s.len(),
        row_index(s, e, u, adult) >= 0 ==> same_key(s[row_index(s, e, u, adult)], e, u, adult),
        row_index(s, e, u, adult) < 0 ==> forall|j: int|
            0 <= j < s.len() ==> !same_key(#[trigger] s[j], e, u, adult),
    decreases s.len(),
{
    if s.len() > 0 {
        let t = s.drop_last();
        lemma_row_index_facts(t, e, u, adult);
        assert forall|j: int| 0 <= j < t.len() implies t[j] == s[j] by {}
    }
}

/// `k` is the first index of an event with id `id`, or -1 when there is none.
pub(crate) proof fn lemma_event_index(s: Seq<Event>, id: i64, k: int)
    requires
        -1 <= k < s.len(),
        k >= 0 ==> s[k].id == id,
        forall|j: int| 0 <= j < s.len() && (k < 0 || j < k) ==> (#[trigger] s[j]).id != id,
    ensures
        event_index(s, id) == k,
    decreases s.len(),
{
    if s.len() > 0 {
        let t = s.drop_last();
        let k2 = if k == s.len() - 1 { -1 } else { k };
        assert forall|j: int| 0 <= j < t.len() && (k2 < 0 || j < k2) implies (#[trigger] t[j]).id != id by {
            assert(t[j] == s[j]);
        }
        lemma_event_index(t, id, k2);
    }
}

pub(crate) proof fn lemma_with_row_counts(s: Seq<Registration>, row: Registration, e: i64, adult: bool, waiting: bool)
    ensures
        ({
            let k = row_index(s, row.event_id, row.user_id, row.is_adult);
            count_group(with_row(s, row), e, adult, waiting) == count_group(s, e, adult, waiting)
                - (if k >= 0 { indicator(s[k], e, adult, waiting) } else { 0 }) + indicator(
                row,
                e,
                adult,
                waiting,
            )
        }),
{
    let k = row_index(s, row.event_id, row.user_id, row.is_adult);
    lemma_row_index_facts(s, row.event_id, row.user_id, row.is_adult);
    if k >= 0 {
        lemma_count_update(s, k, row, e, adult, waiting);
    } else {
        lemma_count_push(s, row, e, adult, waiting);
    }
}

pub(crate) proof fn lemma_count_member(s: Seq<Registration>, k: int, e: i64, adult: bool, waiting: bool)
    requires
        0 <= k < s.len(),
        in_group(s[k], e, adult, waiting),
    ensures
        count_group(s, e, adult, waiting) >= 1,
{
    lemma_count_remove(s, k, e, adult, waiting);
}

/// `r` moved from the waiting list to the confirmed ones.
pub open spec fn confirmed_row(r: Registration) -> Registration {
    Registration { waiting: false, ..r }
}

/// The rows after `u` cancels category `adult` of event `e`: the row goes, and when it
/// was confirmed the first waiting row of the same category is confirmed.
pub open spec fn after_cancel(s: Seq<Registration>, e: i64, u: i64, adult: bool) -> Seq<Registration> {
    let k = row_index(s, e, u, adult);
    if k < 0 {
        s
    } else {
        let rest = s.remove(k);
        let j = first_waiting(rest, e, adult);
        if s[k].waiting || j < 0 {
            rest
        } else {
            rest.update(j, confirmed_row(rest[j]))
        }
    }
}

/// The user promoted when `u` cancels category `adult` of event `e`, if any.
pub open spec fn promoted_by_cancel(s: Seq<Registration>, e: i64, u: i64, adult: bool) -> Option<i64> {
    let k = row_index(s, e, u, adult);
    if k < 0 {
        None
    } else {
        let rest = s.remove(k);
        let j = first_waiting(rest, e, adult);
        if s[k].waiting || j < 0 {
            None
        } else {
            Some(rest[j].user_id)
        }
    }
}

pub(crate) proof fn lemma_first_waiting(s: Seq<Registration>, e: i64, adult: bool)
    ensures
        -1 <= first_waiting(s, e, adult) < s.len(),
        first_waiting(s, e, adult) >= 0 ==> in_group(s[first_waiting(s, e, adult)], e, adult, true),
        forall|j: int|
            0 <= j < s.len() && in_group(#[trigger] s[j], e, adult, true) ==> {
                let f = first_waiting(s, e, adult);
                &&& f >= 0
                &&& s[f].ts <= s[j].ts
                &&& (j < f ==> s[f].ts < s[j].ts)
            },
    decreases s.len(),
{
    if s.len() > 0 {
        let t = s.drop_last();
        lemma_first_waiting(t, e, adult);
        assert forall|j: int| 0 <= j < s.len() && in_group(#[trigger] s[j], e, adult, true) implies {
            let f = first_waiting(s, e, adult);
            &&& f >= 0
            &&& s[f].ts <= s[j].ts
            &&& (j < f ==> s[f].ts < s[j].ts)
        } by {
            let k = first_waiting(t, e, adult);
            if j < s.len() - 1 {
                assert(t[j] == s[j]);
            }
            if k >= 0 {
                assert(t[k] == s[k]);
            }
        }
    }
}

pub(crate) proof fn lemma_count_none(s: Seq<Registration>, e: i64, adult: bool, waiting: bool)
    requires
        forall|j: int| 0 <= j < s.len() ==> !in_group(#[trigger] s[j], e, adult, waiting),
    ensures
        count_group(s, e, adult, waiting) == 0,
    decreases s.len(),
{
    if s.len() > 0 {
        let t = s.drop_last();
        assert forall|j: int| 0 <= j < t.len() implies !in_group(#[trigger] t[j], e, adult, waiting) by {
            assert(t[j] == s[j]);
        }
        lemma_count_none(t, e, adult, waiting);
    }
}

/// Counts after a cancel, group by group.
pub(crate) proof fn lemma_after_cancel_counts(s: Seq<Registration>, e: i64, u: i64, adult: bool, e2: i64, adult2: bool)
    requires
        row_index(s, e, u, adult) >= 0,
    ensures
        ({
            let k = row_index(s, e, u, adult);
            let rest = s.remove(k);
            let j = first_waiting(rest, e, adult);
            let promoted = !s[k].waiting && j >= 0;
            &&& count_group(after_cancel(s, e, u, adult), e2, adult2, false) == count_group(s, e2, adult2, false)
                - indicator(s[k], e2, adult2, false) + (if promoted && e2 == e && adult2 == adult { 1int } else { 0 })
            &&& count_group(after_cancel(s, e, u, adult), e2, adult2, true) == count_group(s, e2, adult2, true)
                - indicator(s[k], e2, adult2, true) - (if promoted && e2 == e && adult2 == adult { 1int } else { 0 })
        }),
{
    let k = row_index(s, e, u, adult);
    lemma_row_index_facts(s, e, u, adult);
    let rest = s.remove(k);
    lemma_count_remove(s, k, e2, adult2, false);
    lemma_count_remove(s, k, e2, adult2, true);
    let j = first_waiting(rest, e, adult);
    lemma_first_waiting(rest, e, adult);
    if !s[k].waiting && j >= 0 {
        lemma_count_update(rest, j, confirmed_row(rest[j]), e2, adult2, false);
        lemma_count_update(rest, j, confirmed_row(rest[j]), e2, adult2, true);
    }
}

pub open spec fn keeps_event(ids: Seq<i64>) -> spec_fn(Event) -> bool {
    |ev: Event| !ids.contains(ev.id)
}

pub open spec fn keeps_reg(ids: Seq<i64>) -> spec_fn(Registration) -> bool {
    |r: Registration| !ids.contains(r.event_id)
}

/// Events whose id is not in `ids`.
pub open spec fn events_kept(s: Seq<Event>, ids: Seq<i64>) -> Seq<Event> {
    s.filter(keeps_event(ids))
}

/// Registrations whose event id is not in `ids`.
pub open spec fn regs_kept(s: Seq<Registration>, ids: Seq<i64>) -> Seq<Registration> {
    s.filter(keeps_reg(ids))
}

/// The calendar day (UTC) that holds the start of `ev` is over at `now`.
pub open spec fn is_past(ev: Event, now: i64) -> bool {
    ev.ts + seconds_before_midnight(ev.ts as int) <= now
}

/// Ids of the events of `s` that are past at `now`, in order.
pub open spec fn past_ids(s: Seq<Event>, now: i64) -> Seq<i64>
    decreases s.len(),
{
    if s.len() == 0 {
        Seq::empty()
    } else if is_past(s.last(), now) {
        past_ids(s.drop_last(), now).push(s.last().id)
    } else {
        past_ids(s.drop_last(), now)
    }
}

pub(crate) proof fn lemma_past_ids(s: Seq<Event>, now: i64, id: i64)
    ensures
        past_ids(s, now).contains(id) <==> exists|m: int|
            0 <= m < s.len() && (#[trigger] s[m]).id == id && is_past(s[m], now),
    decreases s.len(),
{
    if s.len() > 0 {
        let t = s.drop_last();
        lemma_past_ids(t, now, id);
        if past_ids(s, now).contains(id) {
            if past_ids(t, now).contains(id) {
                let m = choose|m: int| 0 <= m < t.len() && (#[trigger] t[m]).id == id && is_past(t[m], now);
                assert(s[m] == t[m]);
            } else {
                assert(s[s.len() - 1] == s.last());
            }
        }
        if exists|m: int| 0 <= m < s.len() && (#[trigger] s[m]).id == id && is_past(s[m], now) {
            let m = choose|m: int| 0 <= m < s.len() && (#[trigger] s[m]).id == id && is_past(s[m], now);
            if m < s.len() - 1 {
                assert(t[m] == s[m]);
                assert(past_ids(t, now).contains(id));
                if is_past(s.last(), now) {
                    assert(past_ids(s, now) == past_ids(t, now).push(s.last().id));
                    assert(past_ids(s, now)[past_ids(t, now).index_of(id)] == id);
                }
            } else {
                assert(past_ids(s, now)[past_ids(s, now).len() - 1] == id);
            }
        }
    }
}

/// `r` is owed its reminder at `now`: its event's reminder instant has come and
/// the reminder was not handed out yet.
pub open spec fn is_due(events: Seq<Event>, r: Registration, now: i64) -> bool {
    let k = event_index(events, r.event_id);
    k >= 0 && events[k].remind <= now && !r.reminded
}

pub open spec fn due_at(events: Seq<Event>, now: i64) -> spec_fn(Registration) -> bool {
    |r: Registration| is_due(events, r, now)
}

/// The registrations owed a reminder at `now`, in store order.
pub open spec fn due_rows(s: Seq<Registration>, events: Seq<Event>, now: i64) -> Seq<Registration> {
    s.filter(due_at(events, now))
}

/// `rec` is the reminder of `r`, with the details of its event.
pub open spec fn reminder_of(rec: ReminderRecord, r: Registration, events: Seq<Event>) -> bool {
    let ev = events[event_index(events, r.event_id)];
    &&& rec.event_id == r.event_id
    &&& rec.user_id == r.user_id
    &&& rec.name == ev.name
    &&& rec.link == ev.link
    &&& rec.ts == ev.ts
}

/// `r` after the reminder sweep at `now`.
pub open spec fn marked(events: Seq<Event>, r: Registration, now: i64) -> Registration {
    if is_due(events, r, now) {
        Registration { reminded: true, ..r }
    } else {
        r
    }
}

/// `r` with the note `text` attached.
pub open spec fn with_attachment(r: Registration, text: String) -> Registration {
    Registration { attachment: Some(text), ..r }
}

/// Index of the last row of user `u`, or -1.
pub open spec fn last_row_of(s: Seq<Registration>, u: i64) -> int
    decreases s.len(),
{
    if s.len() == 0 {
        -1
    } else if s.last().user_id == u {
        s.len() - 1
    } else {
        last_row_of(s.drop_last(), u)
    }
}

pub open spec fn participant_of(e: i64, waiting: bool) -> spec_fn(Registration) -> bool {
    |r: Registration| r.event_id == e && r.waiting == waiting
}

pub open spec fn waiting_in(e: i64, adult: bool) -> spec_fn(Registration) -> bool {
    |r: Registration| in_group(r, e, adult, true)
}

/// `pos` places each item of `r` in `w` (`r[a] == w[pos[a]]`), and items of `r` with
/// equal instants come in the order they have in `w`.
pub open spec fn stable_order(r: Seq<Registration>, w: Seq<Registration>, pos: Seq<int>) -> bool {
    &&& pos.len() == r.len()
    &&& forall|a: int| 0 <= a < r.len() ==> 0 <= #[trigger] pos[a] < w.len() && r[a] == w[pos[a]]
    &&& forall|a: int, b: int|
        0 <= a < b < r.len() && r[a].ts == r[b].ts ==> #[trigger] pos[a] < #[trigger] pos[b]
}

/// As `stable_order`, for events and their start instants.
pub open spec fn stable_events(r: Seq<Event>, w: Seq<Event>, pos: Seq<int>) -> bool {
    &&& pos.len() == r.len()
    &&& forall|a: int| 0 <= a < r.len() ==> 0 <= #[trigger] pos[a] < w.len() && r[a] == w[pos[a]]
    &&& forall|a: int, b: int|
        0 <= a < b < r.len() && r[a].ts == r[b].ts ==> #[trigger] pos[a] < #[trigger] pos[b]
}

pub open spec fn starts_after(now: i64) -> spec_fn(Event) -> bool {
    |ev: Event| ev.ts > now
}

/// An update that leaves event, category and state of a row as they were keeps
/// every count.
pub(crate) proof fn lemma_count_same_group(s: Seq<Registration>, i: int, x: Registration, e: i64, adult: bool)
    requires
        0 <= i < s.len(),
        x.event_id == s[i].event_id,
        x.is_adult == s[i].is_adult,
        x.waiting == s[i].waiting,
    ensures
        count_group(s.update(i, x), e, adult, false) == count_group(s, e, adult, false),
{
    lemma_count_update(s, i, x, e, adult, false);
}

pub open spec fn key_indicator(r: Registration, e: i64, u: i64, adult: bool) -> int {
    if same_key(r, e, u, adult) {
        1
    } else {
        0
    }
}

/// Number of rows of `s` with the key (event `e`, user `u`, category `adult`).
pub open spec fn count_key(s: Seq<Registration>, e: i64, u: i64, adult: bool) -> nat
    decreases s.len(),
{
    if s.len() == 0 {
        0
    } else {
        (count_key(s.drop_last(), e, u, adult) + key_indicator(s.last(), e, u, adult)) as nat
    }
}

/// No two rows share event, user and category.
pub open spec fn keys_unique(s: Seq<Registration>) -> bool {
    forall|e: i64, u: i64, adult: bool| #[trigger] count_key(s, e, u, adult) <= 1
}

pub(crate) proof fn lemma_key_push(s: Seq<Registration>, x: Registration, e: i64, u: i64, adult: bool)
    ensures
        count_key(s.push(x), e, u, adult) == count_key(s, e, u, adult) + key_indicator(x, e, u, adult),
{
    assert(s.push(x).drop_last() =~= s);
}

pub(crate) proof fn lemma_key_update(s: Seq<Registration>, i: int, x: Registration, e: i64, u: i64, adult: bool)
    requires
        0 <= i < s.len(),
    ensures
        count_key(s.update(i, x), e, u, adult) == count_key(s, e, u, adult) - key_indicator(s[i], e, u, adult)
            + key_indicator(x, e, u, adult),
    decreases s.len(),
{
    if i == s.len() - 1 {
        assert(s.update(i, x).drop_last() =~= s.drop_last());
    } else {
        assert(s.update(i, x).drop_last() =~= s.drop_last().update(i, x));
        lemma_key_update(s.drop_last(), i, x, e, u, adult);
    }
}

pub(crate) proof fn lemma_key_remove(s: Seq<Registration>, i: int, e: i64, u: i64, adult: bool)
    requires
        0 <= i < s.len(),
    ensures
        count_key(s.remove(i), e, u, adult) == count_key(s, e, u, adult) - key_indicator(s[i], e, u, adult),
    decreases s.len(),
{
    if i == s.len() - 1 {
        assert(s.remove(i) =~= s.drop_last());
    } else {
        assert(s.remove(i).drop_last() =~= s.drop_last().remove(i));
        lemma_key_remove(s.drop_last(), i, e, u, adult);
    }
}

pub(crate) proof fn lemma_key_filter(s: Seq<Registration>, p: spec_fn(Registration) -> bool, e: i64, u: i64, adult: bool)
    ensures
        count_key(s.filter(p), e, u, adult) <= count_key(s, e, u, adult),
    decreases s.len(),
{
    if s.len() == 0 {
        assert(s.filter(p) =~= s) by {
            reveal(Seq::filter);
        }
    } else {
        let t = s.drop_last();
        lemma_key_filter(t, p, e, u, adult);
        assert(t.push(s.last()) =~= s);
        t.lemma_filter_push(s.last(), p);
        lemma_key_push(t.filter(p), s.last(), e, u, adult);
    }
}

pub(crate) proof fn lemma_key_none(s: Seq<Registration>, e: i64, u: i64, adult: bool)
    requires
        forall|j: int| 0 <= j < s.len() ==> !same_key(#[trigger] s[j], e, u, adult),
    ensures
        count_key(s, e, u, adult) == 0,
    decreases s.len(),
{
    if s.len() > 0 {
        let t = s.drop_last();
        assert forall|j: int| 0 <= j < t.len() implies !same_key(#[trigger] t[j], e, u, adult) by {
            assert(t[j] == s[j]);
        }
        lemma_key_none(t, e, u, adult);
    }
}

/// Replacing a row by one with the same key keeps every key count.
pub(crate) proof fn lemma_keys_update_same(s: Seq<Registration>, i: int, x: Registration)
    requires
        0 <= i < s.len(),
        keys_unique(s),
        same_key(x, s[i].event_id, s[i].user_id, s[i].is_adult),
    ensures
        keys_unique(s.update(i, x)),
{
    assert forall|e: i64, u: i64, adult: bool| #[trigger] count_key(s.update(i, x), e, u, adult) <= 1 by {
        lemma_key_update(s, i, x, e, u, adult);
        assert(count_key(s, e, u, adult) <= 1);
    }
}

pub(crate) proof fn lemma_event_index_facts(s: Seq<Event>, id: i64)
    ensures
        -1 <= event_index(s, id) < s.len(),
        event_index(s, id) >= 0 ==> s[event_index(s, id)].id == id,
    decreases s.len(),
{
    if s.len() > 0 {
        lemma_event_index_facts(s.drop_last(), id);
    }
}

pub(crate) proof fn lemma_event_index_push(s: Seq<Event>, x: Event, id: i64)
    ensures
        event_index(s, id) >= 0 ==> event_index(s.push(x), id) == event_index(s, id),
{
    assert(s.push(x).drop_last() =~= s);
}

pub(crate) proof fn lemma_event_index_exists(s: Seq<Event>, id: i64, m: int)
    requires
        0 <= m < s.len(),
        s[m].id == id,
    ensures
        event_index(s, id) >= 0,
    decreases s.len(),
{
    if m < s.len() - 1 {
        assert(s.drop_last()[m] == s[m]);
        lemma_event_index_exists(s.drop_last(), id, m);
    }
}

/// Rows kept by a removal of events still have their event.
pub(crate) proof fn lemma_kept_rows_have_events(events: Seq<Event>, regs: Seq<Registration>, ids: Seq<i64>)
    requires
        forall|j: int| 0 <= j < regs.len() ==> event_index(events, (#[trigger] regs[j]).event_id) >= 0,
    ensures
        forall|b: int|
            0 <= b < regs_kept(regs, ids).len() ==> event_index(
                events_kept(events, ids),
                (#[trigger] regs_kept(regs, ids)[b]).event_id,
            ) >= 0,
{
    let kr = regs_kept(regs, ids);
    let ke = events_kept(events, ids);
    assert forall|b: int| 0 <= b < kr.len() implies event_index(ke, (#[trigger] kr[b]).event_id) >= 0 by {
        let r = kr[b];
        regs.lemma_filter_pred(keeps_reg(ids), b);
        assert(kr.contains(r));
        regs.lemma_filter_contains_rev(keeps_reg(ids), r);
        let j = choose|j: int| 0 <= j < regs.len() && regs[j] == r;
        assert(regs[j] == r);
        let k = event_index(events, r.event_id);
        lemma_event_index_facts(events, r.event_id);
        events.lemma_filter_contains(keeps_event(ids), k);
        let m = choose|m: int| 0 <= m < ke.len() && ke[m] == events[k];
        lemma_event_index_exists(ke, r.event_id, m);
    }
}

/// The persistent state: events and their registrations.
pub struct EventDB {
    events: Vec<Event>,
    regs: Vec<Registration>,
    next_id: i64,
}

impl EventDB {
    /// The events, in order of creation.
    pub closed spec fn events_view(&self) -> Seq<Event> {
        self.events@
    }

    /// The registrations, in order of insertion.
    pub closed spec fn regs_view(&self) -> Seq<Registration> {
        self.regs@
    }

    /// The id the next created event gets.
    pub closed spec fn next_id_view(&self) -> i64 {
        self.next_id
    }

    pub closed spec fn wf(&self) -> bool {
        &&& self.next_id > 0
        &&& forall|i: int|
            0 <= i < self.events@.len() ==> (#[trigger] self.events@[i]).valid() && 0
                < self.events@[i].id < self.next_id
        &&& forall|i: int, j: int|
            0 <= i < j < self.events@.len() ==> (#[trigger] self.events@[i]).id != (#[trigger] self.events@[j]).id
        &&& forall|j: int| 0 <= j < self.regs@.len() ==> (#[trigger] self.regs@[j]).event_id < self.next_id
        &&& forall|j: int|
            0 <= j < self.regs@.len() ==> event_index(self.events@, (#[trigger] self.regs@[j]).event_id) >= 0
        &&& keys_unique(self.regs@)
        &&& forall|i: int|
            0 <= i < self.events@.len() ==> capacity_respected(self.regs@, #[trigger] self.events@[i])
    }

    pub fn new() -> (r: EventDB)
        ensures
            r.wf(),
            r.next_id_view() == 1,
            r.events_view().len() == 0,
            r.regs_view().len() == 0,
    {
        EventDB { events: Vec::new(), regs: Vec::new(), next_id: 1 }
    }

    /// Stores `ev` under a fresh id and returns that id.
    pub fn create_event(&mut self, ev: Event) -> (r: Result<i64, EngineError>)
        requires
            old(self).wf(),
            ev.valid(),
        ensures
            final(self).wf(),
            final(self).regs_view() == old(self).regs_view(),
            old(self).next_id_view() == i64::MAX ==> r == Err::<i64, EngineError>(
                EngineError::PersistenceError,
            ) && final(self).events_view() == old(self).events_view(),
            old(self).next_id_view() < i64::MAX ==> {
                &&& r == Ok::<i64, EngineError>(old(self).next_id_view())
                &&& r->Ok_0 > 0
                &&& final(self).events_view() == old(self).events_view().push(
                    Event { id: old(self).next_id_view(), ..ev },
                )
            },
    {
        if self.next_id == i64::MAX {
            return Err(EngineError::PersistenceError);
        }
        let id = self.next_id;
        let stored = Event { id, ..ev };
        let ghost old_events = self.events@;
        self.events.push(stored);
        self.next_id = id + 1;
        proof {
            assert forall|i: int| 0 <= i < self.events@.len() implies capacity_respected(
                self.regs@,
                #[trigger] self.events@[i],
            ) by {
                if i == self.events@.len() - 1 {
                    lemma_count_zero(self.regs@, id, true);
                    lemma_count_zero(self.regs@, id, false);
                }
            }
            assert forall|j: int| 0 <= j < self.regs@.len() implies event_index(
                self.events@,
                (#[trigger] self.regs@[j]).event_id,
            ) >= 0 by {
                lemma_event_index_push(old_events, stored, self.regs@[j].event_id);
            }
        }
        Ok(id)
    }

    /// The event with id `id`, if any.
    pub fn get_event(&self, id: i64) -> (r: Option<&Event>)
        ensures
            event_index(self.events_view(), id) < 0 ==> r.is_none(),
            event_index(self.events_view(), id) >= 0 ==> r.is_some() && *r.unwrap()
                == self.events_view()[event_index(self.events_view(), id)],
    {
        match self.find_event(id) {
            Some(i) => Some(&self.events[i]),
            None => None,
        }
    }

    fn find_event(&self, id: i64) -> (r: Option<usize>)
        ensures
            match r {
                Some(i) => i as int == event_index(self.events@, id) && i < self.events@.len()
                    && self.events@[i as int].id == id,
                None => event_index(self.events@, id) == -1,
            },
    {
        let mut i: usize = 0;
        while i < self.events.len()
            invariant
                i <= self.events@.len(),
                forall|j: int| 0 <= j < i ==> (#[trigger] self.events@[j]).id != id,
            decreases self.events@.len() - i,
        {
            if self.events[i].id == id {
                proof {
                    lemma_event_index(self.events@, id, i as int);
                }
                return Some(i);
            }
            i += 1;
        }
        proof {
            lemma_event_index(self.events@, id, -1);
        }
        None
    }

    fn find_row(&self, e: i64, u: i64, adult: bool) -> (r: Option<usize>)
        ensures
            match r {
                Some(i) => i as int == row_index(self.regs@, e, u, adult) && i < self.regs@.len()
                    && same_key(self.regs@[i as int], e, u, adult),
                None => row_index(self.regs@, e, u, adult) == -1,
            },
    {
        let mut i: usize = 0;
        while i < self.regs.len()
            invariant
                i <= self.regs@.len(),
                forall|j: int| 0 <= j < i ==> !same_key(#[trigger] self.regs@[j], e, u, adult),
            decreases self.regs@.len() - i,
        {
            let r = &self.regs[i];
            if r.event_id == e && r.user_id == u && r.is_adult == adult {
                proof {
                    lemma_row_index(self.regs@, e, u, adult, i as int);
                }
                return Some(i);
            }
            i += 1;
        }
        proof {
            lemma_row_index(self.regs@, e, u, adult, -1);
        }
        None
    }

    fn count_in(&self, e: i64, adult: bool, waiting: bool) -> (r: usize)
        ensures
            r == count_group(self.regs@, e, adult, waiting),
    {
        let mut i: usize = 0;
        let mut c: usize = 0;
        while i < self.regs.len()
            invariant
                i <= self.regs@.len(),
                c <= i,
                c == count_group(self.regs@.subrange(0, i as int), e, adult, waiting),
            decreases self.regs@.len() - i,
        {
            proof {
                lemma_count_prefix(self.regs@, i as int, e, adult, waiting);
            }
            let r = &self.regs[i];
            if r.event_id == e && r.is_adult == adult && r.waiting == waiting {
                c += 1;
            }
            i += 1;
        }
        assert(self.regs@.subrange(0, i as int) =~= self.regs@);
        c
    }

    /// Confirmed (adults, children) of event `event_id`.
    pub fn count_confirmed(&self, event_id: i64) -> (r: (usize, usize))
        ensures
            r.0 == count_group(self.regs_view(), event_id, true, false),
            r.1 == count_group(self.regs_view(), event_id, false, false),
    {
        (self.count_in(event_id, true, false), self.count_in(event_id, false, false))
    }

    /// Number of waiting rows of (`event_id`, `adult`).
    pub fn count_waiting(&self, event_id: i64, adult: bool) -> (r: usize)
        ensures
            r == count_group(self.regs_view(), event_id, adult, true),
    {
        self.count_in(event_id, adult, true)
    }

    /// Signs `user_id` up for `units` units of one category of event `event_id`.
    /// An existing row with the same event, user and category is replaced in place.
    pub fn sign_up(
        &mut self,
        event_id: i64,
        user_id: i64,
        user_name1: String,
        user_name2: String,
        is_adult: bool,
        units: i64,
        now: i64,
    ) -> (r: Result<Placement, EngineError>)
        requires
            old(self).wf(),
        ensures
            final(self).wf(),
            final(self).events_view() == old(self).events_view(),
            final(self).next_id_view() == old(self).next_id_view(),
            event_index(old(self).events_view(), event_id) < 0 ==> r == Err::<Placement, EngineError>(
                EngineError::UnknownEvent,
            ) && final(self).regs_view() == old(self).regs_view(),
            event_index(old(self).events_view(), event_id) >= 0 ==> ({
                let ev = old(self).events_view()[event_index(old(self).events_view(), event_id)];
                if units_refused(ev, is_adult, units) {
                    r == Err::<Placement, EngineError>(EngineError::ReservationLimitExceeded)
                        && final(self).regs_view() == old(self).regs_view()
                } else {
                    let p = placement_for(old(self).regs_view(), ev, user_id, is_adult);
                    &&& r == Ok::<Placement, EngineError>(p)
                    &&& final(self).regs_view() == with_row(
                        old(self).regs_view(),
                        signed_row(
                            old(self).regs_view(),
                            event_id,
                            user_id,
                            user_name1,
                            user_name2,
                            is_adult,
                            p == Placement::Waiting,
                            now,
                        ),
                    )
                }
            }),
    {
        let ei = match self.find_event(event_id) {
            Some(i) => i,
            None => {
                return Err(EngineError::UnknownEvent);
            },
        };
        let per = self.events[ei].per_reservation_of(is_adult);
        if units < 1 || units > 1 || units > per {
            return Err(EngineError::ReservationLimitExceeded);
        }
        let cap = self.events[ei].capacity_of(is_adult);
        let confirmed = self.count_in(event_id, is_adult, false);
        let existing = self.find_row(event_id, user_id, is_adult);
        let own: usize = match existing {
            Some(k) => {
                if self.regs[k].waiting {
                    0
                } else {
                    proof {
                        lemma_count_member(self.regs@, k as int, event_id, is_adult, false);
                    }
                    1
                }
            },
            None => 0,
        };
        let others = confirmed - own;
        let placement = if (others as u128) < (cap as u128) {
            Placement::Confirmed
        } else {
            Placement::Waiting
        };
        let row = match existing {
            Some(k) => {
                let mut r = self.regs[k].duplicate();
                r.user_name1 = user_name1;
                r.user_name2 = user_name2;
                r.waiting = placement == Placement::Waiting;
                r
            },
            None => Registration {
                event_id,
                user_id,
                user_name1,
                user_name2,
                is_adult,
                waiting: placement == Placement::Waiting,
                ts: now,
                attachment: None,
                reminded: false,
            },
        };
        let ghost old_regs = self.regs@;
        let ghost new_row = row;
        match existing {
            Some(k) => {
                self.regs.set(k, row);
            },
            None => {
                self.regs.push(row);
            },
        }
        proof {
            assert(self.regs@ == with_row(old_regs, new_row));
            match existing {
                Some(k) => {
                    lemma_keys_update_same(old_regs, k as int, new_row);
                },
                None => {
                    lemma_row_index_facts(old_regs, event_id, user_id, is_adult);
                    lemma_key_none(old_regs, event_id, user_id, is_adult);
                    assert forall|e: i64, u: i64, adult: bool| #[trigger] count_key(self.regs@, e, u, adult) <= 1 by {
                        lemma_key_push(old_regs, new_row, e, u, adult);
                        assert(count_key(old_regs, e, u, adult) <= 1);
                    }
                },
            }
            assert forall|i: int| 0 <= i < self.events@.len() implies capacity_respected(
                self.regs@,
                #[trigger] self.events@[i],
            ) by {
                lemma_with_row_counts(old_regs, new_row, self.events@[i].id, true, false);
                lemma_with_row_counts(old_regs, new_row, self.events@[i].id, false, false);
                if i != ei {
                    assert(self.events@[i].id != self.events@[ei as int].id);
                }
            }
            assert forall|j: int| 0 <= j < self.regs@.len() implies (#[trigger] self.regs@[j]).event_id
                < self.next_id && event_index(self.events@, self.regs@[j].event_id) >= 0 by {
                if j < old_regs.len() && (existing.is_none() || j != existing.unwrap()) {
                    assert(self.regs@[j] == old_regs[j]);
                }
            }
        }
        Ok(placement)
    }

    fn find_first_waiting(&self, e: i64, adult: bool) -> (r: Option<usize>)
        ensures
            match r {
                Some(j) => j as int == first_waiting(self.regs@, e, adult) && j < self.regs@.len(),
                None => first_waiting(self.regs@, e, adult) == -1,
            },
    {
        let mut best: Option<usize> = None;
        let mut i: usize = 0;
        while i < self.regs.len()
            invariant
                i <= self.regs@.len(),
                match best {
                    Some(b) => b < i && b as int == first_waiting(self.regs@.subrange(0, i as int), e, adult),
                    None => first_waiting(self.regs@.subrange(0, i as int), e, adult) == -1,
                },
            decreases self.regs@.len() - i,
        {
            assert(self.regs@.subrange(0, i + 1).drop_last() =~= self.regs@.subrange(0, i as int));
            let r = &self.regs[i];
            if r.event_id == e && r.is_adult == adult && r.waiting {
                match best {
                    None => {
                        best = Some(i);
                    },
                    Some(b) => {
                        if r.ts < self.regs[b].ts {
                            best = Some(i);
                        }
                    },
                }
            }
            i += 1;
        }
        assert(self.regs@.subrange(0, i as int) =~= self.regs@);
        best
    }

    /// Removes the registration of `user_id` for one category of event `event_id`.
    /// When it was confirmed, the first waiting row of that category is confirmed and
    /// its user returned. Cancelling a missing registration changes nothing.
    pub fn cancel(&mut self, event_id: i64, user_id: i64, is_adult: bool) -> (r: Option<i64>)
        requires
            old(self).wf(),
        ensures
            final(self).wf(),
            final(self).events_view() == old(self).events_view(),
            final(self).next_id_view() == old(self).next_id_view(),
            final(self).regs_view() == after_cancel(old(self).regs_view(), event_id, user_id, is_adult),
            r == promoted_by_cancel(old(self).regs_view(), event_id, user_id, is_adult),
    {
        let ghost s = self.regs@;
        let k = match self.find_row(event_id, user_id, is_adult) {
            Some(k) => k,
            None => {
                return None;
            },
        };
        proof {
            assert forall|i: int| 0 <= i < self.events@.len() implies capacity_respected(
                after_cancel(s, event_id, user_id, is_adult),
                #[trigger] self.events@[i],
            ) by {
                lemma_after_cancel_counts(s, event_id, user_id, is_adult, self.events@[i].id, true);
                lemma_after_cancel_counts(s, event_id, user_id, is_adult, self.events@[i].id, false);
            }
        }
        let removed = self.regs.remove(k);
        let ghost rest = self.regs@;
        assert(rest =~= s.remove(k as int));
        proof {
            assert forall|j: int| 0 <= j < rest.len() implies event_index(self.events@, (#[trigger] rest[j]).event_id)
                >= 0 by {
                if j < k {
                    assert(rest[j] == s[j]);
                } else {
                    assert(rest[j] == s[j + 1]);
                }
            }
            assert forall|e: i64, u: i64, adult: bool| #[trigger] count_key(rest, e, u, adult) <= 1 by {
                lemma_key_remove(s, k as int, e, u, adult);
                assert(count_key(s, e, u, adult) <= 1);
            }
        }
        if removed.waiting {
            return None;
        }
        match self.find_first_waiting(event_id, is_adult) {
            None => None,
            Some(j) => {
                let mut row = self.regs.remove(j);
                row.waiting = false;
                let uid = row.user_id;
                self.regs.insert(j, row);
                assert(self.regs@ =~= rest.update(j as int, confirmed_row(rest[j as int])));
                proof {
                    lemma_keys_update_same(rest, j as int, confirmed_row(rest[j as int]));
                    assert forall|m: int| 0 <= m < self.regs@.len() implies event_index(
                        self.events@,
                        (#[trigger] self.regs@[m]).event_id,
                    ) >= 0 by {
                        assert(self.regs@[m].event_id == rest[m].event_id);
                    }
                }
                Some(uid)
            },
        }
    }

    /// Removes both categories of `user_id` for event `event_id`, promoting as
    /// `cancel` does for each; returns the promoted users.
    pub fn wontgo(&mut self, event_id: i64, user_id: i64) -> (r: Vec<i64>)
        requires
            old(self).wf(),
        ensures
            final(self).wf(),
            final(self).events_view() == old(self).events_view(),
            final(self).next_id_view() == old(self).next_id_view(),
            ({
                let s1 = after_cancel(old(self).regs_view(), event_id, user_id, true);
                let adult_promoted = promoted_by_cancel(old(self).regs_view(), event_id, user_id, true);
                let child_promoted = promoted_by_cancel(s1, event_id, user_id, false);
                &&& final(self).regs_view() == after_cancel(s1, event_id, user_id, false)
                &&& r@ == (if adult_promoted.is_some() { seq![adult_promoted.unwrap()] } else { Seq::<i64>::empty() }) + (
                if child_promoted.is_some() {
                    seq![child_promoted.unwrap()]
                } else {
                    Seq::<i64>::empty()
                })
            }),
    {
        let mut promoted: Vec<i64> = Vec::new();
        if let Some(u) = self.cancel(event_id, user_id, true) {
            promoted.push(u);
        }
        if let Some(u) = self.cancel(event_id, user_id, false) {
            promoted.push(u);
        }
        promoted
    }
    /// Removes every event whose id is in `ids`, with its registrations.
    fn remove_events(&mut self, ids: &Vec<i64>)
        requires
            old(self).wf(),
        ensures
            final(self).wf(),
            final(self).next_id_view() == old(self).next_id_view(),
            final(self).events_view() == events_kept(old(self).events_view(), ids@),
            final(self).regs_view() == regs_kept(old(self).regs_view(), ids@),
    {
        let ghost old_events = self.events@;
        let ghost old_regs = self.regs@;
        let mut events: Vec<Event> = Vec::new();
        let mut i: usize = 0;
        while i < self.events.len()
            invariant
                self.wf(),
                self.events@ == old_events,
                i <= old_events.len(),
                events@ == old_events.subrange(0, i as int).filter(keeps_event(ids@)),
                forall|a: int, m: int|
                    0 <= a < events@.len() && i <= m < old_events.len() ==> (#[trigger] events@[a]).id
                        != (#[trigger] old_events[m]).id,
                forall|a: int, b: int|
                    0 <= a < b < events@.len() ==> (#[trigger] events@[a]).id != (#[trigger] events@[b]).id,
            decreases old_events.len() - i,
        {
            let ghost before = events@;
            assert(old_events.subrange(0, i + 1) =~= old_events.subrange(0, i as int).push(old_events[i as int]));
            proof {
                old_events.subrange(0, i as int).lemma_filter_push(old_events[i as int], keeps_event(ids@));
            }
            assert(keeps_event(ids@)(old_events[i as int]) == !ids@.contains(old_events[i as int].id));
            if !contains_id(ids, self.events[i].id) {
                events.push(self.events[i].duplicate());
                assert(events@ =~= before.push(old_events[i as int]));
                assert forall|a: int, b: int|
                    0 <= a < b < events@.len() implies (#[trigger] events@[a]).id != (#[trigger] events@[b]).id by {
                    if b == events@.len() - 1 {
                        assert(events@[a] == before[a]);
                    }
                }
            }
            i += 1;
        }
        assert(old_events.subrange(0, i as int) =~= old_events);
        let mut regs: Vec<Registration> = Vec::new();
        let mut j: usize = 0;
        while j < self.regs.len()
            invariant
                self.regs@ == old_regs,
                j <= old_regs.len(),
                regs@ == old_regs.subrange(0, j as int).filter(keeps_reg(ids@)),
            decreases old_regs.len() - j,
        {
            assert(old_regs.subrange(0, j + 1) =~= old_regs.subrange(0, j as int).push(old_regs[j as int]));
            proof {
                old_regs.subrange(0, j as int).lemma_filter_push(old_regs[j as int], keeps_reg(ids@));
            }
            assert(keeps_reg(ids@)(old_regs[j as int]) == !ids@.contains(old_regs[j as int].event_id));
            let ghost before = regs@;
            if !contains_id(ids, self.regs[j].event_id) {
                regs.push(self.regs[j].duplicate());
                assert(regs@ =~= before.push(old_regs[j as int]));
            }
            j += 1;
        }
        assert(old_regs.subrange(0, j as int) =~= old_regs);
        self.events = events;
        self.regs = regs;
        proof {
            assert(self.events@ == events_kept(old_events, ids@));
            assert(self.regs@ == regs_kept(old_regs, ids@));
            assert forall|a: int| 0 <= a < self.events@.len() implies {
                &&& (#[trigger] self.events@[a]).valid()
                &&& 0 < self.events@[a].id < self.next_id
                &&& capacity_respected(self.regs@, self.events@[a])
            } by {
                let ev = self.events@[a];
                old_events.lemma_filter_pred(keeps_event(ids@), a);
                assert(self.events@.contains(ev));
                old_events.lemma_filter_contains_rev(keeps_event(ids@), ev);
                let m = choose|m: int| 0 <= m < old_events.len() && old_events[m] == ev;
                assert(old_events[m] == ev);
                lemma_count_filter(old_regs, keeps_reg(ids@), true, ev.id, true, false);
                lemma_count_filter(old_regs, keeps_reg(ids@), true, ev.id, false, false);
            }
            assert forall|b: int| 0 <= b < self.regs@.len() implies (#[trigger] self.regs@[b]).event_id
                < self.next_id by {
                let r = self.regs@[b];
                assert(self.regs@.contains(r));
                old_regs.lemma_filter_contains_rev(keeps_reg(ids@), r);
            }
            lemma_kept_rows_have_events(old_events, old_regs, ids@);
            assert forall|e: i64, u: i64, adult: bool| #[trigger] count_key(self.regs@, e, u, adult) <= 1 by {
                lemma_key_filter(old_regs, keeps_reg(ids@), e, u, adult);
                assert(count_key(old_regs, e, u, adult) <= 1);
            }
        }
    }

    /// Removes event `id` and all its registrations; nothing happens when it is absent.
    pub fn delete_event(&mut self, id: i64)
        requires
            old(self).wf(),
        ensures
            final(self).wf(),
            final(self).next_id_view() == old(self).next_id_view(),
            final(self).events_view() == events_kept(old(self).events_view(), seq![id]),
            final(self).regs_view() == regs_kept(old(self).regs_view(), seq![id]),
    {
        let ids: Vec<i64> = vec![id];
        assert(ids@ =~= seq![id]);
        self.remove_events(&ids);
    }

    /// Removes every event whose calendar day is over at `now`, with its registrations.
    pub fn sweep_past_events(&mut self, now: i64)
        requires
            old(self).wf(),
        ensures
            final(self).wf(),
            final(self).next_id_view() == old(self).next_id_view(),
            final(self).events_view() == events_kept(
                old(self).events_view(),
                past_ids(old(self).events_view(), now),
            ),
            final(self).regs_view() == regs_kept(
                old(self).regs_view(),
                past_ids(old(self).events_view(), now),
            ),
    {
        let mut ids: Vec<i64> = Vec::new();
        let mut i: usize = 0;
        while i < self.events.len()
            invariant
                i <= self.events@.len(),
                ids@ == past_ids(self.events@.subrange(0, i as int), now),
            decreases self.events@.len() - i,
        {
            assert(self.events@.subrange(0, i + 1).drop_last() =~= self.events@.subrange(0, i as int));
            let ts = self.events[i].ts;
            let day_left = get_seconds_before_midnight(ts);
            if (ts as i128) + (day_left as i128) <= (now as i128) {
                ids.push(self.events[i].id);
            }
            i += 1;
        }
        assert(self.events@.subrange(0, i as int) =~= self.events@);
        self.remove_events(&ids);
    }

    /// The reminders owed at `now`, one per registration, in store order.
    pub fn due_reminders(&self, now: i64) -> (r: Vec<ReminderRecord>)
        ensures
            r@.len() == due_rows(self.regs_view(), self.events_view(), now).len(),
            forall|a: int|
                0 <= a < r@.len() ==> reminder_of(
                    #[trigger] r@[a],
                    due_rows(self.regs_view(), self.events_view(), now)[a],
                    self.events_view(),
                ),
    {
        let ghost s = self.regs@;
        let mut out: Vec<ReminderRecord> = Vec::new();
        let mut j: usize = 0;
        while j < self.regs.len()
            invariant
                j <= s.len(),
                s == self.regs@,
                out@.len() == s.subrange(0, j as int).filter(due_at(self.events@, now)).len(),
                forall|a: int|
                    0 <= a < out@.len() ==> reminder_of(
                        #[trigger] out@[a],
                        s.subrange(0, j as int).filter(due_at(self.events@, now))[a],
                        self.events@,
                    ),
            decreases s.len() - j,
        {
            let ghost before = s.subrange(0, j as int).filter(due_at(self.events@, now));
            assert(s.subrange(0, j + 1) =~= s.subrange(0, j as int).push(s[j as int]));
            proof {
                s.subrange(0, j as int).lemma_filter_push(s[j as int], due_at(self.events@, now));
            }
            let r = &self.regs[j];
            match self.find_event(r.event_id) {
                Some(k) => {
                    let ev = &self.events[k];
                    if ev.remind <= now && !r.reminded {
                        out.push(
                            ReminderRecord {
                                event_id: r.event_id,
                                user_id: r.user_id,
                                name: ev.name.clone(),
                                link: ev.link.clone(),
                                ts: ev.ts,
                            },
                        );
                    }
                },
                None => {},
            }
            assert forall|a: int| 0 <= a < out@.len() implies reminder_of(
                #[trigger] out@[a],
                s.subrange(0, j + 1).filter(due_at(self.events@, now))[a],
                self.events@,
            ) by {
                if a < before.len() {
                    assert(s.subrange(0, j + 1).filter(due_at(self.events@, now))[a] == before[a]);
                }
            }
            j += 1;
        }
        assert(s.subrange(0, j as int) =~= s);
        out
    }

    /// Marks every reminder owed at `now` as handed out.
    pub fn mark_reminders_sent(&mut self, now: i64)
        requires
            old(self).wf(),
        ensures
            final(self).wf(),
            final(self).events_view() == old(self).events_view(),
            final(self).next_id_view() == old(self).next_id_view(),
            final(self).regs_view().len() == old(self).regs_view().len(),
            forall|i: int|
                0 <= i < old(self).regs_view().len() ==> #[trigger] final(self).regs_view()[i] == marked(
                    old(self).events_view(),
                    old(self).regs_view()[i],
                    now,
                ),
    {
        let ghost s = self.regs@;
        let mut i: usize = 0;
        while i < self.regs.len()
            invariant
                self.wf(),
                self.events@ == old(self).events@,
                self.next_id == old(self).next_id,
                s == old(self).regs@,
                i <= s.len(),
                self.regs@.len() == s.len(),
                forall|m: int| 0 <= m < i ==> #[trigger] self.regs@[m] == marked(self.events@, s[m], now),
                forall|m: int| i <= m < s.len() ==> #[trigger] self.regs@[m] == s[m],
            decreases s.len() - i,
        {
            let due = match self.find_event(self.regs[i].event_id) {
                Some(k) => self.events[k].remind <= now && !self.regs[i].reminded,
                None => false,
            };
            if due {
                let mut row = self.regs[i].duplicate();
                row.reminded = true;
                let ghost before = self.regs@;
                self.regs.set(i, row);
                proof {
                    lemma_keys_update_same(before, i as int, row);
                    assert forall|a: int| 0 <= a < self.events@.len() implies capacity_respected(
                        self.regs@,
                        #[trigger] self.events@[a],
                    ) by {
                        lemma_count_same_group(before, i as int, row, self.events@[a].id, true);
                        lemma_count_same_group(before, i as int, row, self.events@[a].id, false);
                    }
                    assert forall|b: int| 0 <= b < self.regs@.len() implies (#[trigger] self.regs@[b]).event_id
                        < self.next_id by {
                        assert(self.regs@[b].event_id == before[b].event_id);
                    }
                }
            }
            i += 1;
        }
    }

    /// One reminder tick at `now`: hands out the reminders owed, one per registration,
    /// and marks them, so that none is owed at `now` afterwards.
    pub fn reminder_tick(&mut self, now: i64) -> (r: Vec<ReminderRecord>)
        requires
            old(self).wf(),
        ensures
            final(self).wf(),
            final(self).events_view() == old(self).events_view(),
            final(self).next_id_view() == old(self).next_id_view(),
            r@.len() == due_rows(old(self).regs_view(), old(self).events_view(), now).len(),
            forall|a: int|
                0 <= a < r@.len() ==> reminder_of(
                    #[trigger] r@[a],
                    due_rows(old(self).regs_view(), old(self).events_view(), now)[a],
                    old(self).events_view(),
                ),
            final(self).regs_view().len() == old(self).regs_view().len(),
            forall|i: int|
                0 <= i < old(self).regs_view().len() ==> #[trigger] final(self).regs_view()[i] == marked(
                    old(self).events_view(),
                    old(self).regs_view()[i],
                    now,
                ),
            due_rows(final(self).regs_view(), final(self).events_view(), now).len() == 0,
    {
        let records = self.due_reminders(now);
        let ghost before = self.regs@;
        self.mark_reminders_sent(now);
        proof {
            reminders_cleared(before, self.regs@, self.events@, now);
        }
        records
    }

    /// Attaches `text` to the registration of `user_id` for event `event_id`: the
    /// adult row when there is one, else the child row.
    pub fn set_attachment(&mut self, event_id: i64, user_id: i64, text: String) -> (r: Result<
        (),
        EngineError,
    >)
        requires
            old(self).wf(),
        ensures
            final(self).wf(),
            final(self).events_view() == old(self).events_view(),
            final(self).next_id_view() == old(self).next_id_view(),
            ({
                let s = old(self).regs_view();
                let ka = row_index(s, event_id, user_id, true);
                let kc = row_index(s, event_id, user_id, false);
                if ka >= 0 {
                    r is Ok && final(self).regs_view() == s.update(ka, with_attachment(s[ka], text))
                } else if kc >= 0 {
                    r is Ok && final(self).regs_view() == s.update(kc, with_attachment(s[kc], text))
                } else {
                    r == Err::<(), EngineError>(EngineError::NotFoundError) && final(self).regs_view() == s
                }
            }),
    {
        let k = match self.find_row(event_id, user_id, true) {
            Some(k) => k,
            None => match self.find_row(event_id, user_id, false) {
                Some(k) => k,
                None => {
                    return Err(EngineError::NotFoundError);
                },
            },
        };
        let mut row = self.regs[k].duplicate();
        row.attachment = Some(text);
        let ghost before = self.regs@;
        self.regs.set(k, row);
        proof {
            lemma_keys_update_same(before, k as int, row);
            assert forall|a: int| 0 <= a < self.events@.len() implies capacity_respected(
                self.regs@,
                #[trigger] self.events@[a],
            ) by {
                lemma_count_same_group(before, k as int, row, self.events@[a].id, true);
                lemma_count_same_group(before, k as int, row, self.events@[a].id, false);
            }
            assert forall|b: int| 0 <= b < self.regs@.len() implies (#[trigger] self.regs@[b]).event_id
                < self.next_id by {
                assert(self.regs@[b].event_id == before[b].event_id);
            }
        }
        Ok(())
    }

    /// The event of the latest row of `user_id`, if any.
    pub fn most_recent_registration(&self, user_id: i64) -> (r: Option<i64>)
        ensures
            last_row_of(self.regs_view(), user_id) < 0 ==> r.is_none(),
            last_row_of(self.regs_view(), user_id) >= 0 ==> r == Some(
                self.regs_view()[last_row_of(self.regs_view(), user_id)].event_id,
            ),
    {
        let mut found: Option<i64> = None;
        let mut i: usize = 0;
        while i < self.regs.len()
            invariant
                i <= self.regs@.len(),
                last_row_of(self.regs@.subrange(0, i as int), user_id) < 0 ==> found.is_none(),
                last_row_of(self.regs@.subrange(0, i as int), user_id) >= 0 ==> ({
                    let k = last_row_of(self.regs@.subrange(0, i as int), user_id);
                    &&& k < i
                    &&& found == Some(self.regs@[k].event_id)
                }),
            decreases self.regs@.len() - i,
        {
            assert(self.regs@.subrange(0, i + 1).drop_last() =~= self.regs@.subrange(0, i as int));
            if self.regs[i].user_id == user_id {
                found = Some(self.regs[i].event_id);
            }
            i += 1;
        }
        assert(self.regs@.subrange(0, i as int) =~= self.regs@);
        found
    }

    /// Rows of event `event_id` in the given state, in store order.
    pub fn get_participants(&self, event_id: i64, waiting: bool) -> (r: Vec<Registration>)
        ensures
            r@ == self.regs_view().filter(participant_of(event_id, waiting)),
    {
        let mut out: Vec<Registration> = Vec::new();
        let mut j: usize = 0;
        while j < self.regs.len()
            invariant
                j <= self.regs@.len(),
                out@ == self.regs@.subrange(0, j as int).filter(participant_of(event_id, waiting)),
            decreases self.regs@.len() - j,
        {
            assert(self.regs@.subrange(0, j + 1) =~= self.regs@.subrange(0, j as int).push(self.regs@[j as int]));
            proof {
                self.regs@.subrange(0, j as int).lemma_filter_push(self.regs@[j as int], participant_of(event_id, waiting));
            }
            let r = &self.regs[j];
            if r.event_id == event_id && r.waiting == waiting {
                out.push(r.duplicate());
            }
            j += 1;
        }
        assert(self.regs@.subrange(0, j as int) =~= self.regs@);
        out
    }

    /// Events that start after `now`, by ascending start instant; events with equal
    /// instants keep their order of creation.
    pub fn list_open_events(&self, now: i64) -> (r: Vec<Event>)
        ensures
            r@.to_multiset() == self.events_view().filter(starts_after(now)).to_multiset(),
            forall|a: int, b: int| 0 <= a < b < r@.len() ==> (#[trigger] r@[a]).ts <= (#[trigger] r@[b]).ts,
            exists|pos: Seq<int>| stable_events(r@, self.events_view().filter(starts_after(now)), pos),
    {
        let mut rem: Vec<Event> = Vec::new();
        let mut j: usize = 0;
        while j < self.events.len()
            invariant
                j <= self.events@.len(),
                rem@ == self.events@.subrange(0, j as int).filter(starts_after(now)),
            decreases self.events@.len() - j,
        {
            assert(self.events@.subrange(0, j + 1) =~= self.events@.subrange(0, j as int).push(self.events@[j as int]));
            proof {
                self.events@.subrange(0, j as int).lemma_filter_push(self.events@[j as int], starts_after(now));
            }
            if self.events[j].ts > now {
                rem.push(self.events[j].duplicate());
            }
            j += 1;
        }
        assert(self.events@.subrange(0, j as int) =~= self.events@);
        let ghost all = rem@;
        let mut out: Vec<Event> = Vec::new();
        assert(out@.to_multiset().add(rem@.to_multiset()) =~= all.to_multiset());
        let ghost mut pos: Seq<int> = Seq::empty();
        let ghost mut rem_pos: Seq<int> = Seq::new(all.len(), |i: int| i);
        while rem.len() > 0
            invariant
                rem_pos.len() == rem@.len(),
                pos.len() == out@.len(),
                forall|y: int| 0 <= y < rem@.len() ==> 0 <= #[trigger] rem_pos[y] < all.len() && rem@[y] == all[rem_pos[y]],
                forall|y1: int, y2: int| 0 <= y1 < y2 < rem@.len() ==> #[trigger] rem_pos[y1] < #[trigger] rem_pos[y2],
                forall|a: int| 0 <= a < out@.len() ==> 0 <= #[trigger] pos[a] < all.len() && out@[a] == all[pos[a]],
                forall|a: int, y: int|
                    0 <= a < out@.len() && 0 <= y < rem@.len() && out@[a].ts == rem@[y].ts ==> #[trigger] pos[a]
                        < #[trigger] rem_pos[y],
                forall|a: int, b: int|
                    0 <= a < b < out@.len() && out@[a].ts == out@[b].ts ==> #[trigger] pos[a] < #[trigger] pos[b],
                out@.to_multiset().add(rem@.to_multiset()) == all.to_multiset(),
                forall|a: int, b: int| 0 <= a < b < out@.len() ==> (#[trigger] out@[a]).ts <= (#[trigger] out@[b]).ts,
                forall|a: int, y: int|
                    0 <= a < out@.len() && 0 <= y < rem@.len() ==> (#[trigger] out@[a]).ts <= (#[trigger] rem@[y]).ts,
            decreases rem@.len(),
        {
            let mut m: usize = 0;
            let mut i: usize = 1;
            while i < rem.len()
                invariant
                    0 <= m < rem@.len(),
                    1 <= i <= rem@.len(),
                    forall|k: int| 0 <= k < i ==> rem@[m as int].ts <= (#[trigger] rem@[k]).ts,
                    forall|k: int| 0 <= k < m ==> rem@[m as int].ts < (#[trigger] rem@[k]).ts,
                decreases rem@.len() - i,
            {
                if rem[i].ts < rem[m].ts {
                    m = i;
                }
                i += 1;
            }
            let ghost before_rem = rem@;
            let ghost before_out = out@;
            let ghost before_pos = pos;
            let ghost before_rem_pos = rem_pos;
            let x = rem.remove(m);
            out.push(x);
            proof {
                pos = pos.push(rem_pos[m as int]);
                rem_pos = rem_pos.remove(m as int);
                assert forall|y: int| 0 <= y < rem@.len() implies 0 <= #[trigger] rem_pos[y] < all.len() && rem@[y]
                    == all[rem_pos[y]] by {
                    if y < m {
                        assert(rem@[y] == before_rem[y] && rem_pos[y] == before_rem_pos[y]);
                    } else {
                        assert(rem@[y] == before_rem[y + 1] && rem_pos[y] == before_rem_pos[y + 1]);
                    }
                }
                assert forall|y1: int, y2: int| 0 <= y1 < y2 < rem@.len() implies #[trigger] rem_pos[y1]
                    < #[trigger] rem_pos[y2] by {
                    let z1 = if y1 < m { y1 } else { y1 + 1 };
                    let z2 = if y2 < m { y2 } else { y2 + 1 };
                    assert(rem_pos[y1] == before_rem_pos[z1]);
                    assert(rem_pos[y2] == before_rem_pos[z2]);
                }
                assert forall|a: int| 0 <= a < out@.len() implies 0 <= #[trigger] pos[a] < all.len() && out@[a]
                    == all[pos[a]] by {
                    if a < before_out.len() {
                        assert(out@[a] == before_out[a] && pos[a] == before_pos[a]);
                    }
                }
                assert forall|a: int, y: int|
                    0 <= a < out@.len() && 0 <= y < rem@.len() && out@[a].ts == rem@[y].ts implies #[trigger] pos[a]
                        < #[trigger] rem_pos[y] by {
                    let z = if y < m { y } else { y + 1 };
                    assert(rem@[y] == before_rem[z] && rem_pos[y] == before_rem_pos[z]);
                    if a < before_out.len() {
                        assert(out@[a] == before_out[a] && pos[a] == before_pos[a]);
                    } else {
                        assert(pos[a] == before_rem_pos[m as int]);
                        assert(out@[a] == before_rem[m as int]);
                    }
                }
                assert forall|a: int, b: int|
                    0 <= a < b < out@.len() && out@[a].ts == out@[b].ts implies #[trigger] pos[a] < #[trigger] pos[b] by {
                    assert(out@[a] == before_out[a] && pos[a] == before_pos[a]);
                    if b < before_out.len() {
                        assert(out@[b] == before_out[b] && pos[b] == before_pos[b]);
                    } else {
                        assert(pos[b] == before_rem_pos[m as int]);
                        assert(out@[b] == before_rem[m as int]);
                    }
                }
                assert(before_rem.to_multiset().contains(x));
                assert(out@.to_multiset().add(rem@.to_multiset()) =~= before_out.to_multiset().add(
                    before_rem.to_multiset(),
                ));
                assert forall|a: int, y: int|
                    0 <= a < out@.len() && 0 <= y < rem@.len() implies (#[trigger] out@[a]).ts
                    <= (#[trigger] rem@[y]).ts by {
                    if y < m {
                        assert(rem@[y] == before_rem[y]);
                    } else {
                        assert(rem@[y] == before_rem[y + 1]);
                    }
                    if a < before_out.len() {
                        assert(out@[a] == before_out[a]);
                    }
                }
                assert forall|a: int, b: int| 0 <= a < b < out@.len() implies (#[trigger] out@[a]).ts
                    <= (#[trigger] out@[b]).ts by {
                    if b == out@.len() - 1 {
                        assert(out@[a] == before_out[a]);
                        assert(before_rem[m as int] == x);
                    } else {
                        assert(out@[a] == before_out[a]);
                        assert(out@[b] == before_out[b]);
                    }
                }
            }
        }
        assert(rem@.to_multiset() =~= vstd::multiset::Multiset::<Event>::empty());
        assert(out@.to_multiset() =~= all.to_multiset());
        assert(all == self.events@.filter(starts_after(now)));
        assert(stable_events(out@, all, pos));
        assert(stable_events(out@, self.events_view().filter(starts_after(now)), pos));
        out
    }

    /// The waiting rows of (`event_id`, `adult`), by ascending join instant; rows with
    /// equal instants keep their store order.
    pub fn waiting_list(&self, event_id: i64, adult: bool) -> (r: Vec<Registration>)
        ensures
            r@.to_multiset() == self.regs_view().filter(waiting_in(event_id, adult)).to_multiset(),
            forall|a: int, b: int| 0 <= a < b < r@.len() ==> (#[trigger] r@[a]).ts <= (#[trigger] r@[b]).ts,
            exists|pos: Seq<int>| stable_order(r@, self.regs_view().filter(waiting_in(event_id, adult)), pos),
    {
        let mut rem: Vec<Registration> = Vec::new();
        let mut j: usize = 0;
        while j < self.regs.len()
            invariant
                j <= self.regs@.len(),
                rem@ == self.regs@.subrange(0, j as int).filter(waiting_in(event_id, adult)),
            decreases self.regs@.len() - j,
        {
            assert(self.regs@.subrange(0, j + 1) =~= self.regs@.subrange(0, j as int).push(self.regs@[j as int]));
            proof {
                self.regs@.subrange(0, j as int).lemma_filter_push(self.regs@[j as int], waiting_in(event_id, adult));
            }
            let r = &self.regs[j];
            if r.event_id == event_id && r.is_adult == adult && r.waiting {
                rem.push(r.duplicate());
            }
            j += 1;
        }
        assert(self.regs@.subrange(0, j as int) =~= self.regs@);
        let ghost all = rem@;
        let mut out: Vec<Registration> = Vec::new();
        assert(out@.to_multiset().add(rem@.to_multiset()) =~= all.to_multiset());
        let ghost mut pos: Seq<int> = Seq::empty();
        let ghost mut rem_pos: Seq<int> = Seq::new(all.len(), |i: int| i);
        while rem.len() > 0
            invariant
                rem_pos.len() == rem@.len(),
                pos.len() == out@.len(),
                forall|y: int| 0 <= y < rem@.len() ==> 0 <= #[trigger] rem_pos[y] < all.len() && rem@[y] == all[rem_pos[y]],
                forall|y1: int, y2: int| 0 <= y1 < y2 < rem@.len() ==> #[trigger] rem_pos[y1] < #[trigger] rem_pos[y2],
                forall|a: int| 0 <= a < out@.len() ==> 0 <= #[trigger] pos[a] < all.len() && out@[a] == all[pos[a]],
                forall|a: int, y: int|
                    0 <= a < out@.len() && 0 <= y < rem@.len() && out@[a].ts == rem@[y].ts ==> #[trigger] pos[a]
                        < #[trigger] rem_pos[y],
                forall|a: int, b: int|
                    0 <= a < b < out@.len() && out@[a].ts == out@[b].ts ==> #[trigger] pos[a] < #[trigger] pos[b],
                out@.to_multiset().add(rem@.to_multiset()) == all.to_multiset(),
                forall|a: int, b: int| 0 <= a < b < out@.len() ==> (#[trigger] out@[a]).ts <= (#[trigger] out@[b]).ts,
                forall|a: int, y: int|
                    0 <= a < out@.len() && 0 <= y < rem@.len() ==> (#[trigger] out@[a]).ts <= (#[trigger] rem@[y]).ts,
            decreases rem@.len(),
        {
            let mut m: usize = 0;
            let mut i: usize = 1;
            while i < rem.len()
                invariant
                    0 <= m < rem@.len(),
                    1 <= i <= rem@.len(),
                    forall|k: int| 0 <= k < i ==> rem@[m as int].ts <= (#[trigger] rem@[k]).ts,
                    forall|k: int| 0 <= k < m ==> rem@[m as int].ts < (#[trigger] rem@[k]).ts,
                decreases rem@.len() - i,
            {
                if rem[i].ts < rem[m].ts {
                    m = i;
                }
                i += 1;
            }
            let ghost before_rem = rem@;
            let ghost before_out = out@;
            let ghost before_pos = pos;
            let ghost before_rem_pos = rem_pos;
            let x = rem.remove(m);
            out.push(x);
            proof {
                pos = pos.push(rem_pos[m as int]);
                rem_pos = rem_pos.remove(m as int);
                assert forall|y: int| 0 <= y < rem@.len() implies 0 <= #[trigger] rem_pos[y] < all.len() && rem@[y]
                    == all[rem_pos[y]] by {
                    if y < m {
                        assert(rem@[y] == before_rem[y] && rem_pos[y] == before_rem_pos[y]);
                    } else {
                        assert(rem@[y] == before_rem[y + 1] && rem_pos[y] == before_rem_pos[y + 1]);
                    }
                }
                assert forall|y1: int, y2: int| 0 <= y1 < y2 < rem@.len() implies #[trigger] rem_pos[y1]
                    < #[trigger] rem_pos[y2] by {
                    let z1 = if y1 < m { y1 } else { y1 + 1 };
                    let z2 = if y2 < m { y2 } else { y2 + 1 };
                    assert(rem_pos[y1] == before_rem_pos[z1]);
                    assert(rem_pos[y2] == before_rem_pos[z2]);
                }
                assert forall|a: int| 0 <= a < out@.len() implies 0 <= #[trigger] pos[a] < all.len() && out@[a]
                    == all[pos[a]] by {
                    if a < before_out.len() {
                        assert(out@[a] == before_out[a] && pos[a] == before_pos[a]);
                    }
                }
                assert forall|a: int, y: int|
                    0 <= a < out@.len() && 0 <= y < rem@.len() && out@[a].ts == rem@[y].ts implies #[trigger] pos[a]
                        < #[trigger] rem_pos[y] by {
                    let z = if y < m { y } else { y + 1 };
                    assert(rem@[y] == before_rem[z] && rem_pos[y] == before_rem_pos[z]);
                    if a < before_out.len() {
                        assert(out@[a] == before_out[a] && pos[a] == before_pos[a]);
                    } else {
                        assert(pos[a] == before_rem_pos[m as int]);
                        assert(out@[a] == before_rem[m as int]);
                    }
                }
                assert forall|a: int, b: int|
                    0 <= a < b < out@.len() && out@[a].ts == out@[b].ts implies #[trigger] pos[a] < #[trigger] pos[b] by {
                    assert(out@[a] == before_out[a] && pos[a] == before_pos[a]);
                    if b < before_out.len() {
                        assert(out@[b] == before_out[b] && pos[b] == before_pos[b]);
                    } else {
                        assert(pos[b] == before_rem_pos[m as int]);
                        assert(out@[b] == before_rem[m as int]);
                    }
                }
                assert(before_rem.to_multiset().contains(x));
                assert(out@.to_multiset().add(rem@.to_multiset()) =~= before_out.to_multiset().add(
                    before_rem.to_multiset(),
                ));
                assert forall|a: int, y: int|
                    0 <= a < out@.len() && 0 <= y < rem@.len() implies (#[trigger] out@[a]).ts
                    <= (#[trigger] rem@[y]).ts by {
                    if y < m {
                        assert(rem@[y] == before_rem[y]);
                    } else {
                        assert(rem@[y] == before_rem[y + 1]);
                    }
                    if a < before_out.len() {
                        assert(out@[a] == before_out[a]);
                    }
                }
                assert forall|a: int, b: int| 0 <= a < b < out@.len() implies (#[trigger] out@[a]).ts
                    <= (#[trigger] out@[b]).ts by {
                    if b == out@.len() - 1 {
                        assert(out@[a] == before_out[a]);
                        assert(before_rem[m as int] == x);
                    } else {
                        assert(out@[a] == before_out[a]);
                        assert(out@[b] == before_out[b]);
                    }
                }
            }
        }
        assert(rem@.to_multiset() =~= vstd::multiset::Multiset::<Registration>::empty());
        assert(out@.to_multiset() =~= all.to_multiset());
        assert(all == self.regs@.filter(waiting_in(event_id, adult)));
        assert(stable_order(out@, all, pos));
        assert(stable_order(out@, self.regs_view().filter(waiting_in(event_id, adult)), pos));
        out
    }
}

/// Event ids are pairwise distinct.
pub open spec fn ids_unique(events: Seq<Event>) -> bool {
    forall|i: int, j: int| 0 <= i < j < events.len() ==> (#[trigger] events[i]).id != (#[trigger] events[j]).id
}

/// The store never holds two events with one id.
pub proof fn wf_ids_unique(db: &EventDB)
    requires
        db.wf(),
    ensures
        ids_unique(db.events_view()),
{
}

/// A user who holds a row for an event holds it for an existing event, so a repeated
/// sign-up never meets `UnknownEvent`.
pub proof fn registered_event_exists(db: &EventDB, e: i64, u: i64, adult: bool)
    requires
        db.wf(),
        row_index(db.regs_view(), e, u, adult) >= 0,
    ensures
        event_index(db.events_view(), e) >= 0,
{
    lemma_row_index_facts(db.regs_view(), e, u, adult);
    let k = row_index(db.regs_view(), e, u, adult);
    assert(db.regs_view()[k].event_id == e);
}

/// A user holds at most one row per event and category.
pub proof fn one_row_per_key(db: &EventDB)
    requires
        db.wf(),
    ensures
        keys_unique(db.regs_view()),
{
}

/// For every event and both categories, the confirmed registrations stay within
/// the event's capacity; every operation that changes the store keeps this.
pub proof fn capacity_never_exceeded(db: &EventDB)
    requires
        db.wf(),
    ensures
        forall|i: int|
            0 <= i < db.events_view().len() ==> {
                &&& count_group(db.regs_view(), (#[trigger] db.events_view()[i]).id, true, false)
                    <= db.events_view()[i].capacity(true)
                &&& count_group(db.regs_view(), db.events_view()[i].id, false, false)
                    <= db.events_view()[i].capacity(false)
            },
{
    assert forall|i: int| 0 <= i < db.events_view().len() implies capacity_respected(
        db.regs_view(),
        #[trigger] db.events_view()[i],
    ) by {}

}

fn contains_id(ids: &Vec<i64>, x: i64) -> (r: bool)
    ensures
        r == ids@.contains(x),
{
    let mut i: usize = 0;
    while i < ids.len()
        invariant
            i <= ids@.len(),
            forall|j: int| 0 <= j < i ==> ids@[j] != x,
        decreases ids@.len() - i,
    {
        if ids[i] == x {
            assert(ids@[i as int] == x);
            return true;
        }
        i += 1;
    }
    false
}

pub(crate) proof fn lemma_count_zero(s: Seq<Registration>, e: i64, adult: bool)
    requires
        forall|j: int| 0 <= j < s.len() ==> (#[trigger] s[j]).event_id < e,
    ensures
        count_group(s, e, adult, false) == 0,
    decreases s.len(),
{
    if s.len() > 0 {
        lemma_count_zero(s.drop_last(), e, adult);
    }
}

} // verus!
