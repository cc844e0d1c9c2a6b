use vstd::prelude::*;
use crate::model::{Event, Placement, Registration};
use crate::store::{
    after_cancel, confirmed_row, count_group, due_at, due_rows, events_kept, first_waiting, ids_unique,
    in_group, is_due, count_key, lemma_key_remove, lemma_key_update, is_past, keeps_event, keeps_reg, lemma_after_cancel_counts, lemma_count_member,
    lemma_count_none, lemma_count_remove, lemma_first_waiting, lemma_past_ids, lemma_row_index_facts,
    lemma_with_row_counts, marked, past_ids, placement_for, promoted_by_cancel, regs_kept, row_index,
    same_key, with_row,
};

verus! {

/// Where row `m` stands once row `k` is removed.
pub open spec fn shifted(m: int, k: int) -> int {
    if m < k {
        m
    } else {
        m - 1
    }
}

/// A first sign-up lands in the confirmed list while the confirmed count is below
/// the capacity, and on the waiting list once it has reached it.
pub proof fn sign_up_placement(s: Seq<Registration>, ev: Event, u: i64, adult: bool)
    requires
        row_index(s, ev.id, u, adult) < 0,
    ensures
        count_group(s, ev.id, adult, false) < ev.capacity(adult) ==> placement_for(s, ev, u, adult)
            == Placement::Confirmed,
        count_group(s, ev.id, adult, false) == ev.capacity(adult) ==> placement_for(s, ev, u, adult)
            == Placement::Waiting,
{
}

/// Cancelling a confirmed registration while someone waits in the same category
/// confirms the waiting row with the smallest join instant and leaves every other
/// row as it was: the confirmed count stays and the waiting list is one shorter.
pub proof fn cancel_confirmed_promotes_earliest(s: Seq<Registration>, e: i64, u: i64, adult: bool)
    requires
        row_index(s, e, u, adult) >= 0,
        !s[row_index(s, e, u, adult)].waiting,
        count_group(s, e, adult, true) > 0,
    ensures
        ({
            let k = row_index(s, e, u, adult);
            let rest = s.remove(k);
            let j = first_waiting(rest, e, adult);
            &&& 0 <= j < rest.len()
            &&& in_group(rest[j], e, adult, true)
            &&& forall|m: int|
                0 <= m < s.len() && in_group(#[trigger] s[m], e, adult, true) ==> rest[j].ts <= s[m].ts
            &&& promoted_by_cancel(s, e, u, adult) == Some(rest[j].user_id)
            &&& after_cancel(s, e, u, adult) == rest.update(j, confirmed_row(rest[j]))
            &&& forall|m: int|
                0 <= m < s.len() && m != k ==> after_cancel(s, e, u, adult)[shifted(m, k)] == if shifted(m, k)
                    == j {
                    confirmed_row(#[trigger] s[m])
                } else {
                    s[m]
                }
            &&& count_group(after_cancel(s, e, u, adult), e, adult, false) == count_group(s, e, adult, false)
            &&& count_group(after_cancel(s, e, u, adult), e, adult, true) + 1 == count_group(
                s,
                e,
                adult,
                true,
            )
        }),
{
    let k = row_index(s, e, u, adult);
    lemma_row_index_facts(s, e, u, adult);
    let rest = s.remove(k);
    lemma_count_remove(s, k, e, adult, true);
    lemma_first_waiting(rest, e, adult);
    lemma_after_cancel_counts(s, e, u, adult, e, adult);
    if first_waiting(rest, e, adult) < 0 {
        lemma_count_none(rest, e, adult, true);
    }
    assert forall|m: int| 0 <= m < s.len() && m != k implies after_cancel(s, e, u, adult)[shifted(m, k)] == if shifted(
        m,
        k,
    ) == first_waiting(rest, e, adult) {
        confirmed_row(#[trigger] s[m])
    } else {
        s[m]
    } by {
        if m < k {
            assert(rest[m] == s[m]);
        } else {
            assert(rest[m - 1] == s[m]);
        }
    }
    assert forall|m: int| 0 <= m < s.len() && in_group(#[trigger] s[m], e, adult, true) implies rest[first_waiting(
        rest,
        e,
        adult,
    )].ts <= s[m].ts by {
        if m < k {
            assert(rest[m] == s[m]);
        } else if m > k {
            assert(rest[m - 1] == s[m]);
        }
    }
}

/// Cancelling a confirmed registration while nobody waits in that category frees
/// one slot and promotes nobody.
pub proof fn cancel_confirmed_without_waiting(s: Seq<Registration>, e: i64, u: i64, adult: bool)
    requires
        row_index(s, e, u, adult) >= 0,
        !s[row_index(s, e, u, adult)].waiting,
        count_group(s, e, adult, true) == 0,
    ensures
        promoted_by_cancel(s, e, u, adult) == None::<i64>,
        count_group(after_cancel(s, e, u, adult), e, adult, false) + 1 == count_group(s, e, adult, false),
{
    let k = row_index(s, e, u, adult);
    lemma_row_index_facts(s, e, u, adult);
    let rest = s.remove(k);
    lemma_count_remove(s, k, e, adult, true);
    lemma_first_waiting(rest, e, adult);
    if first_waiting(rest, e, adult) >= 0 {
        lemma_count_member(rest, first_waiting(rest, e, adult), e, adult, true);
    }
    lemma_after_cancel_counts(s, e, u, adult, e, adult);
}

/// Cancelling a waiting registration changes no confirmed count and promotes nobody.
pub proof fn cancel_waiting_keeps_confirmed(s: Seq<Registration>, e: i64, u: i64, adult: bool, e2: i64, adult2: bool)
    requires
        row_index(s, e, u, adult) >= 0,
        s[row_index(s, e, u, adult)].waiting,
    ensures
        promoted_by_cancel(s, e, u, adult) == None::<i64>,
        count_group(after_cancel(s, e, u, adult), e2, adult2, false) == count_group(s, e2, adult2, false),
{
    lemma_row_index_facts(s, e, u, adult);
    lemma_after_cancel_counts(s, e, u, adult, e2, adult2);
}

/// Signing up again with the same event, user and category replaces the row: the
/// number of rows, the number of rows with that key (one), and the confirmed plus
/// waiting count of that category stay.
pub proof fn repeat_sign_up_replaces(s: Seq<Registration>, r1: Registration, r2: Registration)
    requires
        same_key(r2, r1.event_id, r1.user_id, r1.is_adult),
    ensures
        ({
            let s1 = with_row(s, r1);
            let s2 = with_row(s1, r2);
            &&& s2.len() == s1.len()
            &&& count_key(s1, r1.event_id, r1.user_id, r1.is_adult) >= 1
            &&& count_key(s2, r1.event_id, r1.user_id, r1.is_adult) == count_key(
                s1,
                r1.event_id,
                r1.user_id,
                r1.is_adult,
            )
            &&& count_group(s2, r1.event_id, r1.is_adult, false) + count_group(s2, r1.event_id, r1.is_adult, true)
                == count_group(s1, r1.event_id, r1.is_adult, false) + count_group(
                s1,
                r1.event_id,
                r1.is_adult,
                true,
            )
        }),
{
    let s1 = with_row(s, r1);
    lemma_row_index_facts(s, r1.event_id, r1.user_id, r1.is_adult);
    lemma_row_index_facts(s1, r1.event_id, r1.user_id, r1.is_adult);
    let k = row_index(s, r1.event_id, r1.user_id, r1.is_adult);
    if k >= 0 {
        assert(s1[k] == r1);
    } else {
        assert(s1[s.len() as int] == r1);
    }
    lemma_with_row_counts(s1, r2, r1.event_id, r1.is_adult, false);
    lemma_with_row_counts(s1, r2, r1.event_id, r1.is_adult, true);
    let k2 = row_index(s1, r1.event_id, r1.user_id, r1.is_adult);
    lemma_key_remove(s1, k2, r1.event_id, r1.user_id, r1.is_adult);
    lemma_key_update(s1, k2, r2, r1.event_id, r1.user_id, r1.is_adult);
}

/// After the reminders owed at `now` are marked, none is owed at `now` any more.
pub proof fn reminders_cleared(s: Seq<Registration>, t: Seq<Registration>, events: Seq<Event>, now: i64)
    requires
        t.len() == s.len(),
        forall|i: int| 0 <= i < s.len() ==> #[trigger] t[i] == marked(events, s[i], now),
    ensures
        due_rows(t, events, now).len() == 0,
{
    assert forall|i: int| 0 <= i < t.len() implies !due_at(events, now)(#[trigger] t[i]) by {
        assert(t[i] == marked(events, s[i], now));
    }
    t.lemma_all_neg_filter_empty(due_at(events, now));
}

/// The sweep at `now` removes every event whose day is over, with all its
/// registrations, and keeps every other event with all of its registrations.
pub proof fn sweep_removes_only_past(events: Seq<Event>, regs: Seq<Registration>, now: i64)
    requires
        ids_unique(events),
    ensures
        forall|m: int|
            0 <= m < events.len() && is_past(#[trigger] events[m], now) ==> {
                &&& !events_kept(events, past_ids(events, now)).contains(events[m])
                &&& forall|b: int|
                    0 <= b < regs_kept(regs, past_ids(events, now)).len() ==> (#[trigger] regs_kept(
                        regs,
                        past_ids(events, now),
                    )[b]).event_id != events[m].id
            },
        forall|m: int|
            0 <= m < events.len() && !is_past(#[trigger] events[m], now) ==> {
                &&& events_kept(events, past_ids(events, now)).contains(events[m])
                &&& forall|j: int|
                    0 <= j < regs.len() && (#[trigger] regs[j]).event_id == events[m].id ==> regs_kept(
                        regs,
                        past_ids(events, now),
                    ).contains(regs[j])
            },
{
    let ids = past_ids(events, now);
    let ke = events_kept(events, ids);
    let kr = regs_kept(regs, ids);
    assert forall|m: int| 0 <= m < events.len() && is_past(#[trigger] events[m], now) implies {
        &&& !ke.contains(events[m])
        &&& forall|b: int| 0 <= b < kr.len() ==> (#[trigger] kr[b]).event_id != events[m].id
    } by {
        lemma_past_ids(events, now, events[m].id);
        if ke.contains(events[m]) {
            let x = choose|x: int| 0 <= x < ke.len() && ke[x] == events[m];
            events.lemma_filter_pred(keeps_event(ids), x);
        }
        assert forall|b: int| 0 <= b < kr.len() implies (#[trigger] kr[b]).event_id != events[m].id by {
            regs.lemma_filter_pred(keeps_reg(ids), b);
        }
    }
    assert forall|m: int| 0 <= m < events.len() && !is_past(#[trigger] events[m], now) implies {
        &&& ke.contains(events[m])
        &&& forall|j: int|
            0 <= j < regs.len() && (#[trigger] regs[j]).event_id == events[m].id ==> kr.contains(regs[j])
    } by {
        lemma_past_ids(events, now, events[m].id);
        if ids.contains(events[m].id) {
            let m2 = choose|m2: int| 0 <= m2 < events.len() && (#[trigger] events[m2]).id == events[m].id && is_past(events[m2], now);
            if m2 < m {
                assert(events[m2].id != events[m].id);
            } else if m2 > m {
                assert(events[m].id != events[m2].id);
            }
        }
        events.lemma_filter_contains(keeps_event(ids), m);
        assert forall|j: int| 0 <= j < regs.len() && (#[trigger] regs[j]).event_id == events[m].id implies kr.contains(regs[j]) by {
            regs.lemma_filter_contains(keeps_reg(ids), j);
        }
    }
}

} // verus!
