use vstd::prelude::*;
use crate::model::{EngineError, Event};
use crate::store::{events_kept, last_row_of, participant_of, regs_kept, EventDB};

verus! {

/// The user is an admin by numeric id or by handle.
pub open spec fn admin_by(user_id: i64, handle: Seq<char>, admin_ids: Seq<i64>, admin_names: Seq<String>) -> bool {
    admin_ids.contains(user_id) || exists|i: int| 0 <= i < admin_names.len() && (#[trigger] admin_names[i])@ == handle
}

/// The event each user is looking at, last write winning. It is a convenience for
/// attaching notes and may be rebuilt from the store at any time.
pub struct SessionCache {
    entries: Vec<(i64, i64)>,
}

/// The event recorded for user `u` in `s`: the first entry of `u`.
pub open spec fn session_of(s: Seq<(i64, i64)>, u: i64) -> Option<i64>
    decreases s.len(),
{
    if s.len() == 0 {
        None
    } else if s[0].0 == u {
        Some(s[0].1)
    } else {
        session_of(s.drop_first(), u)
    }
}

proof fn lemma_session_update(s: Seq<(i64, i64)>, k: int, u: i64, e: i64, v: i64)
    requires
        0 <= k < s.len(),
        s[k].0 == u,
        forall|j: int| 0 <= j < k ==> (#[trigger] s[j]).0 != u,
    ensures
        session_of(s.update(k, (u, e)), v) == if v == u { Some(e) } else { session_of(s, v) },
    decreases s.len(),
{
    if k > 0 {
        assert(s.update(k, (u, e))[0] == s[0]);
        assert(s[0].0 != u);
        assert(s.update(k, (u, e)).drop_first() =~= s.drop_first().update(k - 1, (u, e)));
        assert forall|j: int| 0 <= j < k - 1 implies (#[trigger] s.drop_first()[j]).0 != u by {
            assert(s[j + 1].0 != u);
        }
        lemma_session_update(s.drop_first(), k - 1, u, e, v);
    } else {
        assert(s.update(k, (u, e)).drop_first() =~= s.drop_first());
    }
}

proof fn lemma_session_push(s: Seq<(i64, i64)>, u: i64, e: i64, v: i64)
    requires
        forall|j: int| 0 <= j < s.len() ==> (#[trigger] s[j]).0 != u,
    ensures
        session_of(s.push((u, e)), v) == if v == u { Some(e) } else { session_of(s, v) },
    decreases s.len(),
{
    if s.len() > 0 {
        assert(s.push((u, e))[0] == s[0]);
        assert(s[0].0 != u);
        assert(s.push((u, e)).drop_first() =~= s.drop_first().push((u, e)));
        assert forall|j: int| 0 <= j < s.drop_first().len() implies (#[trigger] s.drop_first()[j]).0 != u by {
            assert(s[j + 1].0 != u);
        }
        lemma_session_push(s.drop_first(), u, e, v);
    } else {
        let t = s.push((u, e));
        assert(t[0] == (u, e));
        assert(t.drop_first() =~= Seq::<(i64, i64)>::empty());
        assert(session_of(t.drop_first(), v) is None);
    }
}

proof fn lemma_session_none(s: Seq<(i64, i64)>, u: i64)
    requires
        forall|j: int| 0 <= j < s.len() ==> (#[trigger] s[j]).0 != u,
    ensures
        session_of(s, u) is None,
    decreases s.len(),
{
    if s.len() > 0 {
        assert forall|j: int| 0 <= j < s.drop_first().len() implies (#[trigger] s.drop_first()[j]).0 != u by {
            assert(s[j + 1].0 != u);
        }
        lemma_session_none(s.drop_first(), u);
    }
}

proof fn lemma_session_found(s: Seq<(i64, i64)>, k: int, u: i64)
    requires
        0 <= k < s.len(),
        s[k].0 == u,
        forall|j: int| 0 <= j < k ==> (#[trigger] s[j]).0 != u,
    ensures
        session_of(s, u) == Some(s[k].1),
    decreases s.len(),
{
    if k > 0 {
        assert forall|j: int| 0 <= j < k - 1 implies (#[trigger] s.drop_first()[j]).0 != u by {
            assert(s[j + 1].0 != u);
        }
        lemma_session_found(s.drop_first(), k - 1, u);
    }
}

impl SessionCache {
    /// The event recorded for user `u`, if any.
    pub closed spec fn lookup(&self, u: i64) -> Option<i64> {
        session_of(self.entries@, u)
    }

    pub fn new() -> (r: SessionCache)
        ensures
            forall|u: i64| #[trigger] r.lookup(u) is None,
    {
        SessionCache { entries: Vec::new() }
    }

    fn find(&self, u: i64) -> (r: Option<usize>)
        ensures
            match r {
                Some(k) => k < self.entries@.len() && self.entries@[k as int].0 == u && forall|j: int|
                    0 <= j < k ==> (#[trigger] self.entries@[j]).0 != u,
                None => forall|j: int| 0 <= j < self.entries@.len() ==> (#[trigger] self.entries@[j]).0 != u,
            },
    {
        let mut i: usize = 0;
        while i < self.entries.len()
            invariant
                i <= self.entries@.len(),
                forall|j: int| 0 <= j < i ==> (#[trigger] self.entries@[j]).0 != u,
            decreases self.entries@.len() - i,
        {
            if self.entries[i].0 == u {
                return Some(i);
            }
            i += 1;
        }
        None
    }

    /// Records that user `u` is looking at event `e`.
    pub fn set(&mut self, u: i64, e: i64)
        ensures
            final(self).lookup(u) == Some(e),
            forall|v: i64| v != u ==> #[trigger] final(self).lookup(v) == old(self).lookup(v),
    {
        match self.find(u) {
            Some(k) => {
                let ghost s = self.entries@;
                self.entries.set(k, (u, e));
                proof {
                    lemma_session_update(s, k as int, u, e, u);
                    assert forall|v: i64| v != u implies #[trigger] session_of(self.entries@, v) == session_of(s, v) by {
                        lemma_session_update(s, k as int, u, e, v);
                    }
                }
            },
            None => {
                let ghost s = self.entries@;
                self.entries.push((u, e));
                proof {
                    lemma_session_push(s, u, e, u);
                    assert forall|v: i64| v != u implies #[trigger] session_of(self.entries@, v) == session_of(s, v) by {
                        lemma_session_push(s, u, e, v);
                    }
                }
            },
        }
    }

    /// The event recorded for user `u`, if any.
    pub fn get(&self, u: i64) -> (r: Option<i64>)
        ensures
            r == self.lookup(u),
    {
        match self.find(u) {
            Some(k) => {
                proof {
                    lemma_session_found(self.entries@, k as int, u);
                }
                Some(self.entries[k].1)
            },
            None => {
                proof {
                    lemma_session_none(self.entries@, u);
                }
                None
            },
        }
    }
}

/// Whether the acting user may take admin-only actions.
pub fn is_admin(user_id: i64, handle: &String, admin_ids: &Vec<i64>, admin_names: &Vec<String>) -> (r: bool)
    ensures
        r == admin_by(user_id, handle@, admin_ids@, admin_names@),
{
    let mut i: usize = 0;
    while i < admin_ids.len()
        invariant
            i <= admin_ids@.len(),
            forall|j: int| 0 <= j < i ==> admin_ids@[j] != user_id,
        decreases admin_ids@.len() - i,
    {
        if admin_ids[i] == user_id {
            assert(admin_ids@[i as int] == user_id);
            return true;
        }
        i += 1;
    }
    let mut k: usize = 0;
    while k < admin_names.len()
        invariant
            k <= admin_names@.len(),
            forall|j: int| 0 <= j < k ==> (#[trigger] admin_names@[j])@ != handle@,
        decreases admin_names@.len() - k,
    {
        if admin_names[k] == *handle {
            return true;
        }
        k += 1;
    }
    false
}

/// Admits an admin-only action (creating, deleting, broadcasting) for admins alone.
pub fn authorize(user_id: i64, handle: &String, admin_ids: &Vec<i64>, admin_names: &Vec<String>) -> (r: Result<
    (),
    EngineError,
>)
    ensures
        admin_by(user_id, handle@, admin_ids@, admin_names@) ==> r is Ok,
        !admin_by(user_id, handle@, admin_ids@, admin_names@) ==> r == Err::<(), EngineError>(
            EngineError::Unauthorized,
        ),
{
    if is_admin(user_id, handle, admin_ids, admin_names) {
        Ok(())
    } else {
        Err(EngineError::Unauthorized)
    }
}

/// Creates `ev` when the acting user is an admin; anyone else gets `Unauthorized`
/// and the store stays as it was.
pub fn create_event_as(
    db: &mut EventDB,
    user_id: i64,
    handle: &String,
    admin_ids: &Vec<i64>,
    admin_names: &Vec<String>,
    ev: Event,
) -> (r: Result<i64, EngineError>)
    requires
        old(db).wf(),
        ev.valid(),
    ensures
        final(db).wf(),
        !admin_by(user_id, handle@, admin_ids@, admin_names@) ==> r == Err::<i64, EngineError>(
            EngineError::Unauthorized,
        ) && *final(db) == *old(db),
        admin_by(user_id, handle@, admin_ids@, admin_names@) ==> {
            &&& final(db).regs_view() == old(db).regs_view()
            &&& old(db).next_id_view() == i64::MAX ==> r == Err::<i64, EngineError>(
                EngineError::PersistenceError,
            ) && final(db).events_view() == old(db).events_view()
            &&& old(db).next_id_view() < i64::MAX ==> r == Ok::<i64, EngineError>(old(db).next_id_view())
                && final(db).events_view() == old(db).events_view().push(
                Event { id: old(db).next_id_view(), ..ev },
            )
        },
{
    if !is_admin(user_id, handle, admin_ids, admin_names) {
        return Err(EngineError::Unauthorized);
    }
    db.create_event(ev)
}

/// Deletes event `event_id` with its registrations when the acting user is an admin;
/// anyone else gets `Unauthorized` and the store stays as it was.
pub fn delete_event_as(
    db: &mut EventDB,
    user_id: i64,
    handle: &String,
    admin_ids: &Vec<i64>,
    admin_names: &Vec<String>,
    event_id: i64,
) -> (r: Result<(), EngineError>)
    requires
        old(db).wf(),
    ensures
        final(db).wf(),
        !admin_by(user_id, handle@, admin_ids@, admin_names@) ==> r == Err::<(), EngineError>(
            EngineError::Unauthorized,
        ) && *final(db) == *old(db),
        admin_by(user_id, handle@, admin_ids@, admin_names@) ==> {
            &&& r is Ok
            &&& final(db).events_view() == events_kept(old(db).events_view(), seq![event_id])
            &&& final(db).regs_view() == regs_kept(old(db).regs_view(), seq![event_id])
        },
{
    if !is_admin(user_id, handle, admin_ids, admin_names) {
        return Err(EngineError::Unauthorized);
    }
    db.delete_event(event_id);
    Ok(())
}

/// The recipients of a broadcast about event `event_id` when the acting user is an
/// admin; anyone else gets `Unauthorized`.
pub fn broadcast_as(
    db: &EventDB,
    user_id: i64,
    handle: &String,
    admin_ids: &Vec<i64>,
    admin_names: &Vec<String>,
    event_id: i64,
) -> (r: Result<Vec<i64>, EngineError>)
    ensures
        !admin_by(user_id, handle@, admin_ids@, admin_names@) ==> r == Err::<Vec<i64>, EngineError>(
            EngineError::Unauthorized,
        ),
        admin_by(user_id, handle@, admin_ids@, admin_names@) ==> {
            &&& r is Ok
            &&& r->Ok_0@.len() == db.regs_view().filter(participant_of(event_id, false)).len()
            &&& forall|i: int|
                0 <= i < r->Ok_0@.len() ==> #[trigger] r->Ok_0@[i] == db.regs_view().filter(
                    participant_of(event_id, false),
                )[i].user_id
        },
{
    if !is_admin(user_id, handle, admin_ids, admin_names) {
        return Err(EngineError::Unauthorized);
    }
    Ok(broadcast_recipients(db, event_id))
}

/// A waiting list is shown to everyone when lists are public, else to admins only.
pub fn may_view_waiting_list(public_lists: bool, admin: bool) -> (r: bool)
    ensures
        r == (public_lists || admin),
{
    public_lists || admin
}

/// The event a free-text note of `user_id` goes to: the one of the user's session,
/// else the one of the user's latest registration.
pub fn note_target(db: &EventDB, session: Option<i64>, user_id: i64) -> (r: Option<i64>)
    ensures
        session is Some ==> r == session,
        session is None && last_row_of(db.regs_view(), user_id) < 0 ==> r is None,
        session is None && last_row_of(db.regs_view(), user_id) >= 0 ==> r == Some(
            db.regs_view()[last_row_of(db.regs_view(), user_id)].event_id,
        ),
{
    match session {
        Some(e) => Some(e),
        None => db.most_recent_registration(user_id),
    }
}

/// The users a broadcast about event `event_id` goes to: its confirmed participants,
/// in store order.
pub fn broadcast_recipients(db: &EventDB, event_id: i64) -> (r: Vec<i64>)
    ensures
        r@.len() == db.regs_view().filter(participant_of(event_id, false)).len(),
        forall|i: int|
            0 <= i < r@.len() ==> #[trigger] r@[i] == db.regs_view().filter(
                participant_of(event_id, false),
            )[i].user_id,
{
    let parts = db.get_participants(event_id, false);
    let mut out: Vec<i64> = Vec::new();
    let mut i: usize = 0;
    while i < parts.len()
        invariant
            i <= parts@.len(),
            out@.len() == i,
            forall|j: int| 0 <= j < i ==> #[trigger] out@[j] == parts@[j].user_id,
        decreases parts@.len() - i,
    {
        out.push(parts[i].user_id);
        i += 1;
    }
    out
}

} // verus!
