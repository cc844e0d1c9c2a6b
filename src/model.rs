use vstd::prelude::*;

verus! {

/// A published event with its capacities.
pub struct Event {
    /// Assigned by the store; 0 means "not assigned yet".
    pub id: i64,
    pub name: String,
    /// Empty when the event has no link.
    pub link: String,
    /// Start instant, in seconds since the epoch.
    pub ts: i64,
    /// Reminder instant, in seconds since the epoch.
    pub remind: i64,
    pub max_adults: i64,
    pub max_children: i64,
    pub max_adults_per_reservation: i64,
    pub max_children_per_reservation: i64,
}

impl Event {
    /// Capacities are non-negative and the reminder does not come after the start.
    pub open spec fn valid(&self) -> bool {
        &&& self.max_adults >= 0
        &&& self.max_children >= 0
        &&& self.max_adults_per_reservation >= 0
        &&& self.max_children_per_reservation >= 0
        &&& self.remind <= self.ts
    }

    /// Total capacity of one category.
    pub open spec fn capacity(&self, adult: bool) -> int {
        if adult {
            self.max_adults as int
        } else {
            self.max_children as int
        }
    }

    /// How many units of one category a single reservation may hold.
    pub open spec fn per_reservation(&self, adult: bool) -> int {
        if adult {
            self.max_adults_per_reservation as int
        } else {
            self.max_children_per_reservation as int
        }
    }

    pub fn capacity_of(&self, adult: bool) -> (r: i64)
        ensures
            r == self.capacity(adult),
    {
        if adult {
            self.max_adults
        } else {
            self.max_children
        }
    }

    pub fn per_reservation_of(&self, adult: bool) -> (r: i64)
        ensures
            r == self.per_reservation(adult),
    {
        if adult {
            self.max_adults_per_reservation
        } else {
            self.max_children_per_reservation
        }
    }

    /// A field-by-field copy.
    pub fn duplicate(&self) -> (r: Event)
        ensures
            r == *self,
    {
        Event {
            id: self.id,
            name: self.name.clone(),
            link: self.link.clone(),
            ts: self.ts,
            remind: self.remind,
            max_adults: self.max_adults,
            max_children: self.max_children,
            max_adults_per_reservation: self.max_adults_per_reservation,
            max_children_per_reservation: self.max_children_per_reservation,
        }
    }
}

/// One user's reservation of one category (adult or child) for one event.
pub struct Registration {
    pub event_id: i64,
    pub user_id: i64,
    /// Full name.
    pub user_name1: String,
    /// Handle; may be empty.
    pub user_name2: String,
    /// The category: one adult when true, one child when false.
    pub is_adult: bool,
    /// Queued rather than confirmed.
    pub waiting: bool,
    /// Join instant, in seconds since the epoch; orders the waiting list.
    pub ts: i64,
    pub attachment: Option<String>,
    /// The reminder for this registration has been handed out.
    pub reminded: bool,
}

impl Registration {
    /// Adult units held by this row: 0 or 1.
    pub fn adults(&self) -> (r: i64)
        ensures
            r == (if self.is_adult { 1i64 } else { 0i64 }),
    {
        if self.is_adult {
            1
        } else {
            0
        }
    }

    /// Child units held by this row: 0 or 1.
    pub fn children(&self) -> (r: i64)
        ensures
            r == (if self.is_adult { 0i64 } else { 1i64 }),
    {
        if self.is_adult {
            0
        } else {
            1
        }
    }

    /// A field-by-field copy.
    pub fn duplicate(&self) -> (r: Registration)
        ensures
            r == *self,
    {
        let attachment = match &self.attachment {
            Some(t) => Some(t.clone()),
            None => None,
        };
        Registration {
            event_id: self.event_id,
            user_id: self.user_id,
            user_name1: self.user_name1.clone(),
            user_name2: self.user_name2.clone(),
            is_adult: self.is_adult,
            waiting: self.waiting,
            ts: self.ts,
            attachment,
            reminded: self.reminded,
        }
    }
}

/// What a reminder needs: who gets it and what it is about.
pub struct ReminderRecord {
    pub event_id: i64,
    pub user_id: i64,
    pub name: String,
    pub link: String,
    pub ts: i64,
}

/// Where a sign-up landed.
#[derive(PartialEq, Eq, Structural, Clone, Copy, Debug)]
pub enum Placement {
    Confirmed,
    Waiting,
}

/// Failures of the store and of the capacity rules.
#[derive(PartialEq, Eq, Structural, Clone, Copy, Debug)]
pub enum EngineError {
    /// The referenced event does not exist.
    UnknownEvent,
    /// The request asks for more units than one reservation may hold.
    ReservationLimitExceeded,
    /// An admin-only action by someone who is no admin.
    Unauthorized,
    /// No registration to act on.
    NotFoundError,
    /// The store cannot take the write.
    PersistenceError,
}

/// Settings read at start-up.
pub struct Configuration {
    pub telegram_bot_token: String,
    /// Comma-separated numeric admin ids.
    pub admin_ids: String,
    /// Comma-separated admin handles.
    pub admin_names: String,
    /// Whether anyone may look at a waiting list.
    pub public_lists: bool,
}

/// An event as an admin submits it, with instants still as text.
pub struct NewEvent {
    pub name: String,
    pub link: String,
    pub start: String,
    pub remind: String,
    pub max_adults: i64,
    pub max_children: i64,
    pub max_adults_per_reservation: i64,
    pub max_children_per_reservation: i64,
}

} // verus!
