//! Event reservations with limited capacity: sign-ups that are confirmed or queued,
//! cancellations that promote from the waiting list, reminders and the retirement
//! of finished events.

use vstd::prelude::*;

pub mod laws;
pub mod model;
pub mod request;
pub mod router;
pub mod store;
pub mod util;

verus! {

} // verus!
