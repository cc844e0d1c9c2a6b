use event_manager::model::{EngineError, Event, NewEvent, Placement};
use event_manager::request::{build_event, event_from_request};
use event_manager::router::{
    authorize, broadcast_as, broadcast_recipients, create_event_as, delete_event_as, is_admin,
    may_view_waiting_list, note_target, SessionCache,
};
use event_manager::store::EventDB;

fn event(max_adults: i64, max_children: i64, per_adult: i64, per_child: i64, ts: i64, remind: i64) -> Event {
    Event {
        id: 0,
        name: "Picnic".to_string(),
        link: "https://example.org/p".to_string(),
        ts,
        remind,
        max_adults,
        max_children,
        max_adults_per_reservation: per_adult,
        max_children_per_reservation: per_child,
    }
}

fn sign(db: &mut EventDB, e: i64, u: i64, adult: bool, now: i64) -> Result<Placement, EngineError> {
    db.sign_up(e, u, format!("User {}", u), String::new(), adult, 1, now)
}

fn user_ids(db: &EventDB, e: i64, waiting: bool) -> Vec<i64> {
    db.get_participants(e, waiting).iter().map(|r| r.user_id).collect()
}

#[test]
fn two_adult_slots_three_users() {
    let mut db = EventDB::new();
    let e = db.create_event(event(2, 0, 1, 1, 10_000, 5_000)).unwrap();
    assert_eq!(sign(&mut db, e, 1, true, 100), Ok(Placement::Confirmed));
    assert_eq!(sign(&mut db, e, 2, true, 101), Ok(Placement::Confirmed));
    assert_eq!(sign(&mut db, e, 3, true, 102), Ok(Placement::Waiting));
    assert_eq!(db.cancel(e, 1, true), Some(3));
    assert_eq!(user_ids(&db, e, false), vec![2, 3]);
    assert!(user_ids(&db, e, true).is_empty());
    assert_eq!(db.count_confirmed(e), (2, 0));
}

#[test]
fn two_adult_units_in_one_call_are_refused() {
    let mut db = EventDB::new();
    let e = db.create_event(event(5, 5, 1, 1, 10_000, 5_000)).unwrap();
    assert_eq!(
        db.sign_up(e, 7, "A".to_string(), String::new(), true, 2, 100),
        Err(EngineError::ReservationLimitExceeded)
    );
    assert_eq!(db.count_confirmed(e), (0, 0));
}

#[test]
fn category_with_zero_per_reservation_is_refused() {
    let mut db = EventDB::new();
    let e = db.create_event(event(5, 5, 1, 0, 10_000, 5_000)).unwrap();
    assert_eq!(sign(&mut db, e, 7, false, 100), Err(EngineError::ReservationLimitExceeded));
    assert_eq!(sign(&mut db, e, 7, true, 100), Ok(Placement::Confirmed));
}

#[test]
fn unknown_event_is_refused() {
    let mut db = EventDB::new();
    assert_eq!(sign(&mut db, 42, 1, true, 100), Err(EngineError::UnknownEvent));
}

#[test]
fn reminders_go_out_once() {
    let mut db = EventDB::new();
    let e = db.create_event(event(2, 2, 1, 1, 10_000, 5_000)).unwrap();
    sign(&mut db, e, 1, true, 100).unwrap();
    sign(&mut db, e, 2, false, 101).unwrap();
    assert!(db.due_reminders(4_999).is_empty());
    let due = db.due_reminders(5_001);
    assert_eq!(due.len(), 2);
    assert_eq!(due[0].user_id, 1);
    assert_eq!(due[1].user_id, 2);
    assert_eq!(due[0].event_id, e);
    assert_eq!(due[0].name, "Picnic");
    assert_eq!(due[0].ts, 10_000);
    db.mark_reminders_sent(5_001);
    assert!(db.due_reminders(5_001).is_empty());
    assert!(db.due_reminders(5_002).is_empty());
}

#[test]
fn cancel_confirmed_without_waiting_frees_a_slot() {
    let mut db = EventDB::new();
    let e = db.create_event(event(2, 2, 1, 1, 10_000, 5_000)).unwrap();
    sign(&mut db, e, 1, true, 100).unwrap();
    sign(&mut db, e, 2, true, 101).unwrap();
    assert_eq!(db.cancel(e, 1, true), None);
    assert_eq!(db.count_confirmed(e), (1, 0));
}

#[test]
fn cancel_waiting_promotes_nobody() {
    let mut db = EventDB::new();
    let e = db.create_event(event(1, 1, 1, 1, 10_000, 5_000)).unwrap();
    sign(&mut db, e, 1, true, 100).unwrap();
    sign(&mut db, e, 2, true, 101).unwrap();
    sign(&mut db, e, 3, true, 102).unwrap();
    assert_eq!(db.cancel(e, 2, true), None);
    assert_eq!(db.count_confirmed(e), (1, 0));
    assert_eq!(db.count_waiting(e, true), 1);
}

#[test]
fn promotion_picks_earliest_join_in_same_category() {
    let mut db = EventDB::new();
    let e = db.create_event(event(1, 1, 1, 1, 10_000, 5_000)).unwrap();
    sign(&mut db, e, 1, true, 100).unwrap();
    sign(&mut db, e, 2, true, 300).unwrap();
    sign(&mut db, e, 3, true, 200).unwrap();
    sign(&mut db, e, 4, false, 50).unwrap();
    sign(&mut db, e, 5, false, 60).unwrap();
    assert_eq!(db.cancel(e, 1, true), Some(3));
    assert_eq!(user_ids(&db, e, true), vec![2, 5]);
}

#[test]
fn cancel_of_missing_registration_is_a_no_op() {
    let mut db = EventDB::new();
    let e = db.create_event(event(1, 1, 1, 1, 10_000, 5_000)).unwrap();
    sign(&mut db, e, 1, true, 100).unwrap();
    assert_eq!(db.cancel(e, 9, true), None);
    assert_eq!(db.cancel(e, 1, false), None);
    assert_eq!(db.count_confirmed(e), (1, 0));
}

#[test]
fn repeat_sign_up_replaces_the_row() {
    let mut db = EventDB::new();
    let e = db.create_event(event(1, 1, 1, 1, 10_000, 5_000)).unwrap();
    sign(&mut db, e, 1, true, 100).unwrap();
    sign(&mut db, e, 2, true, 101).unwrap();
    assert_eq!(sign(&mut db, e, 1, true, 102), Ok(Placement::Confirmed));
    assert_eq!(sign(&mut db, e, 2, true, 103), Ok(Placement::Waiting));
    assert_eq!(db.count_confirmed(e), (1, 0));
    assert_eq!(db.count_waiting(e, true), 1);
}

#[test]
fn wontgo_removes_both_categories_and_promotes() {
    let mut db = EventDB::new();
    let e = db.create_event(event(1, 1, 1, 1, 10_000, 5_000)).unwrap();
    sign(&mut db, e, 1, true, 100).unwrap();
    sign(&mut db, e, 1, false, 100).unwrap();
    sign(&mut db, e, 2, true, 101).unwrap();
    sign(&mut db, e, 3, false, 102).unwrap();
    assert_eq!(db.wontgo(e, 1), vec![2, 3]);
    assert_eq!(db.count_confirmed(e), (1, 1));
    assert_eq!(db.most_recent_registration(1), None);
}

#[test]
fn sweep_removes_only_finished_days() {
    let mut db = EventDB::new();
    let day = 86400;
    let past = db.create_event(event(2, 2, 1, 1, 10 * day + 3600, 10 * day)).unwrap();
    let future = db.create_event(event(2, 2, 1, 1, 12 * day, 11 * day)).unwrap();
    sign(&mut db, past, 1, true, 100).unwrap();
    sign(&mut db, future, 1, true, 100).unwrap();
    db.sweep_past_events(11 * day - 1);
    assert!(db.get_event(past).is_some());
    db.sweep_past_events(11 * day);
    assert!(db.get_event(past).is_none());
    assert!(db.get_event(future).is_some());
    assert_eq!(db.count_confirmed(past), (0, 0));
    assert_eq!(db.count_confirmed(future), (1, 0));
}

#[test]
fn delete_event_cascades_and_is_idempotent() {
    let mut db = EventDB::new();
    let e = db.create_event(event(2, 2, 1, 1, 10_000, 5_000)).unwrap();
    sign(&mut db, e, 1, true, 100).unwrap();
    db.delete_event(e);
    db.delete_event(e);
    assert!(db.get_event(e).is_none());
    assert_eq!(db.count_confirmed(e), (0, 0));
    assert_eq!(sign(&mut db, e, 1, true, 100), Err(EngineError::UnknownEvent));
}

#[test]
fn ids_are_assigned_in_order() {
    let mut db = EventDB::new();
    let a = db.create_event(event(2, 2, 1, 1, 10_000, 5_000)).unwrap();
    let b = db.create_event(event(2, 2, 1, 1, 20_000, 5_000)).unwrap();
    let c = db.create_event(event(2, 2, 1, 1, 17_000, 5_000)).unwrap();
    assert_eq!((a, b, c), (1, 2, 3));
    let open: Vec<i64> = db.list_open_events(15_000).iter().map(|e| e.id).collect();
    assert_eq!(open, vec![c, b]);
}

#[test]
fn attachment_goes_to_existing_registration() {
    let mut db = EventDB::new();
    let e = db.create_event(event(2, 2, 1, 1, 10_000, 5_000)).unwrap();
    assert_eq!(db.set_attachment(e, 1, "note".to_string()), Err(EngineError::NotFoundError));
    sign(&mut db, e, 1, false, 100).unwrap();
    assert_eq!(db.set_attachment(e, 1, "note".to_string()), Ok(()));
    let rows = db.get_participants(e, false);
    assert_eq!(rows[0].attachment, Some("note".to_string()));
}

#[test]
fn admin_by_id_or_handle() {
    let ids = vec![5];
    let names = vec!["boss".to_string()];
    assert!(is_admin(5, &String::new(), &ids, &names));
    assert!(is_admin(6, &"boss".to_string(), &ids, &names));
    assert!(!is_admin(6, &"guest".to_string(), &ids, &names));
    assert!(may_view_waiting_list(true, false));
    assert!(!may_view_waiting_list(false, false));
}

#[test]
fn note_and_broadcast_targets() {
    let mut db = EventDB::new();
    let e = db.create_event(event(1, 1, 1, 1, 10_000, 5_000)).unwrap();
    sign(&mut db, e, 1, true, 100).unwrap();
    sign(&mut db, e, 2, true, 101).unwrap();
    assert_eq!(note_target(&db, Some(9), 1), Some(9));
    assert_eq!(note_target(&db, None, 2), Some(e));
    assert_eq!(note_target(&db, None, 3), None);
    assert_eq!(broadcast_recipients(&db, e), vec![1]);
}

fn request(start: &str, remind: &str) -> NewEvent {
    NewEvent {
        name: "Walk".to_string(),
        link: String::new(),
        start: start.to_string(),
        remind: remind.to_string(),
        max_adults: 15,
        max_children: 15,
        max_adults_per_reservation: 15,
        max_children_per_reservation: 15,
    }
}

#[test]
fn request_instants_are_parsed() {
    let ev = event_from_request(request("2022-05-29 15:00 +02:00", "2022-05-28 15:00 +02:00")).unwrap();
    assert_eq!(ev.ts, 1653829200);
    assert_eq!(ev.remind, 1653829200 - 86400);
    assert_eq!(ev.id, 0);
}

#[test]
fn request_with_bad_instant_is_refused() {
    assert!(event_from_request(request("tomorrow", "2022-05-28 15:00 +02:00")).is_none());
}

#[test]
fn request_with_late_reminder_is_refused() {
    assert!(build_event(request("", ""), Some(100), Some(200)).is_none());
    assert!(build_event(request("", ""), Some(200), Some(100)).is_some());
}

#[test]
fn waiting_list_is_ordered_by_join_instant() {
    let mut db = EventDB::new();
    let e = db.create_event(event(1, 1, 1, 1, 10_000, 5_000)).unwrap();
    sign(&mut db, e, 1, true, 100).unwrap();
    sign(&mut db, e, 2, true, 300).unwrap();
    sign(&mut db, e, 3, true, 200).unwrap();
    sign(&mut db, e, 4, false, 50).unwrap();
    sign(&mut db, e, 5, false, 60).unwrap();
    let order: Vec<i64> = db.waiting_list(e, true).iter().map(|r| r.user_id).collect();
    assert_eq!(order, vec![3, 2]);
    let order: Vec<i64> = db.waiting_list(e, false).iter().map(|r| r.user_id).collect();
    assert_eq!(order, vec![5]);
}

#[test]
fn admin_only_actions_are_refused_to_others() {
    let ids = vec![5];
    let names = vec!["boss".to_string()];
    assert_eq!(authorize(5, &String::new(), &ids, &names), Ok(()));
    assert_eq!(authorize(6, &"guest".to_string(), &ids, &names), Err(EngineError::Unauthorized));
}

#[test]
fn session_cache_keeps_last_write() {
    let mut c = SessionCache::new();
    assert_eq!(c.get(1), None);
    c.set(1, 10);
    c.set(2, 20);
    c.set(1, 11);
    assert_eq!(c.get(1), Some(11));
    assert_eq!(c.get(2), Some(20));
    assert_eq!(c.get(3), None);
}

#[test]
fn reminder_tick_hands_out_each_reminder_once() {
    let mut db = EventDB::new();
    let e = db.create_event(event(1, 1, 1, 1, 10_000, 5_000)).unwrap();
    sign(&mut db, e, 1, true, 100).unwrap();
    sign(&mut db, e, 2, true, 101).unwrap();
    assert!(db.reminder_tick(4_000).is_empty());
    let sent: Vec<i64> = db.reminder_tick(5_000).iter().map(|r| r.user_id).collect();
    assert_eq!(sent, vec![1, 2]);
    assert!(db.reminder_tick(5_001).is_empty());
}

#[test]
fn repeat_sign_up_keeps_queue_place_and_reminder() {
    let mut db = EventDB::new();
    let e = db.create_event(event(1, 1, 1, 1, 10_000, 5_000)).unwrap();
    sign(&mut db, e, 1, true, 100).unwrap();
    sign(&mut db, e, 2, true, 200).unwrap();
    sign(&mut db, e, 3, true, 300).unwrap();
    assert_eq!(sign(&mut db, e, 2, true, 400), Ok(Placement::Waiting));
    let order: Vec<i64> = db.waiting_list(e, true).iter().map(|r| r.user_id).collect();
    assert_eq!(order, vec![2, 3]);
    assert_eq!(db.reminder_tick(6_000).len(), 3);
    sign(&mut db, e, 1, true, 7_000).unwrap();
    assert!(db.due_reminders(7_000).is_empty());
}

#[test]
fn admin_actions_through_the_router() {
    let mut db = EventDB::new();
    let ids = vec![5];
    let names: Vec<String> = Vec::new();
    let guest = "guest".to_string();
    assert_eq!(
        create_event_as(&mut db, 6, &guest, &ids, &names, event(1, 1, 1, 1, 10_000, 5_000)),
        Err(EngineError::Unauthorized)
    );
    assert!(db.get_event(1).is_none());
    let e = create_event_as(&mut db, 5, &guest, &ids, &names, event(1, 1, 1, 1, 10_000, 5_000)).unwrap();
    sign(&mut db, e, 9, true, 100).unwrap();
    assert_eq!(broadcast_as(&db, 6, &guest, &ids, &names, e), Err(EngineError::Unauthorized));
    assert_eq!(broadcast_as(&db, 5, &guest, &ids, &names, e), Ok(vec![9]));
    assert_eq!(delete_event_as(&mut db, 6, &guest, &ids, &names, e), Err(EngineError::Unauthorized));
    assert!(db.get_event(e).is_some());
    assert_eq!(delete_event_as(&mut db, 5, &guest, &ids, &names, e), Ok(()));
    assert!(db.get_event(e).is_none());
}

#[test]
fn equal_instants_keep_store_order() {
    let mut db = EventDB::new();
    let e = db.create_event(event(1, 1, 1, 1, 10_000, 5_000)).unwrap();
    sign(&mut db, e, 1, true, 100).unwrap();
    sign(&mut db, e, 4, true, 200).unwrap();
    sign(&mut db, e, 2, true, 200).unwrap();
    sign(&mut db, e, 3, true, 150).unwrap();
    let order: Vec<i64> = db.waiting_list(e, true).iter().map(|r| r.user_id).collect();
    assert_eq!(order, vec![3, 4, 2]);
    let a = db.create_event(event(1, 1, 1, 1, 20_000, 5_000)).unwrap();
    let b = db.create_event(event(1, 1, 1, 1, 20_000, 5_000)).unwrap();
    let open: Vec<i64> = db.list_open_events(0).iter().map(|x| x.id).collect();
    assert_eq!(open, vec![e, a, b]);
}
