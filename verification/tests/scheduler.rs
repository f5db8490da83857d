use moodle_session_ext::db::Database;
use moodle_session_ext::model::Email;
use moodle_session_ext::session::SessionUpdateResult;
use moodle_session_ext::updater::{next_action, update_one, SchedulerAction, Updater, FAR_FUTURE_MILLIS};

fn add(db: &mut Database, who: &str, primary: &str, now: u64) {
    db.add_token(&Email(who.to_string()), primary, "csrf", now).expect("registration works");
}

#[test]
fn empty_store_sleeps_toward_the_far_future() {
    let db = Database::new();
    match next_action(&db, 1_000, &Updater { gap: 5_000 }) {
        SchedulerAction::Sleep { millis } => assert_eq!(millis, FAR_FUTURE_MILLIS - 5_000),
        SchedulerAction::Refresh { .. } => panic!("nothing to refresh in an empty store"),
    }
}

#[test]
fn due_token_is_refreshed_at_once() {
    let mut db = Database::new();
    add(&mut db, "u1@example.com", "sess-a", 1);
    // a fresh token sits at the epoch: due however small the lead time
    match next_action(&db, 1_000, &Updater { gap: 1 }) {
        SchedulerAction::Refresh { token, .. } => {
            assert_eq!(token.moodle_session, "sess-a");
            assert_eq!(token.deadline, 0);
        }
        SchedulerAction::Sleep { .. } => panic!("an epoch-deadline token is always due"),
    }
}

#[test]
fn far_deadline_sleeps_until_lead_time_before_it() {
    let mut db = Database::new();
    add(&mut db, "u1@example.com", "sess-a", 1);
    let (id, _) = db.get_most_urgent_token().unwrap();
    // deadline at 1_000 + 600_000
    db.update_token(id, 600_000, 1_000).unwrap();
    match next_action(&db, 2_000, &Updater { gap: 10_000 }) {
        SchedulerAction::Sleep { millis } => assert_eq!(millis, 601_000 - 2_000 - 10_000),
        SchedulerAction::Refresh { .. } => panic!("deadline is far beyond the lead time"),
    }
}

#[test]
fn alive_outcome_extends_the_deadline() {
    let mut db = Database::new();
    add(&mut db, "u1@example.com", "sess-a", 1);
    let (id, _) = db.get_most_urgent_token().unwrap();
    update_one(&mut db, id, &SessionUpdateResult::Alive { time_left: 900_000 }, 5_000).unwrap();
    let (_, tok) = db.get_most_urgent_token().unwrap();
    assert_eq!(tok.deadline, 905_000);
    assert_eq!(db.get_token_count(), 1);
}

#[test]
fn dead_outcome_removes_the_token() {
    let mut db = Database::new();
    add(&mut db, "u1@example.com", "sess-a", 1);
    add(&mut db, "u1@example.com", "sess-b", 2);
    let (id, _) = db.get_most_urgent_token().unwrap();
    update_one(&mut db, id, &SessionUpdateResult::SessionDead, 5_000).unwrap();
    assert_eq!(db.get_token_count(), 1);
    assert_eq!(db.users()[0].tokens.len(), 1);
    assert_eq!(db.update_queue().len(), 1);
}

#[test]
fn scheduler_drains_due_tokens_soonest_first() {
    let mut db = Database::new();
    add(&mut db, "u1@example.com", "sess-a", 1);
    add(&mut db, "u2@example.com", "sess-b", 2);
    // both due; the scheduler sees them in (deadline, identifier) order
    let first = match next_action(&db, 1_000, &Updater { gap: 100 }) {
        SchedulerAction::Refresh { token_id, token } => {
            assert_eq!(token.moodle_session, "sess-a");
            token_id
        }
        SchedulerAction::Sleep { .. } => panic!("both tokens are due"),
    };
    update_one(&mut db, first, &SessionUpdateResult::Alive { time_left: 900_000 }, 1_000)
        .unwrap();
    match next_action(&db, 1_000, &Updater { gap: 100 }) {
        SchedulerAction::Refresh { token, .. } => assert_eq!(token.moodle_session, "sess-b"),
        SchedulerAction::Sleep { .. } => panic!("the second token is still due"),
    }
}
