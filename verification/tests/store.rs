use moodle_session_ext::db::Database;
use moodle_session_ext::model::{Email, Token, TokenId, UpdateQueueItem, UpdateQueueKey};

fn email(s: &str) -> Email {
    Email(s.to_string())
}

fn add(db: &mut Database, who: &str, primary: &str, secondary: &str, now: u64) {
    db.add_token(&email(who), primary, secondary, now).expect("registration should succeed");
}

fn sessions_of(db: &Database) -> Vec<String> {
    let mut v: Vec<String> = db.tokens().iter().map(|p| p.1.moodle_session.clone()).collect();
    v.sort();
    v
}

#[test]
fn register_creates_user_and_token() {
    let mut db = Database::new();
    assert_eq!(db.get_token_count(), 0);
    add(&mut db, "u1@example.com", "sess-a", "csrf-a", 100);
    assert_eq!(db.get_token_count(), 1);
    assert_eq!(db.users().len(), 1);
    assert_eq!(db.users()[0].email.0, "u1@example.com");
    assert_eq!(db.users()[0].tokens.len(), 1);
    let tok = &db.tokens()[0].1;
    assert_eq!(tok.owner.0, "u1@example.com");
    assert_eq!(tok.moodle_session, "sess-a");
    assert_eq!(tok.csrf_session, "csrf-a");
    assert_eq!(tok.deadline, 0);
    assert_eq!(tok.added, 100);
}

#[test]
fn register_twice_is_idempotent() {
    let mut db = Database::new();
    add(&mut db, "u1@example.com", "sess-a", "csrf-a", 100);
    add(&mut db, "u1@example.com", "sess-a", "csrf-later", 200);
    assert_eq!(db.get_token_count(), 1);
    assert_eq!(db.users().len(), 1);
    assert_eq!(db.users()[0].tokens.len(), 1);
    assert_eq!(db.update_queue().len(), 1);
    // the original registration is untouched
    assert_eq!(db.tokens()[0].1.csrf_session, "csrf-a");
    assert_eq!(db.tokens()[0].1.added, 100);
}

#[test]
fn fourth_registration_evicts_the_oldest() {
    let mut db = Database::new();
    add(&mut db, "u1@example.com", "sess-a", "ca", 1);
    add(&mut db, "u1@example.com", "sess-b", "cb", 2);
    add(&mut db, "u1@example.com", "sess-c", "cc", 3);
    assert_eq!(db.get_token_count(), 3);
    let a_id = db.tokens()[0].0.value();
    add(&mut db, "u1@example.com", "sess-d", "cd", 4);
    assert_eq!(db.get_token_count(), 3);
    assert_eq!(db.users()[0].tokens.len(), 3);
    assert_eq!(
        sessions_of(&db),
        vec!["sess-b".to_string(), "sess-c".to_string(), "sess-d".to_string()]
    );
    // the evicted token's index entry is gone too
    assert!(db.update_queue().iter().all(|e| e.0.token_id().value() != a_id));
    assert_eq!(db.update_queue().len(), 3);
}

#[test]
fn eviction_goes_by_creation_time_not_position() {
    let mut db = Database::new();
    // the middle registration is the oldest by timestamp
    add(&mut db, "u1@example.com", "sess-a", "ca", 20);
    add(&mut db, "u1@example.com", "sess-b", "cb", 10);
    add(&mut db, "u1@example.com", "sess-c", "cc", 30);
    add(&mut db, "u1@example.com", "sess-d", "cd", 40);
    assert_eq!(
        sessions_of(&db),
        vec!["sess-a".to_string(), "sess-c".to_string(), "sess-d".to_string()]
    );
}

#[test]
fn quotas_are_per_user() {
    let mut db = Database::new();
    add(&mut db, "u1@example.com", "sess-a", "ca", 1);
    add(&mut db, "u2@example.com", "sess-b", "cb", 2);
    add(&mut db, "u1@example.com", "sess-c", "cc", 3);
    assert_eq!(db.get_token_count(), 3);
    assert_eq!(db.users().len(), 2);
    assert_eq!(db.users()[0].tokens.len(), 2);
    assert_eq!(db.users()[1].tokens.len(), 1);
}

#[test]
fn most_urgent_follows_deadlines() {
    let mut db = Database::new();
    add(&mut db, "u1@example.com", "sess-a", "ca", 1);
    add(&mut db, "u1@example.com", "sess-b", "cb", 2);
    add(&mut db, "u1@example.com", "sess-c", "cc", 3);
    let ids: Vec<u64> = db.tokens().iter().map(|p| p.0.value()).collect();
    // move each token to a distinct deadline: D1 < D2 < D3
    db.update_token(TokenId::from_u64(ids[0]), 3000, 0).unwrap();
    db.update_token(TokenId::from_u64(ids[1]), 1000, 0).unwrap();
    db.update_token(TokenId::from_u64(ids[2]), 2000, 0).unwrap();
    let (id, tok) = db.get_most_urgent_token().expect("store is not empty");
    assert_eq!(id.value(), ids[1]);
    assert_eq!(tok.deadline, 1000);
    // removing the most urgent exposes the next soonest
    db.remove_token(id).unwrap();
    let (id2, tok2) = db.get_most_urgent_token().expect("two tokens left");
    assert_eq!(id2.value(), ids[2]);
    assert_eq!(tok2.deadline, 2000);
    // pushing the soonest deadline past the next changes the order
    db.update_token(TokenId::from_u64(ids[2]), 9000, 0).unwrap();
    let (id3, _) = db.get_most_urgent_token().expect("still two tokens");
    assert_eq!(id3.value(), ids[0]);
}

#[test]
fn fresh_registrations_are_most_urgent() {
    let mut db = Database::new();
    add(&mut db, "u1@example.com", "sess-a", "ca", 1);
    let (id, _) = db.get_most_urgent_token().unwrap();
    db.update_token(id, 60_000, 500).unwrap();
    // a new registration starts at the epoch: always first
    add(&mut db, "u1@example.com", "sess-b", "cb", 600);
    let (_, tok) = db.get_most_urgent_token().unwrap();
    assert_eq!(tok.moodle_session, "sess-b");
    assert_eq!(tok.deadline, 0);
}

#[test]
fn extend_deadline_rekeys_the_index_entry() {
    let mut db = Database::new();
    add(&mut db, "u1@example.com", "sess-a", "ca", 1);
    let (id, tok) = db.get_most_urgent_token().unwrap();
    assert_eq!(tok.deadline, 0);
    db.update_token(id, 60_000, 1000).unwrap();
    let (id2, tok2) = db.get_most_urgent_token().unwrap();
    assert_eq!(id2.value(), id.value());
    assert_eq!(tok2.deadline, 61_000);
    // the epoch-keyed entry no longer resolves
    assert!(db.update_queue().iter().all(|e| e.0.deadline_millis() == 61_000));
    assert_eq!(db.update_queue().len(), 1);
}

#[test]
fn extend_deadline_on_missing_token_is_a_noop() {
    let mut db = Database::new();
    add(&mut db, "u1@example.com", "sess-a", "ca", 1);
    db.update_token(TokenId::from_u64(999), 60_000, 1000).unwrap();
    assert_eq!(db.get_token_count(), 1);
    assert_eq!(db.tokens()[0].1.deadline, 0);
}

#[test]
fn remove_missing_token_leaves_the_store_identical() {
    let mut db = Database::new();
    add(&mut db, "u1@example.com", "sess-a", "ca", 1);
    let users_before: Vec<(String, Vec<u64>)> = db
        .users()
        .iter()
        .map(|u| (u.email.0.clone(), u.tokens.iter().map(|t| t.value()).collect()))
        .collect();
    let queue_before: Vec<[u8; 16]> = db.update_queue().iter().map(|e| e.0 .0).collect();
    let mut watch = db.subscribe_queue_updates();
    db.remove_token(TokenId::from_u64(424242)).unwrap();
    assert_eq!(db.get_token_count(), 1);
    let users_after: Vec<(String, Vec<u64>)> = db
        .users()
        .iter()
        .map(|u| (u.email.0.clone(), u.tokens.iter().map(|t| t.value()).collect()))
        .collect();
    let queue_after: Vec<[u8; 16]> = db.update_queue().iter().map(|e| e.0 .0).collect();
    assert_eq!(users_before, users_after);
    assert_eq!(queue_before, queue_after);
    // not even a change notification fired
    assert!(!db.poll_queue_updates(&mut watch));
}

#[test]
fn remove_token_drops_record_entry_and_listing() {
    let mut db = Database::new();
    add(&mut db, "u1@example.com", "sess-a", "ca", 1);
    add(&mut db, "u1@example.com", "sess-b", "cb", 2);
    let (id, _) = db.get_most_urgent_token().unwrap();
    db.remove_token(id).unwrap();
    assert_eq!(db.get_token_count(), 1);
    assert_eq!(db.users()[0].tokens.len(), 1);
    assert_eq!(db.update_queue().len(), 1);
    assert!(db.tokens().iter().all(|p| p.0.value() != id.value()));
}

#[test]
fn empty_store_has_nothing_urgent() {
    let db = Database::new();
    assert!(db.get_most_urgent_token().is_none());
    assert_eq!(db.get_token_count(), 0);
}

#[test]
fn watch_collapses_bursts_into_one_signal() {
    let mut db = Database::new();
    let mut watch = db.subscribe_queue_updates();
    assert!(!db.poll_queue_updates(&mut watch));
    add(&mut db, "u1@example.com", "sess-a", "ca", 1);
    add(&mut db, "u1@example.com", "sess-b", "cb", 2);
    add(&mut db, "u2@example.com", "sess-c", "cc", 3);
    assert!(db.poll_queue_updates(&mut watch));
    assert!(!db.poll_queue_updates(&mut watch));
    let first = db.tokens()[0].0;
    db.remove_token(first).unwrap();
    assert!(db.poll_queue_updates(&mut watch));
}

#[test]
fn stale_index_entries_are_skipped_never_returned() {
    // an index whose first entry denotes a token that a concurrent
    // removal already committed away: the read must retry past it
    let live_id = TokenId::from_u64(7);
    let gone_id = TokenId::from_u64(3);
    let queue = vec![
        (UpdateQueueKey::new(50, gone_id), UpdateQueueItem { token: gone_id }),
        (UpdateQueueKey::new(90, live_id), UpdateQueueItem { token: live_id }),
    ];
    let tokens = vec![(
        live_id,
        Token {
            owner: Email("u1@example.com".to_string()),
            moodle_session: "sess-live".to_string(),
            csrf_session: "c".to_string(),
            deadline: 90,
            added: 1,
        },
    )];
    let found = moodle_session_ext::db::first_live_entry(&queue, &tokens)
        .expect("a live entry exists");
    assert_eq!(found.0.value(), 7);
    assert_eq!(found.1.moodle_session, "sess-live");
}

#[test]
fn all_stale_entries_resolve_to_empty() {
    let gone_id = TokenId::from_u64(3);
    let queue = vec![(UpdateQueueKey::new(50, gone_id), UpdateQueueItem { token: gone_id })];
    let tokens: Vec<(TokenId, Token)> = Vec::new();
    assert!(moodle_session_ext::db::first_live_entry(&queue, &tokens).is_none());
}

/// Cross-check the linking invariant on a concrete store: every token has
/// exactly one index entry whose decoded deadline matches its deadline
/// field, and vice versa; every user list is within quota with no
/// duplicates.
fn assert_store_linked(db: &Database) {
    for (id, tok) in db.tokens().iter() {
        let matching: Vec<_> = db
            .update_queue()
            .iter()
            .filter(|e| e.0.token_id().value() == id.value())
            .collect();
        assert_eq!(matching.len(), 1);
        assert_eq!(matching[0].0.deadline_millis(), tok.deadline);
        assert_eq!(matching[0].1.token.value(), id.value());
    }
    for e in db.update_queue().iter() {
        let id = e.0.token_id().value();
        assert!(db.tokens().iter().any(|(t, _)| t.value() == id));
    }
    for u in db.users().iter() {
        assert!(u.tokens.len() <= 3);
        let mut ids: Vec<u64> = u.tokens.iter().map(|t| t.value()).collect();
        ids.sort();
        ids.dedup();
        assert_eq!(ids.len(), u.tokens.len());
    }
}

#[test]
fn collections_stay_linked_through_a_workout() {
    let mut db = Database::new();
    assert_store_linked(&db);
    add(&mut db, "u1@example.com", "sess-a", "ca", 1);
    add(&mut db, "u1@example.com", "sess-b", "cb", 2);
    add(&mut db, "u2@example.com", "sess-c", "cc", 3);
    assert_store_linked(&db);
    let (id, _) = db.get_most_urgent_token().unwrap();
    db.update_token(id, 120_000, 500).unwrap();
    assert_store_linked(&db);
    add(&mut db, "u1@example.com", "sess-d", "cd", 4);
    add(&mut db, "u1@example.com", "sess-e", "ce", 5);
    assert_store_linked(&db);
    let (id2, _) = db.get_most_urgent_token().unwrap();
    db.remove_token(id2).unwrap();
    assert_store_linked(&db);
    db.remove_token(TokenId::from_u64(123456)).unwrap();
    assert_store_linked(&db);
}
