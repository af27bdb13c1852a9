use gitkeep::state::{State, Timestamp};

fn stamp(t: chrono::DateTime<chrono::Utc>) -> Timestamp {
    Timestamp::new(t.timestamp(), t.timestamp_subsec_nanos())
}

#[test]
fn state_mark_synced_stores_pushed_at() {
    let mut state = State::default();
    let t = chrono::Utc::now();
    state.mark_synced("user/repo", Some(stamp(t)), stamp(chrono::Utc::now()));
    let stored = state.repo("user/repo").unwrap().pushed_at;
    assert!(stored.is_some());
}

#[test]
fn state_mark_synced_stores_none_pushed_at() {
    let mut state = State::default();
    state.mark_synced("user/repo", None, stamp(chrono::Utc::now()));
    assert!(state.repo("user/repo").unwrap().pushed_at.is_none());
}

#[test]
fn state_drain_legacy_skipped_moves_entries() {
    let mut state = State::default();
    state.skipped.push("user/repo".to_string());
    let drained = state.drain_legacy_skipped();
    assert!(drained.contains(&"user/repo".to_string()));
}

#[test]
fn state_drain_legacy_skipped_empties_state() {
    let mut state = State::default();
    state.skipped.push("user/repo".to_string());
    state.drain_legacy_skipped();
    assert!(state.skipped.is_empty());
}

#[test]
fn mark_synced_records_the_given_instant() {
    let mut state = State::default();
    let now = Timestamp::new(1_700_000_000, 5);
    let pushed = Timestamp::new(1_600_000_000, 0);
    state.mark_synced("alice/repo", Some(pushed), now);
    let rec = state.repo("alice/repo").unwrap();
    assert_eq!(rec.last_synced_at, now);
    assert_eq!(rec.pushed_at, Some(pushed));
}

#[test]
fn mark_synced_replaces_an_earlier_record_only() {
    let mut state = State::default();
    let t1 = Timestamp::new(10, 0);
    let t2 = Timestamp::new(20, 0);
    state.mark_synced("alice/a", Some(t1), t1);
    state.mark_synced("alice/b", None, t1);
    state.mark_synced("alice/a", Some(t2), t2);
    assert_eq!(state.repo("alice/a").unwrap().pushed_at, Some(t2));
    assert_eq!(state.repo("alice/a").unwrap().last_synced_at, t2);
    assert_eq!(state.repo("alice/b").unwrap().pushed_at, None);
    assert_eq!(state.repos.len(), 2);
}

#[test]
fn repo_is_none_for_unknown_name() {
    let state = State::default();
    assert!(state.repo("alice/repo").is_none());
}

#[test]
fn timestamps_order_by_seconds_then_nanoseconds() {
    assert!(Timestamp::new(1, 999).le(&Timestamp::new(2, 0)));
    assert!(Timestamp::new(2, 5).le(&Timestamp::new(2, 5)));
    assert!(!Timestamp::new(2, 6).le(&Timestamp::new(2, 5)));
}
