//! Each law of the library on concrete values.
use gitkeep::config::Config;
use gitkeep::state::{State, Timestamp};
use gitkeep::sync::{build_summary, dedup_users, merge_repo_lists, should_skip_pull, RepoInfo, Totals};
use gitkeep::config::TrackedUser;
use gitkeep::track::{add, format_list, remove};
use gitkeep::skip::parse_repo_arg;

#[test]
fn skip_then_unskip_restores() {
    let mut config = Config::default();
    config.skip_repo("a/b");
    config.skip_repo("a/b");
    assert!(config.is_skipped("a/b"));
    assert!(config.unskip_repo("a/b"));
    assert!(!config.is_skipped("a/b"));
    assert!(config.skipped.is_empty());
}

#[test]
fn pin_then_unpin_restores() {
    let mut config = Config::default();
    config.pin_repo_with_options("a/b", Some(1), None);
    assert!(config.unpin_repo("a/b"));
    assert!(config.pinned.is_empty());
    assert!(!config.is_pinned("a/b"));
}

#[test]
fn pins_stay_distinct() {
    let mut config = Config::default();
    config.pin_repo_with_options("a/b", None, None);
    config.pin_repo_with_options("a/b", Some(2), None);
    config.pin_repo_with_options("a/c", None, None);
    config.rename_pin("a/c", "a/d");
    assert_eq!(config.pinned.len(), 2);
    assert_ne!(config.pinned[0].full_name, config.pinned[1].full_name);
}

#[test]
fn tracking_covers_pins() {
    let mut config = Config::default();
    config.pin_repo_with_options("Alice/x", None, None);
    config.pin_repo_with_options("bob/y", None, None);
    add(&mut config, &vec!["alice".to_string()], false, false, None);
    assert!(!config.is_pinned("Alice/x"));
    assert!(config.is_pinned("bob/y"));
}

#[test]
fn add_user_twice_is_idempotent() {
    let mut config = Config::default();
    config.add_user("bob", false, false, None);
    assert!(config.add_user("Alice", true, false, Some(false)));
    let before: Vec<_> = config.track.iter().map(|u| (u.name.clone(), u.forks, u.frozen, u.submodules)).collect();
    assert!(!config.add_user("Alice", true, false, Some(false)));
    let after: Vec<_> = config.track.iter().map(|u| (u.name.clone(), u.forks, u.frozen, u.submodules)).collect();
    assert_eq!(before, after);
}

#[test]
fn add_user_takes_new_spelling() {
    let mut config = Config::default();
    config.add_user("alice", false, false, None);
    assert!(config.add_user("ALICE", false, false, None));
    assert_eq!(config.track.len(), 1);
    assert_eq!(config.track[0].name, "ALICE");
}

#[test]
fn accounts_stay_sorted_by_lowercase_name() {
    let mut config = Config::default();
    config.add_user("zed", false, false, None);
    config.add_user("Bob", false, false, None);
    config.add_user("alice", false, false, None);
    let names: Vec<_> = config.track.iter().map(|u| u.name.clone()).collect();
    assert_eq!(names, vec!["alice", "Bob", "zed"]);
    config.sort_users();
    let again: Vec<_> = config.track.iter().map(|u| u.name.clone()).collect();
    assert_eq!(names, again);
}

#[test]
fn removing_untracks() {
    let mut config = Config::default();
    config.add_user("alice", false, false, None);
    config.pin_repo_with_options("bob/x", None, None);
    remove(&mut config, &vec!["Alice".to_string(), "bob/x".to_string()]);
    assert!(config.track.is_empty());
    assert!(!config.is_pinned("bob/x"));
}

#[test]
fn repo_arg_form_is_owner_slash_name() {
    let (u, n) = parse_repo_arg("owner/name").unwrap();
    assert_eq!(format!("{u}/{n}"), "owner/name");
    assert!(parse_repo_arg("owner/").is_err());
}

#[test]
fn hint_only_when_nothing_tracked() {
    let mut config = Config::default();
    let hint = "No users tracked. Use 'gitkeep add <username>' to start.\n";
    assert_eq!(format_list(&config, None), hint);
    config.skip_repo("a/b");
    assert_eq!(format_list(&config, None), hint);
    config.add_user("a", false, false, None);
    assert_ne!(format_list(&config, None), hint);
}

#[test]
fn nothing_to_do_only_when_nothing_happened() {
    assert_eq!(build_summary(&Totals::default()), "Nothing to do.");
    assert_eq!(build_summary(&Totals { failed: 1, ..Totals::default() }), "Done. 1 repo failed.");
    assert_eq!(build_summary(&Totals { excluded: 1, ..Totals::default() }), "Done.");
}

#[test]
fn recorded_push_decides_pull() {
    let mut state = State::default();
    let p = Timestamp::new(50, 10);
    state.mark_synced("a/b", Some(p), Timestamp::new(60, 0));
    let rec = state.repo("a/b").unwrap().pushed_at;
    assert!(should_skip_pull(Some(p), rec));
    assert!(!should_skip_pull(Some(Timestamp::new(50, 11)), rec));
    state.mark_synced("a/b", None, Timestamp::new(70, 0));
    let rec = state.repo("a/b").unwrap().pushed_at;
    assert!(!should_skip_pull(Some(p), rec));
}

fn bare(id: u64, name: &str) -> RepoInfo {
    RepoInfo {
        id,
        name: name.to_string(),
        full_name: None,
        fork: None,
        ssh_url: None,
        clone_url: None,
        pushed_at: None,
        owner_login: None,
    }
}

#[test]
fn merged_ids_are_distinct() {
    let merged = merge_repo_lists(vec![bare(1, "a"), bare(1, "dup")], vec![bare(2, "b"), bare(1, "c")]);
    let ids: Vec<u64> = merged.iter().map(|r| r.id).collect();
    assert_eq!(ids, vec![1, 2]);
    assert_eq!(merged[0].name, "a");
}

#[test]
fn deduped_names_are_distinct() {
    let users = vec![
        TrackedUser::with_options("a", false, false),
        TrackedUser::with_options("a", true, true),
        TrackedUser::with_options("A", false, false),
    ];
    let d = dedup_users(&users);
    let names: Vec<_> = d.iter().map(|u| u.name.clone()).collect();
    assert_eq!(names, vec!["a", "A"]);
}
