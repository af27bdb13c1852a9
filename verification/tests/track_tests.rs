use gitkeep::config::Config;
use gitkeep::error::Error;
use gitkeep::track::{add, format_list, pin_precheck, pin_resolved, remove, remove_target, PinPrecheck, RemoveOutcome};

#[test]
fn list_empty_state_shows_hint() {
    let config = Config::default();
    let out = format_list(&config, None);
    assert!(out.contains("gitkeep add"), "got: {out}");
}

#[test]
fn list_pinned_only_does_not_show_hint() {
    let mut config = Config::default();
    config.pin_repo_with_options("alice/repo", None, None);
    let out = format_list(&config, None);
    assert!(!out.contains("gitkeep add"), "got: {out}");
}

#[test]
fn list_shows_tracked_users() {
    let mut config = Config::default();
    config.add_user("alice", false, false, None);
    let out = format_list(&config, None);
    assert!(out.contains("alice"), "got: {out}");
}

#[test]
fn list_shows_forks_tag() {
    let mut config = Config::default();
    config.add_user("alice", true, false, None);
    let out = format_list(&config, None);
    assert!(out.contains("forks"), "got: {out}");
}

#[test]
fn list_shows_frozen_tag() {
    let mut config = Config::default();
    config.add_user("alice", false, true, None);
    let out = format_list(&config, None);
    assert!(out.contains("frozen"), "got: {out}");
}

#[test]
fn list_omits_skipped_section_when_none() {
    let mut config = Config::default();
    config.add_user("alice", false, false, None);
    let out = format_list(&config, None);
    assert!(!out.to_lowercase().contains("skipped"), "got: {out}");
}

#[test]
fn list_shows_skipped_section_when_present() {
    let mut config = Config::default();
    config.add_user("alice", false, false, None);
    config.skip_repo("alice/noisy");
    let out = format_list(&config, None);
    assert!(out.contains("alice/noisy"), "got: {out}");
    assert!(out.to_lowercase().contains("skipped"), "got: {out}");
}

#[test]
fn list_skipped_repos_are_sorted() {
    let mut config = Config::default();
    config.add_user("alice", false, false, None);
    config.skip_repo("alice/zzz");
    config.skip_repo("alice/aaa");
    let out = format_list(&config, None);
    let aaa_pos = out.find("alice/aaa").unwrap();
    let zzz_pos = out.find("alice/zzz").unwrap();
    assert!(aaa_pos < zzz_pos, "got: {out}");
}

#[test]
fn list_shows_pinned_section() {
    let mut config = Config::default();
    config.pin_repo_with_options("rust-lang/mdBook", None, None);
    let out = format_list(&config, None);
    assert!(out.contains("rust-lang/mdBook"), "got: {out}");
    assert!(out.to_lowercase().contains("pinned"), "got: {out}");
}

#[test]
fn list_pinned_repos_are_sorted() {
    let mut config = Config::default();
    config.pin_repo_with_options("rust-lang/zzz", None, None);
    config.pin_repo_with_options("rust-lang/aaa", None, None);
    let out = format_list(&config, None);
    let aaa_pos = out.find("rust-lang/aaa").unwrap();
    let zzz_pos = out.find("rust-lang/zzz").unwrap();
    assert!(aaa_pos < zzz_pos, "got: {out}");
}

#[test]
fn list_omits_pinned_section_when_none() {
    let mut config = Config::default();
    config.add_user("alice", false, false, None);
    let out = format_list(&config, None);
    assert!(!out.to_lowercase().contains("pinned"), "got: {out}");
}

#[test]
fn add_user_removes_pins_for_that_user() {
    let mut config = Config::default();
    config.pin_repo_with_options("alice/foo", None, None);
    config.pin_repo_with_options("alice/bar", None, None);
    config.pin_repo_with_options("bob/baz", None, None);
    config.add_user("alice", false, false, None);
    let pins_removed = config.remove_pins_for_user("alice");
    assert_eq!(pins_removed.len(), 2);
    assert!(config.is_pinned("bob/baz"));
}

// ---------------------------------------------------------------------------
// The listing, exactly
// ---------------------------------------------------------------------------

#[test]
fn list_exact_text() {
    let mut config = Config::default();
    config.add_user("bob", true, true, None);
    config.add_user("Alice", false, false, None);
    config.pin_repo_with_options("carol/zed", None, None);
    config.pin_repo_with_options("carol/abc", None, None);
    config.skip_repo("bob/noisy");
    let out = format_list(&config, None);
    assert_eq!(
        out,
        "Tracked users and orgs (2 total):\n  Alice\n  bob [forks, frozen]\n\nPinned repos (2 total):\n  carol/abc\n  carol/zed\n\nSkipped repos (1 total):\n  bob/noisy\n"
    );
}

#[test]
fn list_leaves_out_skipped_repos_without_local_copy() {
    let mut config = Config::default();
    config.add_user("alice", false, false, None);
    config.skip_repo("alice/here");
    config.skip_repo("alice/gone");
    let present = vec!["alice/here".to_string()];
    let out = format_list(&config, Some(&present));
    assert!(out.contains("alice/here"), "got: {out}");
    assert!(!out.contains("alice/gone"), "got: {out}");
    assert!(out.contains("Skipped repos (1 total)"), "got: {out}");
}

// ---------------------------------------------------------------------------
// `add`, `add user/repo` and `remove`
// ---------------------------------------------------------------------------

#[test]
fn add_tracks_each_account_and_drops_their_pins() {
    let mut config = Config::default();
    config.pin_repo_with_options("alice/foo", None, None);
    config.pin_repo_with_options("bob/bar", None, None);
    let users = vec!["alice".to_string(), "carol".to_string()];
    let (changed, reports) = add(&mut config, &users, true, false, None);
    assert!(changed);
    assert_eq!(reports.len(), 2);
    assert_eq!(reports[0].unpinned, vec!["alice/foo".to_string()]);
    assert!(reports[1].unpinned.is_empty());
    assert!(!config.is_pinned("alice/foo"));
    assert!(config.is_pinned("bob/bar"));
    let names: Vec<_> = config.track.iter().map(|u| u.name.clone()).collect();
    assert_eq!(names, vec!["alice", "carol"]);
    assert!(config.track[0].forks);
}

#[test]
fn add_again_changes_nothing() {
    let mut config = Config::default();
    let users = vec!["alice".to_string()];
    add(&mut config, &users, false, true, Some(true));
    let (changed, _) = add(&mut config, &users, false, true, Some(true));
    assert!(!changed);
}

#[test]
fn pin_precheck_rejects_bad_form() {
    let config = Config::default();
    assert!(matches!(pin_precheck(&config, "a/b/c"), Err(Error::NotRepoFormat { .. })));
}

#[test]
fn pin_precheck_sees_covering_account() {
    let mut config = Config::default();
    config.add_user("Alice", false, false, None);
    match pin_precheck(&config, "alice/repo") {
        Ok(PinPrecheck::Covered { account, name }) => {
            assert_eq!(account, "Alice");
            assert_eq!(name, "repo");
        }
        _ => panic!("expected the covering account"),
    }
}

#[test]
fn pin_precheck_sees_existing_pin_ignoring_case() {
    let mut config = Config::default();
    config.pin_repo_with_options("Alice/Repo", None, None);
    match pin_precheck(&config, "alice/repo") {
        Ok(PinPrecheck::AlreadyPinned { existing }) => assert_eq!(existing, "Alice/Repo"),
        _ => panic!("expected the existing pin"),
    }
}

#[test]
fn pin_precheck_refuses_skipped_repo() {
    let mut config = Config::default();
    config.skip_repo("Alice/Repo");
    match pin_precheck(&config, "alice/repo") {
        Err(Error::RepoSkipped { repo }) => assert_eq!(repo, "alice/repo"),
        _ => panic!("expected a refusal"),
    }
}

#[test]
fn pin_precheck_asks_for_lookup() {
    let config = Config::default();
    match pin_precheck(&config, "alice/repo") {
        Ok(PinPrecheck::Lookup { user, name }) => {
            assert_eq!(user, "alice");
            assert_eq!(name, "repo");
        }
        _ => panic!("expected a lookup"),
    }
}

#[test]
fn pin_resolved_pins_once() {
    let mut config = Config::default();
    assert_eq!(pin_resolved(&mut config, "Alice/Repo", Some(3), Some(false)).unwrap(), true);
    assert_eq!(pin_resolved(&mut config, "Alice/Repo", Some(4), None).unwrap(), false);
    assert_eq!(config.pinned_id("Alice/Repo"), Some(3));
    assert_eq!(config.pinned_submodules("Alice/Repo"), Some(false));
}

#[test]
fn pin_resolved_refuses_skipped_repo() {
    let mut config = Config::default();
    config.skip_repo("alice/repo");
    assert!(matches!(pin_resolved(&mut config, "Alice/Repo", None, None), Err(Error::RepoSkipped { .. })));
    assert!(!config.is_pinned("Alice/Repo"));
}

#[test]
fn remove_target_unpins_or_untracks() {
    let mut config = Config::default();
    config.add_user("alice", false, false, None);
    config.pin_repo_with_options("bob/tool", None, None);
    match remove_target(&mut config, "bob/tool") {
        RemoveOutcome::Unpinned { parts } => assert_eq!(parts, Some(("bob".to_string(), "tool".to_string()))),
        _ => panic!("expected an unpin"),
    }
    assert!(matches!(remove_target(&mut config, "bob/tool"), RemoveOutcome::NotPinned));
    match remove_target(&mut config, "ALICE") {
        RemoveOutcome::Account { names, unpinned } => {
            assert_eq!(names, vec!["alice".to_string()]);
            assert!(unpinned.is_empty());
        }
        _ => panic!("expected an account"),
    }
    match remove_target(&mut config, "alice") {
        RemoveOutcome::Account { names, unpinned } => assert!(names.is_empty() && unpinned.is_empty()),
        _ => panic!("expected an account"),
    }
    assert!(config.track.is_empty());
    assert!(config.pinned.is_empty());
}

#[test]
fn remove_reports_whether_anything_changed() {
    let mut config = Config::default();
    config.add_user("alice", false, false, None);
    let (changed, outcomes) = remove(&mut config, &vec!["zed".to_string(), "x/y".to_string()]);
    assert!(!changed);
    assert_eq!(outcomes.len(), 2);
    let (changed, _) = remove(&mut config, &vec!["zed".to_string(), "alice".to_string()]);
    assert!(changed);
}

#[test]
fn remove_gives_the_stored_spelling() {
    let mut config = Config::default();
    config.add_user("Alice", false, false, None);
    match remove_target(&mut config, "alice") {
        RemoveOutcome::Account { names, .. } => assert_eq!(names, vec!["Alice".to_string()]),
        _ => panic!("expected an account"),
    }
}

#[test]
fn removing_an_owner_with_only_pins_unpins_them() {
    let mut config = Config::default();
    config.pin_repo_with_options("Alice/one", None, None);
    config.pin_repo_with_options("alice/two", None, None);
    config.pin_repo_with_options("bob/three", None, None);
    let (changed, outcomes) = remove(&mut config, &vec!["alice".to_string()]);
    assert!(changed);
    match &outcomes[0] {
        RemoveOutcome::Account { names, unpinned } => {
            assert!(names.is_empty());
            assert_eq!(unpinned, &vec!["Alice/one".to_string(), "alice/two".to_string()]);
        }
        _ => panic!("expected an account"),
    }
    assert!(!config.is_pinned("Alice/one"));
    assert!(!config.is_pinned("alice/two"));
    assert!(config.is_pinned("bob/three"));
}
