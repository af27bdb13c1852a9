use gitkeep::config::Config;

#[test]
fn config_skip_repo_marks_as_skipped() {
    let mut config = Config::default();
    config.skip_repo("user/repo");
    assert!(config.is_skipped("user/repo"));
}

#[test]
fn config_skip_repo_returns_true_for_new_skip() {
    let mut config = Config::default();
    assert!(config.skip_repo("user/repo"));
}

#[test]
fn config_skip_repo_returns_false_for_duplicate() {
    let mut config = Config::default();
    config.skip_repo("user/repo");
    assert!(!config.skip_repo("user/repo"));
}

#[test]
fn config_unskip_repo_returns_true_when_was_skipped() {
    let mut config = Config::default();
    config.skip_repo("user/repo");
    assert!(config.unskip_repo("user/repo"));
}

#[test]
fn config_unskip_repo_returns_false_when_not_skipped() {
    let mut config = Config::default();
    assert!(!config.unskip_repo("user/repo"));
}

#[test]
fn config_skip_repo_does_not_affect_other_repos() {
    let mut config = Config::default();
    config.skip_repo("user/repo");
    assert!(!config.is_skipped("user/other"));
}

#[test]
fn config_unskip_repo_clears_skip() {
    let mut config = Config::default();
    config.skip_repo("user/repo");
    config.unskip_repo("user/repo");
    assert!(!config.is_skipped("user/repo"));
}

#[test]
fn config_is_skipped_false_for_unknown() {
    let config = Config::default();
    assert!(!config.is_skipped("user/repo"));
}

#[test]
fn config_pin_repo_marks_as_pinned() {
    let mut config = Config::default();
    config.pin_repo_with_options("user/repo", None, None);
    assert!(config.is_pinned("user/repo"));
}

#[test]
fn config_pin_repo_returns_true_for_new_pin() {
    let mut config = Config::default();
    assert!(config.pin_repo_with_options("user/repo", None, None));
}

#[test]
fn config_pin_repo_returns_false_for_duplicate() {
    let mut config = Config::default();
    config.pin_repo_with_options("user/repo", None, None);
    assert!(!config.pin_repo_with_options("user/repo", None, None));
}

#[test]
fn config_unpin_repo_returns_true_when_was_pinned() {
    let mut config = Config::default();
    config.pin_repo_with_options("user/repo", None, None);
    assert!(config.unpin_repo("user/repo"));
}

#[test]
fn config_unpin_repo_returns_false_when_not_pinned() {
    let mut config = Config::default();
    assert!(!config.unpin_repo("user/repo"));
}

#[test]
fn config_is_pinned_false_for_unknown() {
    let config = Config::default();
    assert!(!config.is_pinned("user/repo"));
}

#[test]
fn add_user_sets_submodules_override_on_new_entry() {
    let mut config = Config::default();
    config.add_user("alice", false, false, Some(true));
    assert_eq!(config.track[0].submodules, Some(true));
}

#[test]
fn add_user_leaves_submodules_unset_when_not_specified() {
    let mut config = Config::default();
    config.add_user("alice", false, false, None);
    assert_eq!(config.track[0].submodules, None);
}

#[test]
fn add_user_updates_submodules_override_on_existing_entry() {
    let mut config = Config::default();
    config.add_user("alice", false, false, None);
    let changed = config.add_user("alice", false, false, Some(false));
    assert!(changed);
    assert_eq!(config.track[0].submodules, Some(false));
}

#[test]
fn add_user_no_change_when_submodules_override_already_set() {
    let mut config = Config::default();
    config.add_user("alice", false, false, Some(true));
    let changed = config.add_user("alice", false, false, Some(true));
    assert!(!changed);
}

#[test]
fn pin_repo_with_options_stores_submodules_override() {
    let mut config = Config::default();
    config.pin_repo_with_options("alice/repo", None, Some(true));
    assert_eq!(config.pinned_submodules("alice/repo"), Some(true));
}

#[test]
fn pin_repo_with_options_leaves_submodules_unset_when_not_specified() {
    let mut config = Config::default();
    config.pin_repo_with_options("alice/repo", None, None);
    assert_eq!(config.pinned_submodules("alice/repo"), None);
}

#[test]
fn pinned_submodules_none_for_unknown_repo() {
    let config = Config::default();
    assert_eq!(config.pinned_submodules("alice/repo"), None);
}

#[test]
fn config_remove_pins_for_user_removes_matching() {
    let mut config = Config::default();
    config.pin_repo_with_options("alice/foo", None, None);
    config.pin_repo_with_options("alice/bar", None, None);
    config.pin_repo_with_options("bob/baz", None, None);
    let removed = config.remove_pins_for_user("alice");
    assert_eq!(removed.len(), 2);
    assert!(!config.is_pinned("alice/foo"));
    assert!(!config.is_pinned("alice/bar"));
    assert!(config.is_pinned("bob/baz"));
}

#[test]
fn config_remove_pins_for_user_case_insensitive() {
    let mut config = Config::default();
    config.pin_repo_with_options("Alice/foo", None, None);
    let removed = config.remove_pins_for_user("alice");
    assert_eq!(removed.len(), 1);
    assert!(!config.is_pinned("Alice/foo"));
}

#[test]
fn config_remove_pins_for_user_returns_empty_when_none() {
    let mut config = Config::default();
    config.pin_repo_with_options("bob/baz", None, None);
    let removed = config.remove_pins_for_user("alice");
    assert!(removed.is_empty());
}

#[test]
fn pin_repo_stores_id() {
    let mut config = Config::default();
    config.pin_repo_with_options("alice/repo", Some(7), None);
    assert_eq!(config.pinned_id("alice/repo"), Some(7));
}

#[test]
fn pin_repo_without_id_stores_none() {
    let mut config = Config::default();
    config.pin_repo_with_options("alice/repo", None, None);
    assert_eq!(config.pinned_id("alice/repo"), None);
}

#[test]
fn pin_repo_with_options_returns_false_for_duplicate_full_name() {
    let mut config = Config::default();
    config.pin_repo_with_options("alice/repo", None, None);
    assert!(!config.pin_repo_with_options("alice/repo", Some(7), None));
}

#[test]
fn rename_pin_updates_full_name_and_keeps_id() {
    let mut config = Config::default();
    config.pin_repo_with_options("alice/repo", Some(7), None);
    assert!(config.rename_pin("alice/repo", "bob/repo"));
    assert!(config.is_pinned("bob/repo"));
    assert!(!config.is_pinned("alice/repo"));
    assert_eq!(config.pinned_id("bob/repo"), Some(7));
}

#[test]
fn rename_pin_returns_false_when_source_missing() {
    let mut config = Config::default();
    assert!(!config.rename_pin("alice/repo", "bob/repo"));
}

#[test]
fn remove_user_matches_ignoring_case() {
    let mut config = Config::default();
    config.add_user("Alice", false, false, None);
    config.add_user("bob", false, false, None);
    assert!(config.remove_user("ALICE"));
    assert!(!config.remove_user("alice"));
    assert_eq!(config.track.len(), 1);
    assert_eq!(config.remove_user_named("BOB"), vec!["bob".to_string()]);
    assert!(config.track.is_empty());
}
