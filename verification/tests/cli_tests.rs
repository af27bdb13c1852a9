use gitkeep::cli::{add_sync_options, delete_without_asking, effective_no_sync, partition_targets, submodules_override, verbosity_of};
use gitkeep::sync::{SyncOptions, Verbosity};

#[test]
fn submodules_flags_give_an_override() {
    assert_eq!(submodules_override(true, false), Some(true));
    assert_eq!(submodules_override(false, true), Some(false));
    assert_eq!(submodules_override(false, false), None);
}

#[test]
fn sync_flags_override_the_configured_default() {
    assert!(!effective_no_sync(true, false, true));
    assert!(effective_no_sync(false, true, false));
    assert!(effective_no_sync(false, false, true));
    assert!(!effective_no_sync(false, false, false));
}

#[test]
fn quiet_wins_over_verbose() {
    assert_eq!(verbosity_of(true, true), Verbosity::Quiet);
    assert_eq!(verbosity_of(false, true), Verbosity::Verbose);
    assert_eq!(verbosity_of(false, false), Verbosity::Normal);
}

#[test]
fn add_sync_options_turn_on_submodules_only_when_asked() {
    assert_eq!(
        add_sync_options(true, Some(true)),
        SyncOptions { force_forks: true, force_submodules: true, ..SyncOptions::default() }
    );
    assert_eq!(add_sync_options(false, Some(false)), SyncOptions::default());
    assert_eq!(add_sync_options(false, None), SyncOptions::default());
}

#[test]
fn targets_split_by_slash_keeping_order() {
    let targets = vec![
        "rust-lang".to_string(),
        "rust-lang/mdBook".to_string(),
        "alice".to_string(),
        "bob/tool".to_string(),
    ];
    let t = partition_targets(&targets);
    assert_eq!(t.repos, vec!["rust-lang/mdBook".to_string(), "bob/tool".to_string()]);
    assert_eq!(t.usernames, vec!["rust-lang".to_string(), "alice".to_string()]);
    assert_eq!(t.repos.len() + t.usernames.len(), targets.len());
}

#[test]
fn remove_deletes_without_asking_on_delete_or_yes() {
    assert!(delete_without_asking(true, false));
    assert!(delete_without_asking(false, true));
    assert!(!delete_without_asking(false, false));
}
