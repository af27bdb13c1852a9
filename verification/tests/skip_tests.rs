use gitkeep::config::Config;
use gitkeep::error::Error;
use gitkeep::skip::{
    canonical_skip_key, check_skip_conflicts, skip_found, skip_local, skip_step, SkipStep, parse_repo_arg, prune_candidates, prune_question, remove,
    unskip_one,
};

#[test]
fn parse_repo_arg_valid() {
    let (user, name) = parse_repo_arg("alice/my-repo").unwrap();
    assert_eq!(user, "alice");
    assert_eq!(name, "my-repo");
}

#[test]
fn parse_repo_arg_rejects_no_slash() {
    assert!(parse_repo_arg("noslash").is_err());
}

#[test]
fn parse_repo_arg_rejects_two_slashes() {
    assert!(parse_repo_arg("a/b/c").is_err());
}

#[test]
fn parse_repo_arg_rejects_empty_user() {
    assert!(parse_repo_arg("/repo").is_err());
}

#[test]
fn parse_repo_arg_rejects_empty_repo() {
    assert!(parse_repo_arg("user/").is_err());
}

#[test]
fn unskip_one_rejects_bad_format() {
    let mut config = Config::default();
    assert!(unskip_one(&mut config, "noslash").is_err());
}

#[test]
fn unskip_one_succeeds_when_not_skipped() {
    let mut config = Config::default();
    // should succeed (not error) even if not currently skipped
    assert!(unskip_one(&mut config, "user/repo").is_ok());
}

#[test]
fn unskip_one_removes_existing_skip() {
    let mut config = Config::default();
    config.skip_repo("user/repo");
    unskip_one(&mut config, "user/repo").unwrap();
    assert!(!config.is_skipped("user/repo"));
}

#[test]
fn check_skip_conflicts_rejects_pinned_repo() {
    let mut config = Config::default();
    config.pin_repo_with_options("alice/repo", None, None);
    assert!(check_skip_conflicts(&config, "alice/repo", "alice").is_err());
}

#[test]
fn check_skip_conflicts_rejects_untracked_user() {
    let config = Config::default();
    assert!(check_skip_conflicts(&config, "alice/repo", "alice").is_err());
}

#[test]
fn check_skip_conflicts_allows_tracked_user() {
    let mut config = Config::default();
    config.add_user("alice", false, false, None);
    assert!(check_skip_conflicts(&config, "alice/repo", "alice").is_ok());
}

#[test]
fn parse_repo_arg_error_names_the_argument() {
    match parse_repo_arg("a/b/c") {
        Err(Error::NotRepoFormat { arg }) => assert_eq!(arg, "a/b/c"),
        other => panic!("unexpected: {other:?}"),
    }
}

#[test]
fn check_skip_conflicts_matches_pins_ignoring_case() {
    let mut config = Config::default();
    config.add_user("alice", false, false, None);
    config.pin_repo_with_options("Alice/Repo", None, None);
    match check_skip_conflicts(&config, "alice/repo", "alice") {
        Err(Error::RepoPinned { repo }) => assert_eq!(repo, "alice/repo"),
        other => panic!("unexpected: {other:?}"),
    }
}

#[test]
fn check_skip_conflicts_names_the_untracked_owner() {
    let mut config = Config::default();
    config.add_user("bob", false, false, None);
    match check_skip_conflicts(&config, "alice/repo", "alice") {
        Err(Error::UserNotTracked { repo, user }) => {
            assert_eq!(repo, "alice/repo");
            assert_eq!(user, "alice");
        }
        other => panic!("unexpected: {other:?}"),
    }
}

#[test]
fn check_skip_conflicts_matches_owner_ignoring_case() {
    let mut config = Config::default();
    config.add_user("Alice", false, false, None);
    assert!(check_skip_conflicts(&config, "alice/repo", "alice").is_ok());
}

#[test]
fn unskip_one_reports_whether_it_was_skipped() {
    let mut config = Config::default();
    config.skip_repo("user/repo");
    assert_eq!(unskip_one(&mut config, "user/repo").unwrap(), true);
    assert_eq!(unskip_one(&mut config, "user/repo").unwrap(), false);
}

#[test]
fn remove_stops_at_the_first_bad_argument() {
    let mut config = Config::default();
    config.skip_repo("a/one");
    config.skip_repo("b/two");
    config.skip_repo("c/three");
    let args = vec!["a/one".to_string(), "x/none".to_string(), "bad".to_string(), "c/three".to_string()];
    let (was, res) = remove(&mut config, &args);
    assert_eq!(was, vec![true, false]);
    assert!(matches!(res, Err(Error::NotRepoFormat { .. })));
    assert!(!config.is_skipped("a/one"));
    assert!(config.is_skipped("b/two"));
    assert!(config.is_skipped("c/three"));
}

#[test]
fn remove_handles_every_valid_argument() {
    let mut config = Config::default();
    config.skip_repo("a/one");
    let args = vec!["a/one".to_string(), "a/one".to_string()];
    let (was, res) = remove(&mut config, &args);
    assert_eq!(was, vec![true, false]);
    assert!(res.is_ok());
    assert!(!config.is_skipped("a/one"));
}

#[test]
fn canonical_skip_key_uses_tracked_spelling() {
    let mut config = Config::default();
    config.add_user("Alice", false, false, None);
    assert_eq!(canonical_skip_key(&config, "alice", "repo"), "Alice/repo");
    assert_eq!(canonical_skip_key(&config, "bob", "repo"), "bob/repo");
}

#[test]
fn prune_candidates_are_sorted_and_split() {
    let mut config = Config::default();
    config.skip_repo("zed/z");
    config.skip_repo("amy/a");
    config.skip_repo("legacy");
    let c = prune_candidates(&config);
    assert_eq!(c.len(), 2);
    assert_eq!(c[0].full_name, "amy/a");
    assert_eq!(c[0].owner, "amy");
    assert_eq!(c[0].name, "a");
    assert_eq!(c[1].full_name, "zed/z");
}

#[test]
fn prune_question_counts_repos() {
    assert_eq!(prune_question(1), "Delete 1 local repo?");
    assert_eq!(prune_question(3), "Delete 3 local repos?");
}

#[test]
fn error_messages() {
    let e = Error::NotRepoFormat { arg: "x".to_string() };
    assert_eq!(e.message(), "'x' is not in user/repo format");
    let e = Error::RepoPinned { repo: "a/b".to_string() };
    assert_eq!(e.message(), "'a/b' is currently pinned. Run 'gitkeep remove a/b' to stop tracking it instead.");
    let e = Error::UserNotTracked { repo: "a/b".to_string(), user: "a".to_string() };
    assert_eq!(
        e.message(),
        "'a/b' won't be synced: 'a' is not in your tracked list. Run 'gitkeep add a' first."
    );
    let e = Error::RepoSkipped { repo: "a/b".to_string() };
    assert_eq!(e.message(), "'a/b' is currently skipped. Run 'gitkeep unskip a/b' first.");
}

#[test]
fn skip_local_uses_tracked_spelling() {
    let mut config = Config::default();
    config.add_user("Alice", false, false, None);
    assert_eq!(skip_local(&mut config, "alice", "repo"), ("Alice/repo".to_string(), true));
    assert_eq!(skip_local(&mut config, "ALICE", "repo"), ("Alice/repo".to_string(), false));
    assert!(config.is_skipped("Alice/repo"));
}

#[test]
fn skip_found_uses_github_name() {
    let mut config = Config::default();
    assert_eq!(skip_found(&mut config, "alice/repo", Some("Alice/Repo".to_string())), ("Alice/Repo".to_string(), true));
    assert_eq!(skip_found(&mut config, "bob/x", None), ("bob/x".to_string(), true));
    assert!(config.is_skipped("Alice/Repo"));
    assert!(!config.is_skipped("alice/repo"));
}

#[test]
fn skip_step_skips_a_local_copy_without_checks() {
    let mut config = Config::default();
    config.pin_repo_with_options("alice/repo", None, None);
    match skip_step(&mut config, "alice/repo", "alice", "repo", true) {
        Ok(SkipStep::Local { key, newly }) => {
            assert_eq!(key, "alice/repo");
            assert!(newly);
        }
        _ => panic!("expected a local skip"),
    }
    assert!(config.is_skipped("alice/repo"));
}

#[test]
fn skip_step_checks_before_a_lookup() {
    let mut config = Config::default();
    assert!(matches!(skip_step(&mut config, "alice/repo", "alice", "repo", false), Err(Error::UserNotTracked { .. })));
    config.add_user("alice", false, false, None);
    assert!(matches!(skip_step(&mut config, "alice/repo", "alice", "repo", false), Ok(SkipStep::Lookup)));
    config.pin_repo_with_options("alice/repo", None, None);
    assert!(matches!(skip_step(&mut config, "alice/repo", "alice", "repo", false), Err(Error::RepoPinned { .. })));
    assert!(!config.is_skipped("alice/repo"));
}
