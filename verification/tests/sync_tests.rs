use chrono::{Duration, Utc};
use gitkeep::config::{Config, TrackedUser, UserNote};
use gitkeep::state::{State, Timestamp};
use gitkeep::sync::{
    begin_pull, build_normal_detail, build_summary, classify_pull, clone_url, dedup_users, fetch_kind,
    fork_count, local_action, merge_repo_lists, plan_sync, record_clone, record_failures, record_pull,
    repo_label, repos_owned_by, resolve_submodules, select_users, should_skip_pull, triage_repo,
    FetchKind, LocalAction, PullFollowUp, PullOutcome, RepoInfo, SyncOptions, SyncStart, Totals,
    Verbosity,
};

fn stamp(t: chrono::DateTime<Utc>) -> Timestamp {
    Timestamp::new(t.timestamp(), t.timestamp_subsec_nanos())
}

#[test]
fn skip_pull_when_pushed_at_matches() {
    let t = stamp(Utc::now());
    assert!(should_skip_pull(Some(t), Some(t)));
}

#[test]
fn skip_pull_when_repo_older_than_state() {
    let older = stamp(Utc::now() - Duration::hours(1));
    let newer = stamp(Utc::now());
    assert!(should_skip_pull(Some(older), Some(newer)));
}

#[test]
fn pull_when_repo_pushed_at_is_newer() {
    let older = stamp(Utc::now() - Duration::hours(1));
    let newer = stamp(Utc::now());
    assert!(!should_skip_pull(Some(newer), Some(older)));
}

#[test]
fn pull_when_no_state_pushed_at() {
    assert!(!should_skip_pull(Some(stamp(Utc::now())), None));
}

#[test]
fn pull_when_no_repo_pushed_at() {
    assert!(!should_skip_pull(None, Some(stamp(Utc::now()))));
}

#[test]
fn resolve_submodules_uses_global_default_when_no_override_or_force() {
    assert!(resolve_submodules(false, None, true));
    assert!(!resolve_submodules(false, None, false));
}

#[test]
fn resolve_submodules_override_beats_global_default() {
    assert!(resolve_submodules(false, Some(true), false));
    assert!(!resolve_submodules(false, Some(false), true));
}

#[test]
fn resolve_submodules_force_beats_everything() {
    assert!(resolve_submodules(true, Some(false), false));
}

#[test]
fn pull_when_neither_pushed_at() {
    assert!(!should_skip_pull(None, None));
}

fn totals(skipped: usize) -> Totals {
    Totals { skipped, ..Totals::default() }
}

#[test]
fn summary_shows_user_skipped_count() {
    let s = build_summary(&totals(2));
    assert!(s.contains("2 repos skipped"), "got: {s}");
}

#[test]
fn summary_not_nothing_to_do_when_only_skipped() {
    let s = build_summary(&totals(1));
    assert_ne!(s, "Nothing to do.");
}

#[test]
fn summary_nothing_to_do_when_truly_empty() {
    let s = build_summary(&Totals::default());
    assert_eq!(s, "Nothing to do.");
}

#[test]
fn summary_does_not_show_excluded() {
    let s = build_summary(&Totals { excluded: 5, ..Totals::default() });
    assert!(!s.contains("excluded"), "got: {s}");
    assert!(!s.contains("skipped"), "got: {s}");
}

#[test]
fn summary_shows_done_when_only_excluded() {
    let s = build_summary(&Totals { excluded: 5, ..Totals::default() });
    assert_eq!(s, "Done.");
}

#[test]
fn detail_empty_when_nothing_notable() {
    let totals = Totals { pulled_up_to_date: 5, ..Totals::default() };
    assert!(build_normal_detail(&totals).is_none());
}

#[test]
fn detail_shows_cloned_section() {
    let totals = Totals { new_repos: vec!["alice/fresh".to_string()], cloned: 1, ..Totals::default() };
    let detail = build_normal_detail(&totals).unwrap();
    assert!(detail.contains("Cloned"), "got: {detail}");
    assert!(detail.contains("alice/fresh"), "got: {detail}");
}

#[test]
fn detail_shows_updated_section() {
    let totals = Totals { updated_repos: vec!["alice/old".to_string()], pulled_updated: 1, ..Totals::default() };
    let detail = build_normal_detail(&totals).unwrap();
    assert!(detail.contains("Updated"), "got: {detail}");
    assert!(detail.contains("alice/old"), "got: {detail}");
}

#[test]
fn detail_omits_empty_sections() {
    let totals = Totals { updated_repos: vec!["alice/repo".to_string()], pulled_updated: 1, ..Totals::default() };
    let detail = build_normal_detail(&totals).unwrap();
    assert!(!detail.contains("Cloned"), "got: {detail}");
}

#[test]
fn detail_shows_both_sections_when_populated() {
    let totals = Totals {
        new_repos: vec!["alice/new".to_string()],
        updated_repos: vec!["alice/old".to_string()],
        cloned: 1,
        pulled_updated: 1,
        ..Totals::default()
    };
    let detail = build_normal_detail(&totals).unwrap();
    assert!(detail.contains("Cloned"), "got: {detail}");
    assert!(detail.contains("Updated"), "got: {detail}");
}

// ---------------------------------------------------------------------------
// Exact texts
// ---------------------------------------------------------------------------

#[test]
fn summary_lists_every_count_in_order() {
    let t = Totals {
        cloned: 1,
        pulled_updated: 2,
        pulled_up_to_date: 3,
        skipped: 1,
        failed: 4,
        excluded: 9,
        ..Totals::default()
    };
    assert_eq!(
        build_summary(&t),
        "Done. 1 new repo cloned, 2 repos with new commits, 3 repos up to date, 1 repo skipped, 4 repos failed."
    );
}

#[test]
fn summary_counts_many_clones() {
    let t = Totals { cloned: 12, ..Totals::default() };
    assert_eq!(build_summary(&t), "Done. 12 new repos cloned.");
}

#[test]
fn detail_exact_text() {
    let totals = Totals {
        new_repos: vec!["alice/new".to_string(), "bob/fresh".to_string()],
        updated_repos: vec!["alice/old".to_string()],
        ..Totals::default()
    };
    assert_eq!(
        build_normal_detail(&totals).unwrap(),
        "Cloned:\n  alice/new\n  bob/fresh\n\nUpdated:\n  alice/old"
    );
}

// ---------------------------------------------------------------------------
// Repositories
// ---------------------------------------------------------------------------

fn repo(id: u64, full_name: &str, fork: bool, owner: &str) -> RepoInfo {
    let name = full_name.split_once('/').map_or(full_name, |(_, n)| n).to_string();
    RepoInfo {
        id,
        name,
        full_name: Some(full_name.to_string()),
        fork: Some(fork),
        ssh_url: Some(format!("git@github.com:{full_name}.git")),
        clone_url: Some(format!("https://github.com/{full_name}.git")),
        pushed_at: None,
        owner_login: Some(owner.to_string()),
    }
}

#[test]
fn merge_keeps_first_of_each_id() {
    let public = vec![repo(1, "alice/a", false, "alice"), repo(2, "alice/b", false, "alice")];
    let accessible = vec![repo(2, "alice/b2", false, "alice"), repo(3, "alice/c", false, "alice")];
    let merged = merge_repo_lists(public, accessible);
    let names: Vec<_> = merged.iter().map(|r| r.full_name.clone().unwrap()).collect();
    assert_eq!(names, vec!["alice/a", "alice/b", "alice/c"]);
}

#[test]
fn repos_owned_by_matches_owner_ignoring_case() {
    let repos = vec![repo(1, "Alice/a", false, "Alice"), repo(2, "bob/b", false, "bob")];
    let owned = repos_owned_by(repos, "alice");
    assert_eq!(owned.len(), 1);
    assert_eq!(owned[0].id, 1);
}

#[test]
fn fork_count_counts_forks() {
    let repos = vec![repo(1, "a/a", true, "a"), repo(2, "a/b", false, "a"), repo(3, "a/c", true, "a")];
    assert_eq!(fork_count(&repos), 2);
}

#[test]
fn clone_url_follows_ssh_setting() {
    let r = repo(1, "alice/a", false, "alice");
    assert_eq!(clone_url(&r, true).unwrap(), "git@github.com:alice/a.git");
    assert_eq!(clone_url(&r, false).unwrap(), "https://github.com/alice/a.git");
}

#[test]
fn triage_counts_skipped_and_excluded() {
    let mut config = Config::default();
    config.skip_repo("alice/skipme");
    let mut t = Totals::default();
    assert!(triage_repo(&config, &repo(1, "alice/skipme", false, "alice"), false, &mut t).is_none());
    assert!(triage_repo(&config, &repo(2, "alice/fork", true, "alice"), false, &mut t).is_none());
    let url = triage_repo(&config, &repo(3, "alice/fork", true, "alice"), true, &mut t);
    assert_eq!(url.unwrap(), "https://github.com/alice/fork.git");
    assert_eq!(t.skipped, 1);
    assert_eq!(t.excluded, 1);
}

#[test]
fn local_action_respects_pull_only_and_new_only() {
    let mut t = Totals::default();
    let new_only = SyncOptions { new_only: true, ..SyncOptions::default() };
    let pull_only = SyncOptions { pull_only: true, ..SyncOptions::default() };
    assert_eq!(local_action(true, new_only, &mut t), LocalAction::Excluded);
    assert_eq!(local_action(false, new_only, &mut t), LocalAction::Clone);
    assert_eq!(local_action(false, pull_only, &mut t), LocalAction::Excluded);
    assert_eq!(local_action(true, pull_only, &mut t), LocalAction::Pull);
    assert_eq!(t.excluded, 2);
}

#[test]
fn begin_pull_counts_an_unchanged_repo_as_up_to_date() {
    let mut state = State::default();
    let p = Timestamp::new(100, 0);
    state.mark_synced("alice/a", Some(p), Timestamp::new(200, 0));
    let mut t = Totals::default();
    assert!(!begin_pull(&state, "alice/a", Some(p), &mut t));
    assert_eq!(t.pulled_up_to_date, 1);
    assert!(begin_pull(&state, "alice/a", Some(Timestamp::new(101, 0)), &mut t));
    assert!(begin_pull(&state, "alice/b", Some(p), &mut t));
    assert_eq!(t.pulled_up_to_date, 1);
}

#[test]
fn classify_pull_by_exit_code_and_head() {
    let a = Some("abc".to_string());
    let b = Some("def".to_string());
    assert_eq!(classify_pull(0, &a, &a), PullOutcome::UpToDate);
    assert_eq!(classify_pull(0, &a, &b), PullOutcome::Updated);
    assert_eq!(classify_pull(128, &a, &a), PullOutcome::Fatal);
    assert_eq!(classify_pull(1, &a, &b), PullOutcome::Failed);
}

#[test]
fn record_pull_counts_and_lists() {
    let mut state = State::default();
    let mut t = Totals::default();
    let f = record_pull(PullOutcome::Updated, true, Verbosity::Normal, "alice/a", "alice/a", None, Timestamp::new(7, 0), &mut state, &mut t);
    assert_eq!(f, PullFollowUp::UpdateSubmodules);
    assert_eq!(t.pulled_updated, 1);
    assert_eq!(t.updated_repos, vec!["alice/a".to_string()]);
    assert_eq!(state.repo("alice/a").unwrap().last_synced_at, Timestamp::new(7, 0));
    let f = record_pull(PullOutcome::Fatal, true, Verbosity::Normal, "alice/b", "alice/b", None, Timestamp::new(7, 0), &mut state, &mut t);
    assert_eq!(f, PullFollowUp::Reclone);
    assert!(state.repo("alice/b").is_none());
    let f = record_pull(PullOutcome::Failed, false, Verbosity::Quiet, "alice/c", "alice/c", None, Timestamp::new(7, 0), &mut state, &mut t);
    assert_eq!(f, PullFollowUp::Done);
    assert_eq!(t.failed, 1);
}

#[test]
fn record_clone_counts_and_lists() {
    let mut state = State::default();
    let mut t = Totals::default();
    assert!(!record_clone(true, false, Verbosity::Verbose, "alice/a", "alice/a", None, Timestamp::new(7, 0), &mut state, &mut t));
    assert_eq!(t.cloned, 1);
    assert!(t.new_repos.is_empty());
    assert!(!record_clone(false, true, Verbosity::Normal, "alice/b", "alice/b", None, Timestamp::new(7, 0), &mut state, &mut t));
    assert_eq!(t.failed, 1);
    record_failures(&mut t, 3);
    assert_eq!(t.failed, 4);
}

#[test]
fn repo_label_joins_with_slash() {
    assert_eq!(repo_label("alice", "repo"), "alice/repo");
}

#[test]
fn fetch_kind_by_account_type_and_token() {
    assert_eq!(fetch_kind(true, true), FetchKind::OrgRepos);
    assert_eq!(fetch_kind(true, false), FetchKind::PublicRepos);
    assert_eq!(fetch_kind(false, true), FetchKind::PublicAndOwned);
    assert_eq!(fetch_kind(false, false), FetchKind::PublicRepos);
}

// ---------------------------------------------------------------------------
// What a run syncs
// ---------------------------------------------------------------------------

#[test]
fn plan_sync_reports_nothing_to_sync() {
    let mut config = Config::default();
    let plan = plan_sync(&mut config, &vec![]);
    assert!(!plan.changed);
    assert!(plan.notes.is_empty());
    assert!(matches!(plan.start, SyncStart::NothingToSync));
}

#[test]
fn plan_sync_reports_all_frozen() {
    let mut config = Config::default();
    config.add_user("alice", false, true, None);
    let plan = plan_sync(&mut config, &vec![]);
    assert!(matches!(plan.start, SyncStart::AllFrozen));
}

#[test]
fn plan_sync_adds_extra_users_and_leaves_out_covered_pins() {
    let mut config = Config::default();
    config.add_user("alice", false, true, None);
    config.pin_repo_with_options("Bob/tool", None, None);
    config.pin_repo_with_options("carol/lib", None, None);
    let plan = plan_sync(&mut config, &vec!["bob".to_string()]);
    assert!(plan.changed);
    assert_eq!(plan.notes.len(), 1);
    assert!(matches!(plan.notes[0][..], [UserNote::NowTracking { forks: false, frozen: false }]));
    match plan.start {
        SyncStart::Run { users, pinned } => {
            let names: Vec<_> = users.iter().map(|u| u.name.clone()).collect();
            assert_eq!(names, vec!["bob"]);
            assert_eq!(pinned, vec!["carol/lib".to_string()]);
        }
        _ => panic!("expected a run"),
    }
}

#[test]
fn select_users_matches_ignoring_case() {
    let mut config = Config::default();
    config.add_user("Alice", false, false, None);
    config.add_user("bob", false, false, None);
    let picked = select_users(&config, &vec!["alice".to_string(), "zed".to_string()]);
    assert_eq!(picked.len(), 1);
    assert_eq!(picked[0].name, "Alice");
}

#[test]
fn dedup_users_keeps_first_of_each_name() {
    let users = vec![
        TrackedUser::with_options("alice", true, false),
        TrackedUser::with_options("bob", false, false),
        TrackedUser::with_options("alice", false, false),
    ];
    let d = dedup_users(&users);
    assert_eq!(d.len(), 2);
    assert!(d[0].forks);
    assert_eq!(d[1].name, "bob");
}

// ---------------------------------------------------------------------------
// Accounts and pins as GitHub resolves them
// ---------------------------------------------------------------------------

use gitkeep::sync::{
    after_removal, apply_account, apply_pinned_repo, finish_pull, forks_included, id_to_retry, record_list_failure,
    record_unreachable, start_repo, visible_count, AccountInfo, RepoStart,
};

#[test]
fn apply_account_records_rename_and_id() {
    let mut config = Config::default();
    config.add_user("oldname", false, false, None);
    let info = Some(AccountInfo { login: "NewName".to_string(), id: 42, account_type: "Organization".to_string() });
    let u = apply_account(&mut config, "OldName", &info);
    assert_eq!(u.canonical, "NewName");
    assert!(u.is_org);
    assert!(u.config_changed);
    assert_eq!(u.renamed_from, Some("oldname".to_string()));
    assert_eq!(config.track[0].name, "NewName");
    assert_eq!(config.track[0].id, Some(42));
}

#[test]
fn apply_account_without_answer_keeps_the_entry() {
    let mut config = Config::default();
    config.add_user("alice", false, false, None);
    let u = apply_account(&mut config, "alice", &None);
    assert_eq!(u.canonical, "alice");
    assert!(!u.is_org);
    assert!(!u.config_changed);
    assert!(u.renamed_from.is_none());
}

#[test]
fn apply_account_no_change_when_already_known() {
    let mut config = Config::default();
    config.add_user("alice", false, false, None);
    let info = Some(AccountInfo { login: "alice".to_string(), id: 7, account_type: "User".to_string() });
    assert!(apply_account(&mut config, "alice", &info).config_changed);
    let again = apply_account(&mut config, "alice", &info);
    assert!(!again.config_changed);
}

#[test]
fn apply_pinned_repo_follows_a_rename() {
    let mut config = Config::default();
    config.pin_repo_with_options("alice/old", Some(5), None);
    let r = repo(5, "bob/new", false, "bob");
    let u = apply_pinned_repo(&mut config, "alice/old", "alice", Some(5), &r);
    assert!(u.renamed);
    assert!(u.config_changed);
    assert_eq!(u.full_name, "bob/new");
    assert_eq!(u.owner, "bob");
    assert_eq!(u.parts, Some(("bob".to_string(), "new".to_string())));
    assert!(config.is_pinned("bob/new"));
    assert!(!config.is_pinned("alice/old"));
    assert_eq!(config.pinned_id("bob/new"), Some(5));
}

#[test]
fn apply_pinned_repo_records_a_missing_id() {
    let mut config = Config::default();
    config.pin_repo_with_options("alice/repo", None, None);
    let r = repo(9, "alice/repo", false, "alice");
    let u = apply_pinned_repo(&mut config, "alice/repo", "alice", None, &r);
    assert!(!u.renamed);
    assert!(u.config_changed);
    assert_eq!(config.pinned_id("alice/repo"), Some(9));
    let again = apply_pinned_repo(&mut config, "alice/repo", "alice", Some(9), &r);
    assert!(!again.config_changed);
}

#[test]
fn forks_included_when_run_or_account_asks() {
    let with = SyncOptions { force_forks: true, ..SyncOptions::default() };
    assert!(forks_included(with, false));
    assert!(forks_included(SyncOptions::default(), true));
    assert!(!forks_included(SyncOptions::default(), false));
}

// ---------------------------------------------------------------------------
// The steps on one repository
// ---------------------------------------------------------------------------

fn count(t: &Totals) -> usize {
    t.pulled_updated + t.pulled_up_to_date + t.cloned + t.skipped + t.excluded + t.failed
}

#[test]
fn start_repo_decides_and_counts() {
    let mut config = Config::default();
    config.skip_repo("alice/skipme");
    let mut state = State::default();
    let p = Timestamp::new(100, 0);
    state.mark_synced("alice/same", Some(p), Timestamp::new(200, 0));
    let mut t = Totals::default();
    let opts = SyncOptions::default();
    assert!(matches!(start_repo(&config, &state, &repo(1, "alice/skipme", false, "alice"), false, true, opts, &mut t), RepoStart::Done));
    assert!(matches!(start_repo(&config, &state, &repo(2, "alice/fork", true, "alice"), false, true, opts, &mut t), RepoStart::Done));
    let mut same = repo(3, "alice/same", false, "alice");
    same.pushed_at = Some(p);
    assert!(matches!(start_repo(&config, &state, &same, false, true, opts, &mut t), RepoStart::Done));
    assert_eq!((t.skipped, t.excluded, t.pulled_up_to_date), (1, 1, 1));
    match start_repo(&config, &state, &repo(4, "alice/new", false, "alice"), false, false, opts, &mut t) {
        RepoStart::Clone { url } => assert_eq!(url, "https://github.com/alice/new.git"),
        _ => panic!("expected a clone"),
    }
    match start_repo(&config, &state, &repo(5, "alice/old", false, "alice"), false, true, opts, &mut t) {
        RepoStart::Pull { url } => assert_eq!(url, "https://github.com/alice/old.git"),
        _ => panic!("expected a pull"),
    }
    assert_eq!(count(&t), 3);
}

#[test]
fn finish_pull_counts_a_git_that_did_not_run() {
    let mut state = State::default();
    let mut t = Totals::default();
    let f = finish_pull(None, true, Verbosity::Normal, "a/b", "a/b", None, Timestamp::new(1, 0), &mut state, &mut t);
    assert_eq!(f, PullFollowUp::Done);
    assert_eq!(t.failed, 1);
    assert!(state.repo("a/b").is_none());
}

#[test]
fn a_fatal_pull_then_a_failed_removal_counts_once() {
    let mut state = State::default();
    let mut t = Totals::default();
    let f = finish_pull(Some(PullOutcome::Fatal), false, Verbosity::Normal, "a/b", "a/b", None, Timestamp::new(1, 0), &mut state, &mut t);
    assert_eq!(f, PullFollowUp::Reclone);
    assert_eq!(count(&t), 0);
    assert!(!after_removal(false, &mut t));
    assert_eq!(count(&t), 1);
    assert!(after_removal(true, &mut t));
    assert_eq!(count(&t), 1);
}

#[test]
fn unreachable_and_list_failures_are_counted() {
    let mut t = Totals::default();
    record_unreachable(&mut t);
    record_list_failure(&mut t, &vec![repo(1, "a/a", false, "a"), repo(2, "a/b", false, "a")]);
    assert_eq!(t.failed, 3);
}

#[test]
fn id_retried_only_when_name_lookup_failed() {
    assert_eq!(id_to_retry(true, Some(5)), None);
    assert_eq!(id_to_retry(false, Some(5)), Some(5));
    assert_eq!(id_to_retry(false, None), None);
}

#[test]
fn visible_count_leaves_out_forks_unless_included() {
    let repos = vec![repo(1, "a/a", true, "a"), repo(2, "a/b", false, "a"), repo(3, "a/c", false, "a")];
    assert_eq!(visible_count(&repos, false), 2);
    assert_eq!(visible_count(&repos, true), 3);
}
