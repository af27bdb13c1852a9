//! The command line: the commands with their flags, and what `add` and
//! `sync` make of those flags.
use vstd::prelude::*;

use crate::config::strings_view;
use crate::sync::{SyncOptions, Verbosity};
use crate::text::contains_char;

verus! {

/// The parsed command line.
pub struct Cli {
    pub command: Commands,
}

/// The commands and their arguments.
pub enum Commands {
    /// Configure the archive directory and clone URL settings.
    Init,
    /// Authenticate with a GitHub personal access token.
    Login,
    /// Add accounts, or single repositories as `user/repo`, to the archive.
    Add {
        users: Vec<String>,
        forks: bool,
        frozen: bool,
        submodules: bool,
        no_submodules: bool,
        no_sync: bool,
        sync: bool,
    },
    /// Skip repositories (`user/repo`) during sync.
    Skip { repos: Vec<String>, delete: bool },
    /// Stop skipping repositories.
    Unskip { repos: Vec<String> },
    /// Stop tracking accounts or pinned repositories.
    Remove { users: Vec<String>, delete: bool, yes: bool },
    /// Delete the local copies of all skipped repositories.
    Prune { yes: bool },
    /// Show what is tracked.
    List,
    /// Sync everything tracked, adding the named accounts first.
    Sync {
        users: Vec<String>,
        forks: bool,
        submodules: bool,
        pull_only: bool,
        new_only: bool,
        quiet: bool,
        verbose: bool,
    },
}

/// The per-account or per-pin submodules override that `add` records:
/// `--submodules` turns it on, `--no-submodules` off, neither leaves it unset.
pub open spec fn submodules_override_spec(submodules: bool, no_submodules: bool) -> Option<bool> {
    if submodules {
        Some(true)
    } else if no_submodules {
        Some(false)
    } else {
        None
    }
}

pub fn submodules_override(submodules: bool, no_submodules: bool) -> (r: Option<bool>)
    ensures
        r == submodules_override_spec(submodules, no_submodules),
{
    if submodules {
        Some(true)
    } else if no_submodules {
        Some(false)
    } else {
        None
    }
}

/// Whether `add` leaves the cloning for later: `--sync` and `--no-sync`
/// override the configured default in either direction.
pub open spec fn no_sync_spec(sync: bool, no_sync: bool, configured: bool) -> bool {
    if sync {
        false
    } else if no_sync {
        true
    } else {
        configured
    }
}

pub fn effective_no_sync(sync: bool, no_sync: bool, configured: bool) -> (r: bool)
    ensures
        r == no_sync_spec(sync, no_sync, configured),
{
    if sync {
        false
    } else if no_sync {
        true
    } else {
        configured
    }
}

/// Whether `remove` deletes an account's local archive without asking:
/// `--delete` asks for it, and `--yes` answers every prompt with yes.
pub fn delete_without_asking(delete: bool, yes: bool) -> (r: bool)
    ensures
        r == (delete || yes),
{
    delete || yes
}

/// The output level of `sync`: `--quiet` wins over `--verbose`.
pub open spec fn verbosity_spec(quiet: bool, verbose: bool) -> Verbosity {
    if quiet {
        Verbosity::Quiet
    } else if verbose {
        Verbosity::Verbose
    } else {
        Verbosity::Normal
    }
}

pub fn verbosity_of(quiet: bool, verbose: bool) -> (r: Verbosity)
    ensures
        r == verbosity_spec(quiet, verbose),
{
    if quiet {
        Verbosity::Quiet
    } else if verbose {
        Verbosity::Verbose
    } else {
        Verbosity::Normal
    }
}

/// The options of the sync that follows `add` for accounts: forks as asked,
/// submodules where the override turns them on.
pub fn add_sync_options(forks: bool, submodules: Option<bool>) -> (r: SyncOptions)
    ensures
        r == (SyncOptions {
            force_forks: forks,
            force_submodules: submodules == Some(true),
            pull_only: false,
            new_only: false,
        }),
{
    let force_submodules = match submodules {
        Some(b) => b,
        None => false,
    };
    SyncOptions { force_forks: forks, force_submodules, pull_only: false, new_only: false }
}

pub open spec fn is_repo_target(s: Seq<char>) -> bool {
    s.contains('/')
}

pub open spec fn is_account_target(s: Seq<char>) -> bool {
    !s.contains('/')
}

/// The targets of `add`, split into repositories (`user/repo`) and accounts.
pub struct AddTargets {
    pub repos: Vec<String>,
    pub usernames: Vec<String>,
}

/// Splits the targets of `add`: those with a `/` are repositories, the rest
/// accounts; each part keeps the order of the arguments.
pub fn partition_targets(targets: &Vec<String>) -> (r: AddTargets)
    ensures
        strings_view(r.repos@) == strings_view(targets@).filter(|s: Seq<char>| is_repo_target(s)),
        strings_view(r.usernames@) == strings_view(targets@).filter(
            |s: Seq<char>| is_account_target(s),
        ),
{
    let ghost ts = strings_view(targets@);
    let ghost rp = |s: Seq<char>| is_repo_target(s);
    let ghost ap = |s: Seq<char>| is_account_target(s);
    let mut repos: Vec<String> = Vec::new();
    let mut usernames: Vec<String> = Vec::new();
    let mut i: usize = 0;
    while i < targets.len()
        invariant
            ts == strings_view(targets@),
            rp == (|s: Seq<char>| is_repo_target(s)),
            ap == (|s: Seq<char>| is_account_target(s)),
            i <= targets.len(),
            strings_view(repos@) == ts.take(i as int).filter(rp),
            strings_view(usernames@) == ts.take(i as int).filter(ap),
        decreases targets.len() - i,
    {
        let t = targets[i].as_str();
        proof {
            assert(ts.take(i + 1) =~= ts.take(i as int).push(t@));
            ts.take(i as int).lemma_filter_push(t@, rp);
            ts.take(i as int).lemma_filter_push(t@, ap);
        }
        let ghost r0 = strings_view(repos@);
        let ghost u0 = strings_view(usernames@);
        if contains_char(t, '/') {
            repos.push(t.to_owned());
            proof {
                assert(strings_view(repos@) =~= r0.push(t@));
            }
        } else {
            usernames.push(t.to_owned());
            proof {
                assert(strings_view(usernames@) =~= u0.push(t@));
            }
        }
        i = i + 1;
    }
    proof {
        assert(ts.take(i as int) =~= ts);
    }
    AddTargets { repos, usernames }
}

} // verus!
