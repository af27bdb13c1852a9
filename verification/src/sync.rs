//! The decisions of a sync run: which accounts and pinned repositories to
//! sync, what to do with each repository, how outcomes are counted, and the
//! report printed at the end.
use vstd::prelude::*;

use crate::config::{
    add_user_changes, add_user_notes, add_user_spec, UserNote, find_user, is_pinned_spec, opt_view, pin_names, rename_pin_spec,
    set_pin_id_spec, strings_view, users_view, Config, ConfigView, TrackedUser,
    TrackedUserView,
};
use crate::state::{ts_le, RepoState, State, StateView, Timestamp};
use crate::text::{
    append_lines, eq_ignore_ascii_case, eq_ignore_case, join, join_strings, lines, split_first,
    split_once_char, trim_end, trim_end_string,
};
use crate::utils::{plural, plural_text};

verus! {

// ---------------------------------------------------------------------------
// Options and counters
// ---------------------------------------------------------------------------

#[derive(Clone, Copy, PartialEq, Eq, Structural, Debug)]
pub enum Verbosity {
    Quiet,
    Normal,
    Verbose,
}

/// One-off options of a sync run.
#[derive(Clone, Copy, PartialEq, Eq, Structural, Debug)]
pub struct SyncOptions {
    pub force_forks: bool,
    pub force_submodules: bool,
    pub pull_only: bool,
    pub new_only: bool,
}

impl Default for SyncOptions {
    fn default() -> (o: Self)
        ensures
            o == (SyncOptions {
                force_forks: false,
                force_submodules: false,
                pull_only: false,
                new_only: false,
            }),
    {
        SyncOptions { force_forks: false, force_submodules: false, pull_only: false, new_only: false }
    }
}

/// What a sync run did, repository by repository.
pub struct Totals {
    pub pulled_updated: usize,
    pub pulled_up_to_date: usize,
    pub cloned: usize,
    /// Repositories the user asked to skip.
    pub skipped: usize,
    /// Repositories left out by the run's rules (forks, no URL, the
    /// pull-only and new-only options).
    pub excluded: usize,
    pub failed: usize,
    /// `owner/name` of each repository that got new commits (normal output).
    pub updated_repos: Vec<String>,
    /// `owner/name` of each repository cloned (normal output).
    pub new_repos: Vec<String>,
}

impl Default for Totals {
    fn default() -> (t: Self)
        ensures
            t.pulled_updated == 0,
            t.pulled_up_to_date == 0,
            t.cloned == 0,
            t.skipped == 0,
            t.excluded == 0,
            t.failed == 0,
            t.updated_repos@ == Seq::<String>::empty(),
            t.new_repos@ == Seq::<String>::empty(),
    {
        Totals {
            pulled_updated: 0,
            pulled_up_to_date: 0,
            cloned: 0,
            skipped: 0,
            excluded: 0,
            failed: 0,
            updated_repos: Vec::new(),
            new_repos: Vec::new(),
        }
    }
}

// ---------------------------------------------------------------------------
// The final report
// ---------------------------------------------------------------------------

pub open spec fn part(present: bool, p: Seq<char>) -> Seq<Seq<char>> {
    if present {
        seq![p]
    } else {
        Seq::empty()
    }
}

/// The repositories a run processed: all but the excluded ones.
pub open spec fn processed(t: &Totals) -> int {
    t.pulled_updated + t.pulled_up_to_date + t.cloned + t.failed + t.skipped
}

pub open spec fn summary_parts(t: &Totals) -> Seq<Seq<char>> {
    part(t.cloned > 0, plural_text(t.cloned as nat, "new repo"@, "new repos"@) + " cloned"@)
        + part(
        t.pulled_updated > 0,
        plural_text(t.pulled_updated as nat, "repo"@, "repos"@) + " with new commits"@,
    ) + part(
        t.pulled_up_to_date > 0,
        plural_text(t.pulled_up_to_date as nat, "repo"@, "repos"@) + " up to date"@,
    ) + part(t.skipped > 0, plural_text(t.skipped as nat, "repo"@, "repos"@) + " skipped"@)
        + part(t.failed > 0, plural_text(t.failed as nat, "repo"@, "repos"@) + " failed"@)
}

/// The one-line summary printed at the end of a sync run.
pub open spec fn summary_text(t: &Totals) -> Seq<char> {
    if processed(t) == 0 {
        if t.excluded > 0 {
            "Done."@
        } else {
            "Nothing to do."@
        }
    } else {
        "Done. "@ + join(summary_parts(t), ", "@) + "."@
    }
}

fn push_part(parts: &mut Vec<String>, n: usize, singular: &str, plural_form: &str, tail: &str)
    ensures
        strings_view(final(parts)@) == strings_view(old(parts)@).push(
            plural_text(n as nat, singular@, plural_form@) + tail@,
        ),
{
    let mut p = plural(n, singular, plural_form);
    p.append(tail);
    let ghost before = strings_view(parts@);
    parts.push(p);
    proof {
        assert(strings_view(parts@) =~= before.push(plural_text(n as nat, singular@, plural_form@) + tail@));
    }
}

/// The one-line summary of a sync run.
pub fn build_summary(totals: &Totals) -> (r: String)
    ensures
        r@ == summary_text(totals),
{
    if totals.pulled_updated == 0 && totals.pulled_up_to_date == 0 && totals.cloned == 0
        && totals.failed == 0 && totals.skipped == 0 {
        if totals.excluded > 0 {
            return "Done.".to_owned();
        } else {
            return "Nothing to do.".to_owned();
        }
    }
    let mut parts: Vec<String> = Vec::new();
    let ghost t = totals;
    if totals.cloned > 0 {
        push_part(&mut parts, totals.cloned, "new repo", "new repos", " cloned");
    }
    proof {
        assert(strings_view(parts@) =~= part(t.cloned > 0, plural_text(t.cloned as nat, "new repo"@, "new repos"@) + " cloned"@));
    }
    let ghost p1 = strings_view(parts@);
    if totals.pulled_updated > 0 {
        push_part(&mut parts, totals.pulled_updated, "repo", "repos", " with new commits");
    }
    proof {
        assert(strings_view(parts@) =~= p1 + part(t.pulled_updated > 0, plural_text(t.pulled_updated as nat, "repo"@, "repos"@) + " with new commits"@));
    }
    let ghost p2 = strings_view(parts@);
    if totals.pulled_up_to_date > 0 {
        push_part(&mut parts, totals.pulled_up_to_date, "repo", "repos", " up to date");
    }
    proof {
        assert(strings_view(parts@) =~= p2 + part(t.pulled_up_to_date > 0, plural_text(t.pulled_up_to_date as nat, "repo"@, "repos"@) + " up to date"@));
    }
    let ghost p3 = strings_view(parts@);
    if totals.skipped > 0 {
        push_part(&mut parts, totals.skipped, "repo", "repos", " skipped");
    }
    proof {
        assert(strings_view(parts@) =~= p3 + part(t.skipped > 0, plural_text(t.skipped as nat, "repo"@, "repos"@) + " skipped"@));
    }
    let ghost p4 = strings_view(parts@);
    if totals.failed > 0 {
        push_part(&mut parts, totals.failed, "repo", "repos", " failed");
    }
    proof {
        assert(strings_view(parts@) =~= p4 + part(t.failed > 0, plural_text(t.failed as nat, "repo"@, "repos"@) + " failed"@));
        assert(strings_view(parts@) =~= summary_parts(t));
    }
    let mut out = String::new();
    out.append("Done. ");
    let joined = join_strings(&parts, ", ");
    out.append(joined.as_str());
    out.append(".");
    proof {
        assert(out@ =~= summary_text(t));
    }
    out
}

/// The detail printed before the summary at normal verbosity: the cloned
/// and the updated repositories, one per line; `None` when there are none.
pub open spec fn detail_text(t: &Totals) -> Option<Seq<char>> {
    let n = strings_view(t.new_repos@);
    let u = strings_view(t.updated_repos@);
    if n.len() == 0 && u.len() == 0 {
        None
    } else {
        let cloned = if n.len() > 0 {
            "Cloned:\n"@ + lines(n)
        } else {
            Seq::empty()
        };
        let updated = if u.len() > 0 {
            (if n.len() > 0 {
                "\n"@
            } else {
                Seq::empty()
            }) + "Updated:\n"@ + lines(u)
        } else {
            Seq::empty()
        };
        Some(trim_end(cloned + updated))
    }
}

/// The list of cloned and updated repositories, if there are any.
pub fn build_normal_detail(totals: &Totals) -> (r: Option<String>)
    ensures
        match r {
            Some(s) => detail_text(totals) == Some(s@),
            None => detail_text(totals) is None,
        },
{
    if totals.new_repos.len() == 0 && totals.updated_repos.len() == 0 {
        return None;
    }
    let mut out = String::new();
    if totals.new_repos.len() > 0 {
        out.append("Cloned:\n");
        append_lines(&mut out, &totals.new_repos);
    }
    let ghost a = out@;
    if totals.updated_repos.len() > 0 {
        if totals.new_repos.len() > 0 {
            out.append("\n");
        }
        out.append("Updated:\n");
        append_lines(&mut out, &totals.updated_repos);
    }
    proof {
        let n = strings_view(totals.new_repos@);
        let u = strings_view(totals.updated_repos@);
        let cloned = if n.len() > 0 {
            "Cloned:\n"@ + lines(n)
        } else {
            Seq::empty()
        };
        assert(a =~= cloned);
        assert(out@ =~= cloned + (if u.len() > 0 {
            (if n.len() > 0 {
                "\n"@
            } else {
                Seq::empty()
            }) + "Updated:\n"@ + lines(u)
        } else {
            Seq::empty()
        }));
    }
    Some(trim_end_string(out.as_str()))
}

// ---------------------------------------------------------------------------
// Small decisions
// ---------------------------------------------------------------------------

/// A clone is left alone when GitHub's last push is no later than the push
/// recorded at its last sync; when either is unknown it is pulled.
pub open spec fn skip_pull(repo_pushed_at: Option<Timestamp>, state_pushed_at: Option<Timestamp>) -> bool {
    match (repo_pushed_at, state_pushed_at) {
        (Some(r), Some(s)) => ts_le(r, s),
        _ => false,
    }
}

pub fn should_skip_pull(repo_pushed_at: Option<Timestamp>, state_pushed_at: Option<Timestamp>) -> (r:
    bool)
    ensures
        r == skip_pull(repo_pushed_at, state_pushed_at),
{
    match (repo_pushed_at, state_pushed_at) {
        (Some(repo), Some(state)) => repo.le(&state),
        _ => false,
    }
}

/// Whether an account's forks are synced: when the run asks for forks or
/// the account is tracked with them.
pub fn forks_included(opts: SyncOptions, account_forks: bool) -> (r: bool)
    ensures
        r == (opts.force_forks || account_forks),
{
    opts.force_forks || account_forks
}

/// Whether submodules are cloned and updated: a one-off `--submodules` flag
/// wins, then a per-account or per-pin override, then the global default.
pub fn resolve_submodules(force: bool, override_: Option<bool>, global_default: bool) -> (r: bool)
    ensures
        r == (force || match override_ {
            Some(v) => v,
            None => global_default,
        }),
{
    force || match override_ {
        Some(v) => v,
        None => global_default,
    }
}


// ---------------------------------------------------------------------------
// Repositories as GitHub lists them
// ---------------------------------------------------------------------------

/// What a sync reads of a repository that GitHub lists.
pub struct RepoInfo {
    pub id: u64,
    pub name: String,
    pub full_name: Option<String>,
    pub fork: Option<bool>,
    pub ssh_url: Option<String>,
    pub clone_url: Option<String>,
    pub pushed_at: Option<Timestamp>,
    /// The login of the owning account.
    pub owner_login: Option<String>,
}

/// The name a repository is recorded under: its full name, or its bare
/// name where GitHub gave none.
pub open spec fn repo_key(r: &RepoInfo) -> Seq<char> {
    match r.full_name {
        Some(f) => f@,
        None => r.name@,
    }
}

/// The URL a repository is cloned from.
pub open spec fn clone_url_spec(r: &RepoInfo, use_ssh: bool) -> Option<Seq<char>> {
    if use_ssh {
        opt_view(r.ssh_url)
    } else {
        opt_view(r.clone_url)
    }
}

pub fn repo_full_name(repo: &RepoInfo) -> (r: &str)
    ensures
        r@ == repo_key(repo),
{
    match &repo.full_name {
        Some(f) => f.as_str(),
        None => repo.name.as_str(),
    }
}

pub fn clone_url(repo: &RepoInfo, use_ssh: bool) -> (r: Option<String>)
    ensures
        opt_view(r) == clone_url_spec(repo, use_ssh),
{
    if use_ssh {
        match &repo.ssh_url {
            Some(u) => Some(u.clone()),
            None => None,
        }
    } else {
        match &repo.clone_url {
            Some(u) => Some(u.clone()),
            None => None,
        }
    }
}

/// The repositories of `s` without those whose id occurred earlier: each id
/// keeps its first repository.
pub open spec fn first_of_each_id(s: Seq<RepoInfo>) -> Seq<RepoInfo>
    decreases s.len(),
{
    if s.len() == 0 {
        s
    } else {
        let rest = first_of_each_id(s.drop_last());
        if s.drop_last().map_values(|r: RepoInfo| r.id).contains(s.last().id) {
            rest
        } else {
            rest.push(s.last())
        }
    }
}

/// The repositories visible to an authenticated user: the public ones first,
/// then the rest of those the token can read, each id once.
pub fn merge_repo_lists(public: Vec<RepoInfo>, accessible: Vec<RepoInfo>) -> (r: Vec<RepoInfo>)
    ensures
        r@ == first_of_each_id(public@ + accessible@),
{
    let ghost all = public@ + accessible@;
    let mut merged: Vec<RepoInfo> = Vec::new();
    let mut ids: Vec<u64> = Vec::new();
    let mut first = public;
    let mut second = accessible;
    let ghost mut done: int = 0;
    proof {
        assert(all.take(0) =~= Seq::<RepoInfo>::empty());
        assert(first@ + second@ =~= all.skip(0));
    }
    while first.len() > 0 || second.len() > 0
        invariant
            0 <= done <= all.len(),
            first@ + second@ == all.skip(done),
            merged@ == first_of_each_id(all.take(done)),
            forall|x: u64| #[trigger] ids@.contains(x) <==> all.take(done).map_values(
                |r: RepoInfo| r.id,
            ).contains(x),
        decreases all.len() - done,
    {
        let ghost f0 = first@;
        let ghost s0 = second@;
        let repo = if first.len() > 0 {
            first.remove(0)
        } else {
            second.remove(0)
        };
        proof {
            if f0.len() > 0 {
                assert((f0 + s0)[0] == f0[0]);
                assert(first@ + second@ =~= (f0 + s0).skip(1));
            } else {
                assert(f0 + s0 =~= s0);
                assert(first@ + second@ =~= (f0 + s0).skip(1));
            }
            assert((f0 + s0)[0] == all.skip(done)[0]);
            assert(repo == all[done]);
            assert(all.skip(done).skip(1) =~= all.skip(done + 1));
        }
        let mut seen = false;
        let mut j: usize = 0;
        while j < ids.len()
            invariant
                j <= ids.len(),
                seen == ids@.take(j as int).contains(repo.id),
            decreases ids.len() - j,
        {
            proof {
                assert(ids@.take(j + 1) =~= ids@.take(j as int).push(ids@[j as int]));
                crate::config::lemma_push_contains(ids@.take(j as int), ids@[j as int]);
            }
            if ids[j] == repo.id {
                seen = true;
            }
            j = j + 1;
        }
        proof {
            assert(ids@.take(j as int) =~= ids@);
            let pre = all.take(done);
            let nxt = all.take(done + 1);
            assert(nxt.drop_last() =~= pre);
            assert(nxt.last() == repo);
            assert(pre.map_values(|r: RepoInfo| r.id).push(repo.id) =~= nxt.map_values(
                |r: RepoInfo| r.id,
            ));
            crate::config::lemma_push_contains(pre.map_values(|r: RepoInfo| r.id), repo.id);
        }
        let ghost ids0 = ids@;
        let ghost merged0 = merged@;
        let rid = repo.id;
        if !seen {
            ids.push(rid);
            merged.push(repo);
            proof {
                crate::config::lemma_push_contains(ids0, rid);
                assert(ids@ =~= ids0.push(rid));
            }
        }
        proof {
            let pre = all.take(done);
            let nxt = all.take(done + 1);
            let pm = pre.map_values(|r: RepoInfo| r.id);
            let nm = nxt.map_values(|r: RepoInfo| r.id);
            assert(nm =~= pm.push(rid));
            crate::config::lemma_push_contains(pm, rid);
            assert forall|x: u64| #[trigger] ids@.contains(x) <==> nm.contains(x) by {
                if !seen {
                    assert(ids@.contains(x) <==> (ids0.contains(x) || x == rid));
                }
            }
            assert(merged@ == first_of_each_id(nxt));
            done = done + 1;
        }
    }
    proof {
        assert(all.take(done) =~= all);
    }
    merged
}

/// Whether `r` is owned by the account `username`, compared up to ASCII case.
pub open spec fn owned_by_account(r: RepoInfo, username: Seq<char>) -> bool {
    match r.owner_login {
        Some(l) => eq_ignore_case(l@, username),
        None => false,
    }
}

/// The repositories of `repos` owned by `username`, in order.
pub fn repos_owned_by(repos: Vec<RepoInfo>, username: &str) -> (r: Vec<RepoInfo>)
    ensures
        r@ == repos@.filter(|x: RepoInfo| owned_by_account(x, username@)),
{
    let ghost orig = repos@;
    let ghost pred = |x: RepoInfo| owned_by_account(x, username@);
    let mut rest = repos;
    let mut out: Vec<RepoInfo> = Vec::new();
    let ghost mut done: int = 0;
    proof {
        assert(orig.take(0).filter(pred) =~= Seq::<RepoInfo>::empty()) by {
            reveal(Seq::filter);
        }
        assert(orig.skip(0) =~= orig);
    }
    while rest.len() > 0
        invariant
            pred == (|x: RepoInfo| owned_by_account(x, username@)),
            0 <= done <= orig.len(),
            done + rest.len() == orig.len(),
            rest@ == orig.skip(done),
            out@ == orig.take(done).filter(pred),
        decreases rest.len(),
    {
        let ghost rb = rest@;
        let repo = rest.remove(0);
        proof {
            assert(rb[0] == orig.skip(done)[0]);
            assert(rest@ =~= orig.skip(done + 1));
            assert(orig.take(done + 1) =~= orig.take(done).push(repo));
            orig.take(done).lemma_filter_push(repo, pred);
        }
        let keep = match &repo.owner_login {
            Some(l) => eq_ignore_ascii_case(l.as_str(), username),
            None => false,
        };
        if keep {
            out.push(repo);
        }
        proof {
            done = done + 1;
        }
    }
    proof {
        assert(orig.take(done) =~= orig);
    }
    out
}

/// How many of `repos` are forks.
pub fn fork_count(repos: &Vec<RepoInfo>) -> (r: usize)
    ensures
        r == repos@.filter(|x: RepoInfo| x.fork == Some(true)).len(),
{
    let ghost pred = |x: RepoInfo| x.fork == Some(true);
    let mut n: usize = 0;
    let mut i: usize = 0;
    proof {
        reveal(Seq::filter);
        assert(repos@.take(0).filter(pred) =~= Seq::<RepoInfo>::empty());
    }
    while i < repos.len()
        invariant
            pred == (|x: RepoInfo| x.fork == Some(true)),
            i <= repos.len(),
            n == repos@.take(i as int).filter(pred).len(),
            n <= i,
        decreases repos.len() - i,
    {
        proof {
            assert(repos@.take(i + 1) =~= repos@.take(i as int).push(repos@[i as int]));
            repos@.take(i as int).lemma_filter_push(repos@[i as int], pred);
        }
        let is_fork = match repos[i].fork {
            Some(f) => f,
            None => false,
        };
        if is_fork {
            n = n + 1;
        }
        i = i + 1;
    }
    proof {
        assert(repos@.take(i as int) =~= repos@);
    }
    n
}


/// How many repositories a sync reports finding for an account: all of them,
/// or all but the forks where forks are left out.
pub fn visible_count(repos: &Vec<RepoInfo>, include_forks: bool) -> (r: usize)
    ensures
        r == if include_forks {
            repos.len() as int
        } else {
            repos.len() - repos@.filter(|x: RepoInfo| x.fork == Some(true)).len()
        },
{
    let forks = fork_count(repos);
    proof {
        repos@.lemma_filter_len(|x: RepoInfo| x.fork == Some(true));
    }
    if include_forks {
        repos.len()
    } else {
        repos.len() - forks
    }
}

// ---------------------------------------------------------------------------
// One repository's sync
// ---------------------------------------------------------------------------

pub ghost struct TotalsView {
    pub pulled_updated: nat,
    pub pulled_up_to_date: nat,
    pub cloned: nat,
    pub skipped: nat,
    pub excluded: nat,
    pub failed: nat,
    pub updated_repos: Seq<Seq<char>>,
    pub new_repos: Seq<Seq<char>>,
}

impl View for Totals {
    type V = TotalsView;

    open spec fn view(&self) -> TotalsView {
        TotalsView {
            pulled_updated: self.pulled_updated as nat,
            pulled_up_to_date: self.pulled_up_to_date as nat,
            cloned: self.cloned as nat,
            skipped: self.skipped as nat,
            excluded: self.excluded as nat,
            failed: self.failed as nat,
            updated_repos: strings_view(self.updated_repos@),
            new_repos: strings_view(self.new_repos@),
        }
    }
}

/// The first decision on a listed repository: whether it is skipped by the
/// user or excluded by the run's rules; otherwise the URL to sync it from.
/// Skipped and excluded repositories are counted.
pub fn triage_repo(config: &Config, repo: &RepoInfo, include_forks: bool, totals: &mut Totals) -> (r:
    Option<String>)
    requires
        old(totals).skipped < usize::MAX,
        old(totals).excluded < usize::MAX,
    ensures
        config@.skipped.contains(repo_key(repo)) ==> r is None && final(totals)@ == (TotalsView {
            skipped: old(totals)@.skipped + 1,
            ..old(totals)@
        }),
        !config@.skipped.contains(repo_key(repo)) && repo.fork == Some(true) && !include_forks
            ==> r is None && final(totals)@ == (TotalsView {
            excluded: old(totals)@.excluded + 1,
            ..old(totals)@
        }),
        !config@.skipped.contains(repo_key(repo)) && !(repo.fork == Some(true) && !include_forks)
            ==> match clone_url_spec(repo, config.use_ssh) {
            None => r is None && final(totals)@ == (TotalsView {
                excluded: old(totals)@.excluded + 1,
                ..old(totals)@
            }),
            Some(u) => opt_view(r) == Some(u) && final(totals)@ == old(totals)@,
        },
{
    if config.is_skipped(repo_full_name(repo)) {
        totals.skipped = totals.skipped + 1;
        return None;
    }
    let is_fork = match repo.fork {
        Some(f) => f,
        None => false,
    };
    if is_fork && !include_forks {
        totals.excluded = totals.excluded + 1;
        return None;
    }
    match clone_url(repo, config.use_ssh) {
        None => {
            totals.excluded = totals.excluded + 1;
            None
        },
        Some(u) => Some(u),
    }
}

/// What to do with a repository that is not skipped, given whether a clone
/// of it is already on disk.
#[derive(Clone, Copy, PartialEq, Eq, Structural, Debug)]
pub enum LocalAction {
    Excluded,
    Pull,
    Clone,
}

/// An existing clone is pulled unless the run only clones new repositories;
/// a missing one is cloned unless the run only pulls. What is left out is
/// counted as excluded.
pub fn local_action(already_cloned: bool, opts: SyncOptions, totals: &mut Totals) -> (r: LocalAction)
    requires
        old(totals).excluded < usize::MAX,
    ensures
        r == (if already_cloned && opts.new_only || !already_cloned && opts.pull_only {
            LocalAction::Excluded
        } else if already_cloned {
            LocalAction::Pull
        } else {
            LocalAction::Clone
        }),
        r == LocalAction::Excluded ==> final(totals)@ == (TotalsView {
            excluded: old(totals)@.excluded + 1,
            ..old(totals)@
        }),
        r != LocalAction::Excluded ==> final(totals)@ == old(totals)@,
{
    if already_cloned && opts.new_only {
        totals.excluded = totals.excluded + 1;
        return LocalAction::Excluded;
    }
    if !already_cloned && opts.pull_only {
        totals.excluded = totals.excluded + 1;
        return LocalAction::Excluded;
    }
    if already_cloned {
        LocalAction::Pull
    } else {
        LocalAction::Clone
    }
}

/// The push recorded for `k` at its last sync, if any.
pub open spec fn recorded_push(s: StateView, k: Seq<char>) -> Option<Timestamp> {
    if s.repos.contains_key(k) {
        s.repos[k].pushed_at
    } else {
        None
    }
}

/// Whether an existing clone must be pulled. A clone whose repository has
/// not been pushed since its last sync is counted as up to date instead.
pub fn begin_pull(state: &State, full_name: &str, pushed_at: Option<Timestamp>, totals: &mut Totals) -> (r:
    bool)
    requires
        old(totals).pulled_up_to_date < usize::MAX,
    ensures
        r == !skip_pull(pushed_at, recorded_push(state@, full_name@)),
        r ==> final(totals)@ == old(totals)@,
        !r ==> final(totals)@ == (TotalsView {
            pulled_up_to_date: old(totals)@.pulled_up_to_date + 1,
            ..old(totals)@
        }),
{
    let recorded = match state.repo(full_name) {
        Some(st) => st.pushed_at,
        None => None,
    };
    if should_skip_pull(pushed_at, recorded) {
        totals.pulled_up_to_date = totals.pulled_up_to_date + 1;
        false
    } else {
        true
    }
}

/// What a `git pull` came to.
#[derive(Clone, Copy, PartialEq, Eq, Structural, Debug)]
pub enum PullOutcome {
    /// It succeeded and moved `HEAD`.
    Updated,
    /// It succeeded and left `HEAD` where it was.
    UpToDate,
    /// It failed with git's fatal exit code 128: the clone no longer matches
    /// the repository and is cloned again.
    Fatal,
    /// It failed otherwise.
    Failed,
}

pub open spec fn same_head(a: Option<String>, b: Option<String>) -> bool {
    opt_view(a) == opt_view(b)
}

/// Classifies `git pull` by its exit code and `HEAD` before and after it.
pub fn classify_pull(exit_code: i32, head_before: &Option<String>, head_after: &Option<String>) -> (r:
    PullOutcome)
    ensures
        r == (if exit_code == 0 {
            if same_head(*head_before, *head_after) {
                PullOutcome::UpToDate
            } else {
                PullOutcome::Updated
            }
        } else if exit_code == 128 {
            PullOutcome::Fatal
        } else {
            PullOutcome::Failed
        }),
{
    if exit_code == 0 {
        let same = match (head_before, head_after) {
            (Some(a), Some(b)) => crate::config::str_eq(a.as_str(), b.as_str()),
            (None, None) => true,
            _ => false,
        };
        if same {
            PullOutcome::UpToDate
        } else {
            PullOutcome::Updated
        }
    } else if exit_code == 128 {
        PullOutcome::Fatal
    } else {
        PullOutcome::Failed
    }
}

/// What follows a pull.
#[derive(Clone, Copy, PartialEq, Eq, Structural, Debug)]
pub enum PullFollowUp {
    Done,
    /// Update the clone's submodules.
    UpdateSubmodules,
    /// Delete the clone and clone the repository again.
    Reclone,
}

/// `s1` is `s0` with `k` recorded as synced at `now`, with `pushed_at` as
/// its push.
pub open spec fn marked_synced(
    s0: StateView,
    s1: StateView,
    k: Seq<char>,
    pushed_at: Option<Timestamp>,
    now: Timestamp,
) -> bool {
    &&& s1.repos == s0.repos.insert(k, RepoState { last_synced_at: now, pushed_at })
    &&& s1.skipped == s0.skipped
}

/// `"{owner}/{name}"`.
pub fn repo_label(owner: &str, name: &str) -> (r: String)
    ensures
        r@ == owner@ + "/"@ + name@,
{
    let mut s = String::new();
    s.append(owner);
    s.append("/");
    s.append(name);
    assert(s@ =~= owner@ + "/"@ + name@);
    s
}

/// Records a pull: a successful one marks the repository synced at `now` and is
/// counted (and, at normal verbosity, listed when it brought commits); an
/// ordinary failure is counted as failed; a fatal one asks for a new clone.
pub fn record_pull(
    outcome: PullOutcome,
    use_submodules: bool,
    verbosity: Verbosity,
    label: &str,
    full_name: &str,
    pushed_at: Option<Timestamp>,
    now: Timestamp,
    state: &mut State,
    totals: &mut Totals,
) -> (r: PullFollowUp)
    requires
        old(totals).pulled_updated < usize::MAX,
        old(totals).pulled_up_to_date < usize::MAX,
        old(totals).failed < usize::MAX,
    ensures
        old(state).well_formed() ==> final(state).well_formed(),
        match outcome {
            PullOutcome::Updated => {
                &&& marked_synced(old(state)@, final(state)@, full_name@, pushed_at, now)
                &&& final(totals)@ == (TotalsView {
                    pulled_updated: old(totals)@.pulled_updated + 1,
                    updated_repos: if verbosity == Verbosity::Normal {
                        old(totals)@.updated_repos.push(label@)
                    } else {
                        old(totals)@.updated_repos
                    },
                    ..old(totals)@
                })
                &&& r == if use_submodules {
                    PullFollowUp::UpdateSubmodules
                } else {
                    PullFollowUp::Done
                }
            },
            PullOutcome::UpToDate => {
                &&& marked_synced(old(state)@, final(state)@, full_name@, pushed_at, now)
                &&& final(totals)@ == (TotalsView {
                    pulled_up_to_date: old(totals)@.pulled_up_to_date + 1,
                    ..old(totals)@
                })
                &&& r == PullFollowUp::Done
            },
            PullOutcome::Fatal => {
                &&& final(state)@ == old(state)@
                &&& final(totals)@ == old(totals)@
                &&& r == PullFollowUp::Reclone
            },
            PullOutcome::Failed => {
                &&& final(state)@ == old(state)@
                &&& final(totals)@ == (TotalsView { failed: old(totals)@.failed + 1, ..old(totals)@ })
                &&& r == PullFollowUp::Done
            },
        },
{
    match outcome {
        PullOutcome::Updated => {
            state.mark_synced(full_name, pushed_at, now);
            if verbosity == Verbosity::Normal {
                let ghost before = strings_view(totals.updated_repos@);
                totals.updated_repos.push(label.to_owned());
                proof {
                    assert(strings_view(totals.updated_repos@) =~= before.push(label@));
                }
            }
            totals.pulled_updated = totals.pulled_updated + 1;
            if use_submodules {
                PullFollowUp::UpdateSubmodules
            } else {
                PullFollowUp::Done
            }
        },
        PullOutcome::UpToDate => {
            state.mark_synced(full_name, pushed_at, now);
            totals.pulled_up_to_date = totals.pulled_up_to_date + 1;
            PullFollowUp::Done
        },
        PullOutcome::Fatal => PullFollowUp::Reclone,
        PullOutcome::Failed => {
            totals.failed = totals.failed + 1;
            PullFollowUp::Done
        },
    }
}

/// Records a clone. A successful one marks the repository synced at `now` and is
/// counted (and listed at normal verbosity); the result says whether its
/// submodules are to be fetched. A failed one is counted as failed.
pub fn record_clone(
    ok: bool,
    use_submodules: bool,
    verbosity: Verbosity,
    label: &str,
    full_name: &str,
    pushed_at: Option<Timestamp>,
    now: Timestamp,
    state: &mut State,
    totals: &mut Totals,
) -> (r: bool)
    requires
        old(totals).cloned < usize::MAX,
        old(totals).failed < usize::MAX,
    ensures
        old(state).well_formed() ==> final(state).well_formed(),
        ok ==> marked_synced(old(state)@, final(state)@, full_name@, pushed_at, now) && final(totals)@
            == (TotalsView {
            cloned: old(totals)@.cloned + 1,
            new_repos: if verbosity == Verbosity::Normal {
                old(totals)@.new_repos.push(label@)
            } else {
                old(totals)@.new_repos
            },
            ..old(totals)@
        }) && r == use_submodules,
        !ok ==> final(state)@ == old(state)@ && final(totals)@ == (TotalsView {
            failed: old(totals)@.failed + 1,
            ..old(totals)@
        }) && !r,
        counted(final(totals)@) == counted(old(totals)@) + 1,
{
    if ok {
        state.mark_synced(full_name, pushed_at, now);
        if verbosity == Verbosity::Normal {
            let ghost before = strings_view(totals.new_repos@);
            totals.new_repos.push(label.to_owned());
            proof {
                assert(strings_view(totals.new_repos@) =~= before.push(label@));
            }
        }
        totals.cloned = totals.cloned + 1;
        use_submodules
    } else {
        totals.failed = totals.failed + 1;
        false
    }
}

/// Counts `n` repositories as failed.
pub fn record_failures(totals: &mut Totals, n: usize)
    requires
        old(totals).failed + n <= usize::MAX,
    ensures
        final(totals)@ == (TotalsView { failed: old(totals)@.failed + n as nat, ..old(totals)@ }),
{
    totals.failed = totals.failed + n;
}

/// The repositories a run has counted, under any heading.
pub open spec fn counted(t: TotalsView) -> nat {
    t.pulled_updated + t.pulled_up_to_date + t.cloned + t.skipped + t.excluded + t.failed
}

/// Counts every repository of a list as failed, as when the directory they
/// go into cannot be made.
pub fn record_list_failure(totals: &mut Totals, repos: &Vec<RepoInfo>)
    requires
        old(totals).failed + repos.len() <= usize::MAX,
    ensures
        final(totals)@ == (TotalsView {
            failed: old(totals)@.failed + repos.len() as nat,
            ..old(totals)@
        }),
        counted(final(totals)@) == counted(old(totals)@) + repos.len(),
{
    record_failures(totals, repos.len());
}

/// Counts an account or pinned repository whose repositories could not be
/// fetched as one failure.
pub fn record_unreachable(totals: &mut Totals)
    requires
        old(totals).failed < usize::MAX,
    ensures
        final(totals)@ == (TotalsView { failed: old(totals)@.failed + 1, ..old(totals)@ }),
        counted(final(totals)@) == counted(old(totals)@) + 1,
{
    record_failures(totals, 1);
}

/// The id to look an account or repository up by, after the lookup by name:
/// the stored id, where the lookup by name found nothing (it may have been
/// renamed).
pub fn id_to_retry(found_by_name: bool, stored_id: Option<u64>) -> (r: Option<u64>)
    ensures
        r == (if found_by_name {
            None
        } else {
            stored_id
        }),
{
    if found_by_name {
        None
    } else {
        stored_id
    }
}

/// How the sync of one repository goes on after its first checks.
pub enum RepoStart {
    /// It was skipped, excluded, or found up to date, and counted.
    Done,
    /// Its clone is pulled, from this URL.
    Pull { url: String },
    /// It is cloned from this URL.
    Clone { url: String },
}

/// What the first checks add to the counters.
pub open spec fn start_count(r: RepoStart) -> nat {
    if r is Done {
        1
    } else {
        0
    }
}

/// The first checks of one repository: skipped by the user, excluded by the
/// run's rules (forks, no URL, pull-only and new-only), or, for an existing
/// clone, up to date since its last sync. Each of these is counted and ends
/// its sync; otherwise the repository is pulled or cloned from its URL.
pub fn start_repo(
    config: &Config,
    state: &State,
    repo: &RepoInfo,
    include_forks: bool,
    already_cloned: bool,
    opts: SyncOptions,
    totals: &mut Totals,
) -> (r: RepoStart)
    requires
        old(totals).skipped < usize::MAX,
        old(totals).excluded < usize::MAX,
        old(totals).pulled_up_to_date < usize::MAX,
    ensures
        counted(final(totals)@) == counted(old(totals)@) + start_count(r),
        config@.skipped.contains(repo_key(repo)) ==> r is Done && final(totals)@ == (TotalsView {
            skipped: old(totals)@.skipped + 1,
            ..old(totals)@
        }),
        !config@.skipped.contains(repo_key(repo)) && (repo.fork == Some(true) && !include_forks
            || clone_url_spec(repo, config.use_ssh) is None) ==> r is Done && final(totals)@ == (
        TotalsView { excluded: old(totals)@.excluded + 1, ..old(totals)@ }),
        !config@.skipped.contains(repo_key(repo)) && !(repo.fork == Some(true) && !include_forks)
            && clone_url_spec(repo, config.use_ssh) is Some ==> {
            let url = clone_url_spec(repo, config.use_ssh).unwrap();
            if already_cloned && opts.new_only || !already_cloned && opts.pull_only {
                r is Done && final(totals)@ == (TotalsView {
                    excluded: old(totals)@.excluded + 1,
                    ..old(totals)@
                })
            } else if already_cloned {
                if skip_pull(repo.pushed_at, recorded_push(state@, repo_key(repo))) {
                    r is Done && final(totals)@ == (TotalsView {
                        pulled_up_to_date: old(totals)@.pulled_up_to_date + 1,
                        ..old(totals)@
                    })
                } else {
                    r matches RepoStart::Pull { url: u } && u@ == url && final(totals)@ == old(
                        totals,
                    )@
                }
            } else {
                r matches RepoStart::Clone { url: u } && u@ == url && final(totals)@ == old(totals)@
            }
        },
{
    let url = match triage_repo(config, repo, include_forks, totals) {
        None => return RepoStart::Done,
        Some(u) => u,
    };
    match local_action(already_cloned, opts, totals) {
        LocalAction::Excluded => RepoStart::Done,
        LocalAction::Clone => RepoStart::Clone { url },
        LocalAction::Pull => {
            if begin_pull(state, repo_full_name(repo), repo.pushed_at, totals) {
                RepoStart::Pull { url }
            } else {
                RepoStart::Done
            }
        },
    }
}

/// What a pull step adds to the counters: one, unless a new clone follows.
pub open spec fn pull_count(r: PullFollowUp) -> nat {
    if r == PullFollowUp::Reclone {
        0
    } else {
        1
    }
}

/// Records a pull, where `outcome` is `None` when git could not be run (a
/// failure); otherwise as `record_pull`.
pub fn finish_pull(
    outcome: Option<PullOutcome>,
    use_submodules: bool,
    verbosity: Verbosity,
    label: &str,
    full_name: &str,
    pushed_at: Option<Timestamp>,
    now: Timestamp,
    state: &mut State,
    totals: &mut Totals,
) -> (r: PullFollowUp)
    requires
        old(totals).pulled_updated < usize::MAX,
        old(totals).pulled_up_to_date < usize::MAX,
        old(totals).failed < usize::MAX,
    ensures
        old(state).well_formed() ==> final(state).well_formed(),
        counted(final(totals)@) == counted(old(totals)@) + pull_count(r),
        outcome is None ==> r == PullFollowUp::Done && final(state)@ == old(state)@
            && final(totals)@ == (TotalsView { failed: old(totals)@.failed + 1, ..old(totals)@ }),
        outcome matches Some(o) ==> match o {
            PullOutcome::Updated => {
                &&& marked_synced(old(state)@, final(state)@, full_name@, pushed_at, now)
                &&& final(totals)@ == (TotalsView {
                    pulled_updated: old(totals)@.pulled_updated + 1,
                    updated_repos: if verbosity == Verbosity::Normal {
                        old(totals)@.updated_repos.push(label@)
                    } else {
                        old(totals)@.updated_repos
                    },
                    ..old(totals)@
                })
                &&& r == if use_submodules {
                    PullFollowUp::UpdateSubmodules
                } else {
                    PullFollowUp::Done
                }
            },
            PullOutcome::UpToDate => {
                &&& marked_synced(old(state)@, final(state)@, full_name@, pushed_at, now)
                &&& final(totals)@ == (TotalsView {
                    pulled_up_to_date: old(totals)@.pulled_up_to_date + 1,
                    ..old(totals)@
                })
                &&& r == PullFollowUp::Done
            },
            PullOutcome::Fatal => {
                &&& final(state)@ == old(state)@
                &&& final(totals)@ == old(totals)@
                &&& r == PullFollowUp::Reclone
            },
            PullOutcome::Failed => {
                &&& final(state)@ == old(state)@
                &&& final(totals)@ == (TotalsView { failed: old(totals)@.failed + 1, ..old(totals)@ })
                &&& r == PullFollowUp::Done
            },
        },
{
    match outcome {
        None => {
            record_failures(totals, 1);
            PullFollowUp::Done
        },
        Some(o) => record_pull(o, use_submodules, verbosity, label, full_name, pushed_at, now, state, totals),
    }
}

/// What removing a clone before cloning it again adds to the counters: a
/// failed removal is counted as failed and ends the repository's sync.
pub open spec fn removal_count(removed: bool) -> nat {
    if removed {
        0
    } else {
        1
    }
}

/// After a fatal pull the clone is removed; the result says whether to clone
/// again. A failed removal counts the repository as failed.
pub fn after_removal(removed: bool, totals: &mut Totals) -> (r: bool)
    requires
        old(totals).failed < usize::MAX,
    ensures
        r == removed,
        removed ==> final(totals)@ == old(totals)@,
        !removed ==> final(totals)@ == (TotalsView { failed: old(totals)@.failed + 1, ..old(totals)@ }),
        counted(final(totals)@) == counted(old(totals)@) + removal_count(removed),
{
    if !removed {
        record_failures(totals, 1);
    }
    removed
}


// ---------------------------------------------------------------------------
// Accounts and pinned repositories as GitHub resolves them
// ---------------------------------------------------------------------------

/// What GitHub says of an account.
pub struct AccountInfo {
    pub login: String,
    pub id: u64,
    /// `"User"` or `"Organization"`.
    pub account_type: String,
}

/// The outcome of resolving a tracked account.
pub struct AccountUpdate {
    /// The account's current login, or the tracked name where GitHub did
    /// not resolve it.
    pub canonical: String,
    pub is_org: bool,
    pub config_changed: bool,
    /// The tracked name the account was renamed from, if it was.
    pub renamed_from: Option<String>,
}

pub open spec fn canonical_name(user: Seq<char>, account: Option<AccountInfo>) -> Seq<char> {
    match account {
        Some(a) => a.login@,
        None => user,
    }
}

/// A tracked entry after resolving its account: the current login as its
/// name, and the account's stable id where GitHub gave one.
pub open spec fn resolved_entry(
    e: TrackedUserView,
    canonical: Seq<char>,
    account: Option<AccountInfo>,
) -> TrackedUserView {
    TrackedUserView {
        name: canonical,
        id: match account {
            Some(a) => Some(a.id),
            None => e.id,
        },
        ..e
    }
}

pub open spec fn resolution_changes(
    e: TrackedUserView,
    canonical: Seq<char>,
    account: Option<AccountInfo>,
) -> bool {
    ||| (account is Some && e.id != Some(account.unwrap().id))
    ||| e.name != canonical
}

/// Applies what GitHub said of the tracked account `user` (looked up by the
/// name it is tracked under, up to ASCII case) to the configuration: its
/// stable id, and its current login where it was renamed.
pub fn apply_account(config: &mut Config, user: &str, account: &Option<AccountInfo>) -> (r:
    AccountUpdate)
    ensures
        old(config).well_formed() ==> final(config).well_formed(),
        r.canonical@ == canonical_name(user@, *account),
        r.is_org == (account matches Some(a) && a.account_type@ == "Organization"@),
        match find_user(old(config)@.track, user@) {
            Some(i) => {
                let e = old(config)@.track[i];
                let canonical = canonical_name(user@, *account);
                &&& r.config_changed == resolution_changes(e, canonical, *account)
                &&& final(config)@ == (ConfigView {
                    track: old(config)@.track.update(i, resolved_entry(e, canonical, *account)),
                    ..old(config)@
                })
                &&& opt_view(r.renamed_from) == if e.name != canonical {
                    Some(e.name)
                } else {
                    None
                }
            },
            None => !r.config_changed && final(config)@ == old(config)@ && r.renamed_from is None,
        },
{
    let canonical: String = match account {
        Some(a) => a.login.clone(),
        None => user.to_owned(),
    };
    let is_org = match account {
        Some(a) => crate::config::str_eq(a.account_type.as_str(), "Organization"),
        None => false,
    };
    match config.find_user_index(user) {
        Some(i) => {
            let ghost t = config@.track;
            let old_id = config.track[i].id;
            let new_id = match account {
                Some(a) => Some(a.id),
                None => old_id,
            };
            let id_changed = match (account, old_id) {
                (Some(a), Some(o)) => a.id != o,
                (Some(_), None) => true,
                (None, _) => false,
            };
            let name_changed = !crate::config::str_eq(config.track[i].name.as_str(), canonical.as_str());
            let renamed_from = if name_changed {
                Some(config.track[i].name.clone())
            } else {
                None
            };
            let entry = TrackedUser {
                name: canonical.clone(),
                forks: config.track[i].forks,
                frozen: config.track[i].frozen,
                id: new_id,
                submodules: config.track[i].submodules,
            };
            config.track.set(i, entry);
            proof {
                assert(users_view(config.track@) =~= t.update(
                    i as int,
                    resolved_entry(t[i as int], canonical@, *account),
                ));
            }
            AccountUpdate {
                canonical,
                is_org,
                config_changed: id_changed || name_changed,
                renamed_from,
            }
        },
        None => AccountUpdate { canonical, is_org, config_changed: false, renamed_from: None },
    }
}

/// Which listing of repositories a tracked account is synced from.
#[derive(Clone, Copy, PartialEq, Eq, Structural, Debug)]
pub enum FetchKind {
    /// The organization's repositories (needs a token).
    OrgRepos,
    /// The account's public repositories.
    PublicRepos,
    /// The public repositories and those of the account that the token can
    /// read.
    PublicAndOwned,
}

pub fn fetch_kind(is_org: bool, has_token: bool) -> (r: FetchKind)
    ensures
        r == (if !has_token {
            FetchKind::PublicRepos
        } else if is_org {
            FetchKind::OrgRepos
        } else {
            FetchKind::PublicAndOwned
        }),
{
    if is_org {
        if has_token {
            FetchKind::OrgRepos
        } else {
            FetchKind::PublicRepos
        }
    } else if has_token {
        FetchKind::PublicAndOwned
    } else {
        FetchKind::PublicRepos
    }
}

/// The outcome of resolving a pinned repository.
pub struct PinnedUpdate {
    pub config_changed: bool,
    /// The repository's current `owner/name`.
    pub full_name: String,
    /// Whether the pin was renamed to `full_name`.
    pub renamed: bool,
    /// The current owner and name, where `full_name` splits.
    pub parts: Option<(String, String)>,
    /// The owner whose directory the repository lives under.
    pub owner: String,
}

pub open spec fn pinned_current_name(repo: &RepoInfo, full_name: Seq<char>) -> Seq<char> {
    match repo.full_name {
        Some(f) => f@,
        None => full_name,
    }
}

/// The configuration after resolving the pin `full_name` to `repo`.
pub open spec fn pinned_resolved(
    c: ConfigView,
    full_name: Seq<char>,
    stored_id: Option<u64>,
    repo: &RepoInfo,
) -> ConfigView {
    let current = pinned_current_name(repo, full_name);
    let c1 = if current != full_name {
        rename_pin_spec(c, full_name, current)
    } else {
        c
    };
    if stored_id != Some(repo.id) {
        set_pin_id_spec(c1, current, repo.id)
    } else {
        c1
    }
}

/// Applies what GitHub said of the pinned repository `full_name` (owned by
/// `user`) to the configuration: its current name and its stable id.
pub fn apply_pinned_repo(
    config: &mut Config,
    full_name: &str,
    user: &str,
    stored_id: Option<u64>,
    repo: &RepoInfo,
) -> (r: PinnedUpdate)
    ensures
        old(config).well_formed() ==> final(config).well_formed(),
        r.full_name@ == pinned_current_name(repo, full_name@),
        r.renamed == (r.full_name@ != full_name@),
        final(config)@ == pinned_resolved(old(config)@, full_name@, stored_id, repo),
        r.config_changed == (r.renamed || (stored_id != Some(repo.id) && is_pinned_spec(
            if r.renamed {
                rename_pin_spec(old(config)@, full_name@, r.full_name@)
            } else {
                old(config)@
            },
            r.full_name@,
        ))),
        match split_first(r.full_name@, '/') {
            Some((o, n)) => r.parts matches Some(p) && p.0@ == o && p.1@ == n && r.owner@ == o,
            None => r.parts is None && r.owner@ == user@,
        },
{
    let current: String = match &repo.full_name {
        Some(f) => f.clone(),
        None => full_name.to_owned(),
    };
    let mut changed = false;
    let renamed = !crate::config::str_eq(current.as_str(), full_name);
    if renamed {
        config.rename_pin(full_name, current.as_str());
        changed = true;
    }
    let id_differs = match stored_id {
        Some(s) => s != repo.id,
        None => true,
    };
    if id_differs {
        if config.set_pin_id(current.as_str(), repo.id) {
            changed = true;
        }
    }
    let (parts, owner) = match split_once_char(current.as_str(), '/') {
        Some((o, n)) => (Some((o.to_owned(), n.to_owned())), o.to_owned()),
        None => (None, user.to_owned()),
    };
    PinnedUpdate { config_changed: changed, full_name: current, renamed, parts, owner }
}

// ---------------------------------------------------------------------------
// What a run syncs
// ---------------------------------------------------------------------------

/// The configuration after tracking each of `users` in turn (without forks,
/// not frozen, no submodules override).
pub open spec fn add_users_seq(c: ConfigView, users: Seq<Seq<char>>) -> ConfigView
    decreases users.len(),
{
    if users.len() == 0 {
        c
    } else {
        add_user_spec(add_users_seq(c, users.drop_last()), users.last(), false, false, None)
    }
}

/// Whether tracking each of `users` in turn changes the configuration.
pub open spec fn add_users_changed(c: ConfigView, users: Seq<Seq<char>>) -> bool
    decreases users.len(),
{
    if users.len() == 0 {
        false
    } else {
        add_users_changed(c, users.drop_last()) || add_user_changes(
            add_users_seq(c, users.drop_last()).track,
            users.last(),
            false,
            false,
            None,
        )
    }
}

/// How a bulk sync starts.
pub enum SyncStart {
    /// Nothing is tracked or pinned.
    NothingToSync,
    /// Every tracked account is frozen and nothing is pinned.
    AllFrozen,
    /// Sync these accounts, then these pinned repositories.
    Run { users: Vec<TrackedUser>, pinned: Vec<String> },
}

pub open spec fn not_frozen(u: TrackedUserView) -> bool {
    !u.frozen
}

/// The accounts a bulk sync takes from the tracked ones, in order.
pub open spec fn bulk_users(track: Seq<TrackedUserView>) -> Seq<TrackedUserView> {
    track.filter(|u: TrackedUserView| not_frozen(u))
}

/// A pinned repository is synced on its own when its owner is not among the
/// accounts being synced.
pub open spec fn pin_needs_own_sync(users: Seq<TrackedUserView>, full_name: Seq<char>) -> bool {
    match split_first(full_name, '/') {
        Some((owner, _)) => !exists|j: int|
            0 <= j < users.len() && eq_ignore_case(#[trigger] users[j].name, owner),
        None => false,
    }
}

/// A bulk sync takes exactly the tracked accounts that are not frozen: each
/// account it takes is not frozen, each account not frozen is taken, and
/// where every account is frozen it takes none.
pub proof fn law_bulk_sync_leaves_out_frozen(track: Seq<TrackedUserView>)
    ensures
        forall|x: TrackedUserView| #[trigger]
            bulk_users(track).contains(x) <==> (track.contains(x) && !x.frozen),
        (forall|i: int| 0 <= i < track.len() ==> (#[trigger] track[i]).frozen) ==> bulk_users(
            track,
        ).len() == 0,
{
    let f = |u: TrackedUserView| not_frozen(u);
    let r = bulk_users(track);
    assert(r == track.filter(f));
    assert forall|x: TrackedUserView| #[trigger] r.contains(x) <==> (track.contains(x) && !x.frozen) by {
        if r.contains(x) {
            let k = choose|k: int| 0 <= k < r.len() && r[k] == x;
            track.lemma_filter_pred(f, k);
            track.lemma_filter_contains_rev(f, x);
        }
        if track.contains(x) && !x.frozen {
            let k = choose|k: int| 0 <= k < track.len() && track[k] == x;
            track.lemma_filter_contains(f, k);
        }
    }
    if (forall|i: int| 0 <= i < track.len() ==> (#[trigger] track[i]).frozen) && r.len() > 0 {
        assert(r.contains(r[0]));
        track.lemma_filter_contains_rev(f, r[0]);
        track.lemma_filter_pred(f, 0);
        let k = choose|k: int| 0 <= k < track.len() && track[k] == r[0];
        assert(track[k].frozen);
    }
}

/// Whether any of `users` has a name matching `name` up to ASCII case.
fn any_user_named(users: &Vec<TrackedUser>, name: &str) -> (r: bool)
    ensures
        r == exists|j: int|
            0 <= j < users@.len() && eq_ignore_case(#[trigger] users_view(users@)[j].name, name@),
{
    let mut i: usize = 0;
    while i < users.len()
        invariant
            i <= users.len(),
            forall|j: int|
                0 <= j < i ==> !eq_ignore_case(#[trigger] users_view(users@)[j].name, name@),
        decreases users.len() - i,
    {
        if eq_ignore_ascii_case(users[i].name.as_str(), name) {
            proof {
                assert(eq_ignore_case(users_view(users@)[i as int].name, name@));
            }
            return true;
        }
        i = i + 1;
    }
    false
}

/// What a bulk sync starts from.
pub struct SyncPlan {
    /// Whether tracking the extra accounts changed the configuration (which
    /// must then be saved).
    pub changed: bool,
    /// What tracking each extra account reported.
    pub notes: Vec<Vec<UserNote>>,
    pub start: SyncStart,
}

/// Tracks the extra accounts named on the command line, then decides what a
/// bulk sync covers: every account that is not frozen, and the pinned
/// repositories whose owner is not among them.
pub fn plan_sync(config: &mut Config, extra_users: &Vec<String>) -> (r: SyncPlan)
    ensures
        old(config).well_formed() ==> final(config).well_formed(),
        final(config)@ == add_users_seq(old(config)@, strings_view(extra_users@)),
        r.changed == add_users_changed(old(config)@, strings_view(extra_users@)),
        r.notes.len() == extra_users.len(),
        forall|j: int|
            0 <= j < extra_users.len() ==> (#[trigger] r.notes@[j])@ == add_user_notes(
                add_users_seq(old(config)@, strings_view(extra_users@).take(j)).track,
                strings_view(extra_users@)[j],
                false,
                false,
                None,
            ),
        ({
            let c = final(config)@;
            let users = bulk_users(c.track);
            match r.start {
                SyncStart::NothingToSync => c.track.len() == 0 && c.pinned.len() == 0,
                SyncStart::AllFrozen => !(c.track.len() == 0 && c.pinned.len() == 0) && users.len()
                    == 0 && c.pinned.len() == 0,
                SyncStart::Run { users: us, pinned: ps } => {
                    &&& !(c.track.len() == 0 && c.pinned.len() == 0)
                    &&& !(users.len() == 0 && c.pinned.len() == 0)
                    &&& users_view(us@) == users
                    &&& strings_view(ps@) == pin_names(c.pinned).filter(
                        |n: Seq<char>| pin_needs_own_sync(users, n),
                    )
                    &&& forall|i: int| 0 <= i < us.len() ==> !(#[trigger] us@[i]).frozen
                    &&& forall|i: int|
                        0 <= i < c.track.len() && !(#[trigger] c.track[i]).frozen ==> users_view(
                            us@,
                        ).contains(c.track[i])
                },
            }
        }),
        ({
            let c = final(config)@;
            c.track.len() > 0 && c.pinned.len() == 0 && (forall|i: int|
                0 <= i < c.track.len() ==> (#[trigger] c.track[i]).frozen) ==> r.start is AllFrozen
        }),
{
    let ghost extra = strings_view(extra_users@);
    let mut updated = false;
    let mut notes: Vec<Vec<UserNote>> = Vec::new();
    let mut i: usize = 0;
    while i < extra_users.len()
        invariant
            old(config).well_formed() ==> config.well_formed(),
            extra == strings_view(extra_users@),
            i <= extra_users.len(),
            config@ == add_users_seq(old(config)@, extra.take(i as int)),
            updated == add_users_changed(old(config)@, extra.take(i as int)),
            notes.len() == i,
            forall|j: int|
                0 <= j < i ==> (#[trigger] notes@[j])@ == add_user_notes(
                    add_users_seq(old(config)@, extra.take(j)).track,
                    extra[j],
                    false,
                    false,
                    None,
                ),
        decreases extra_users.len() - i,
    {
        proof {
            assert(extra.take(i + 1).drop_last() =~= extra.take(i as int));
        }
        let (added, n) = config.add_user_noted(extra_users[i].as_str(), false, false, None);
        if added {
            updated = true;
        }
        let ghost before = notes@;
        notes.push(n);
        proof {
            assert forall|j: int| 0 <= j < i + 1 implies (#[trigger] notes@[j])@ == add_user_notes(
                add_users_seq(old(config)@, extra.take(j)).track,
                extra[j],
                false,
                false,
                None,
            ) by {
                if j < i {
                    assert(notes@[j] == before[j]);
                }
            }
        }
        i = i + 1;
    }
    proof {
        assert(extra.take(i as int) =~= extra);
    }
    if config.track.len() == 0 && config.pinned.len() == 0 {
        return SyncPlan { changed: updated, notes, start: SyncStart::NothingToSync };
    }
    let ghost c = config@;
    let ghost nf = |u: TrackedUserView| not_frozen(u);
    let mut users: Vec<TrackedUser> = Vec::new();
    let mut j: usize = 0;
    while j < config.track.len()
        invariant
            c == config@,
            nf == (|u: TrackedUserView| not_frozen(u)),
            j <= config.track.len(),
            users_view(users@) == c.track.take(j as int).filter(nf),
        decreases config.track.len() - j,
    {
        proof {
            assert(c.track.take(j + 1) =~= c.track.take(j as int).push(c.track[j as int]));
            c.track.take(j as int).lemma_filter_push(c.track[j as int], nf);
        }
        if !config.track[j].frozen {
            let ghost before = users_view(users@);
            users.push(config.track[j].clone());
            proof {
                assert(users_view(users@) =~= before.push(c.track[j as int]));
            }
        }
        j = j + 1;
    }
    proof {
        assert(c.track.take(j as int) =~= c.track);
    }
    proof {
        law_bulk_sync_leaves_out_frozen(c.track);
    }
    if users.len() == 0 && config.pinned.len() == 0 {
        return SyncPlan { changed: updated, notes, start: SyncStart::AllFrozen };
    }
    let ghost uv = users_view(users@);
    let ghost own = |n: Seq<char>| pin_needs_own_sync(uv, n);
    let mut pinned: Vec<String> = Vec::new();
    let mut k: usize = 0;
    while k < config.pinned.len()
        invariant
            c == config@,
            uv == users_view(users@),
            own == (|n: Seq<char>| pin_needs_own_sync(uv, n)),
            k <= config.pinned.len(),
            strings_view(pinned@) == pin_names(c.pinned).take(k as int).filter(own),
        decreases config.pinned.len() - k,
    {
        let ghost names = pin_names(c.pinned);
        proof {
            assert(names.take(k + 1) =~= names.take(k as int).push(names[k as int]));
            names.take(k as int).lemma_filter_push(names[k as int], own);
        }
        let name = config.pinned[k].full_name.as_str();
        let needed = match split_once_char(name, '/') {
            Some((owner, _)) => !any_user_named(&users, owner),
            None => false,
        };
        if needed {
            let ghost before = strings_view(pinned@);
            pinned.push(config.pinned[k].full_name.clone());
            proof {
                assert(strings_view(pinned@) =~= before.push(names[k as int]));
            }
        }
        k = k + 1;
    }
    proof {
        assert(pin_names(c.pinned).take(k as int) =~= pin_names(c.pinned));
    }
    proof {
        law_bulk_sync_leaves_out_frozen(c.track);
        assert forall|i: int| 0 <= i < users.len() implies !(#[trigger] users@[i]).frozen by {
            assert(uv[i] == users@[i]@);
            assert(uv.contains(uv[i]));
        }
    }
    SyncPlan { changed: updated, notes, start: SyncStart::Run { users, pinned } }
}

pub open spec fn named_in(targets: Seq<Seq<char>>, name: Seq<char>) -> bool {
    exists|j: int| 0 <= j < targets.len() && eq_ignore_case(#[trigger] targets[j], name)
}

/// The tracked accounts named (up to ASCII case) among `targets`, in
/// tracking order.
pub fn select_users(config: &Config, targets: &Vec<String>) -> (r: Vec<TrackedUser>)
    ensures
        users_view(r@) == config@.track.filter(
            |u: TrackedUserView| named_in(strings_view(targets@), u.name),
        ),
{
    let ghost tv = strings_view(targets@);
    let ghost sel = |u: TrackedUserView| named_in(tv, u.name);
    let ghost c = config@;
    let mut out: Vec<TrackedUser> = Vec::new();
    let mut i: usize = 0;
    while i < config.track.len()
        invariant
            c == config@,
            tv == strings_view(targets@),
            sel == (|u: TrackedUserView| named_in(tv, u.name)),
            i <= config.track.len(),
            users_view(out@) == c.track.take(i as int).filter(sel),
        decreases config.track.len() - i,
    {
        proof {
            assert(c.track.take(i + 1) =~= c.track.take(i as int).push(c.track[i as int]));
            c.track.take(i as int).lemma_filter_push(c.track[i as int], sel);
        }
        let mut hit = false;
        let mut j: usize = 0;
        while j < targets.len()
            invariant
                c == config@,
                tv == strings_view(targets@),
                i < config.track.len(),
                j <= targets.len(),
                hit == exists|m: int| 0 <= m < j && eq_ignore_case(#[trigger] tv[m], c.track[i as int].name),
            decreases targets.len() - j,
        {
            if eq_ignore_ascii_case(targets[j].as_str(), config.track[i].name.as_str()) {
                hit = true;
            }
            proof {
                if hit && !eq_ignore_case(tv[j as int], c.track[i as int].name) {
                    let m = choose|m: int| 0 <= m < j && eq_ignore_case(#[trigger] tv[m], c.track[i as int].name);
                    assert(0 <= m < j + 1);
                }
            }
            j = j + 1;
        }
        if hit {
            let ghost before = users_view(out@);
            out.push(config.track[i].clone());
            proof {
                assert(users_view(out@) =~= before.push(c.track[i as int]));
            }
        }
        i = i + 1;
    }
    proof {
        assert(c.track.take(i as int) =~= c.track);
    }
    out
}

/// The accounts of `s` without those whose exact name occurred earlier.
pub open spec fn first_of_each_name(s: Seq<TrackedUserView>) -> Seq<TrackedUserView>
    decreases s.len(),
{
    if s.len() == 0 {
        s
    } else {
        let rest = first_of_each_name(s.drop_last());
        if s.drop_last().map_values(|u: TrackedUserView| u.name).contains(s.last().name) {
            rest
        } else {
            rest.push(s.last())
        }
    }
}

/// `users` with each exact name once: an account listed twice is synced
/// once.
pub fn dedup_users(users: &Vec<TrackedUser>) -> (r: Vec<TrackedUser>)
    ensures
        users_view(r@) == first_of_each_name(users_view(users@)),
{
    let ghost s = users_view(users@);
    let mut out: Vec<TrackedUser> = Vec::new();
    let mut seen: Vec<String> = Vec::new();
    let mut i: usize = 0;
    while i < users.len()
        invariant
            s == users_view(users@),
            i <= users.len(),
            users_view(out@) == first_of_each_name(s.take(i as int)),
            forall|x: Seq<char>| #[trigger] strings_view(seen@).contains(x) <==> s.take(i as int).map_values(
                |u: TrackedUserView| u.name,
            ).contains(x),
        decreases users.len() - i,
    {
        let name = users[i].name.as_str();
        let mut found = false;
        let mut j: usize = 0;
        while j < seen.len()
            invariant
                j <= seen.len(),
                found == strings_view(seen@).take(j as int).contains(name@),
            decreases seen.len() - j,
        {
            proof {
                let sv = strings_view(seen@);
                assert(sv.take(j + 1) =~= sv.take(j as int).push(sv[j as int]));
                crate::config::lemma_push_contains(sv.take(j as int), sv[j as int]);
            }
            if crate::config::str_eq(seen[j].as_str(), name) {
                found = true;
            }
            j = j + 1;
        }
        proof {
            assert(strings_view(seen@).take(j as int) =~= strings_view(seen@));
            let pre = s.take(i as int);
            let nxt = s.take(i + 1);
            assert(nxt.drop_last() =~= pre);
            assert(nxt.last() == users@[i as int]@);
            let pm = pre.map_values(|u: TrackedUserView| u.name);
            assert(pm.push(name@) =~= nxt.map_values(|u: TrackedUserView| u.name));
            crate::config::lemma_push_contains(pm, name@);
        }
        if !found {
            let ghost s0 = strings_view(seen@);
            let ghost o0 = users_view(out@);
            seen.push(users[i].name.clone());
            out.push(users[i].clone());
            proof {
                assert(strings_view(seen@) =~= s0.push(name@));
                crate::config::lemma_push_contains(s0, name@);
                assert(users_view(out@) =~= o0.push(users@[i as int]@));
            }
        }
        i = i + 1;
    }
    proof {
        assert(s.take(i as int) =~= s);
    }
    out
}

} // verus!
