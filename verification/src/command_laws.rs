//! What holds of the commands as a whole: the `user/repo` argument form, the
//! listing's hint, the split of `add` targets, the end-of-run report, when a
//! clone is pulled again, and that no repository or account is synced twice.
use vstd::prelude::*;

use crate::cli::{is_account_target, is_repo_target, no_sync_spec, submodules_override_spec, verbosity_spec};
use crate::utils::plural_text;
use crate::text::{decimal, join};
use crate::config::{ConfigView, TrackedUserView};
use crate::skip::repo_arg_ok;
use crate::state::{ts_le, StateView, Timestamp};
use crate::sync::{
    part, summary_parts, Verbosity,
    pull_count, removal_count, start_count, PullFollowUp, RepoStart,
    detail_text, first_of_each_id, first_of_each_name, processed, recorded_push, skip_pull,
    summary_text, RepoInfo, Totals,
};
use crate::text::{is_first_index, lemma_split_first_at, lemma_split_first_parts, split_first};
use crate::sorting::{
    ident_key, law_sorted_set_lists_the_set, lemma_stable_sort_exists, sorted_by_key, sorted_set,
    stable_sort, strictly_sorted,
};
use crate::track::{list_text, shown, user_lines};
use crate::config::pin_names;

verus! {

// ---------------------------------------------------------------------------
// Arguments
// ---------------------------------------------------------------------------

/// An argument is in `user/repo` form exactly when it is a non-empty owner
/// and a non-empty name joined by the one `/` it holds.
pub proof fn law_repo_arg_form(s: Seq<char>)
    ensures
        repo_arg_ok(s) <==> exists|u: Seq<char>, n: Seq<char>|
            #![trigger u + seq!['/'] + n]
            u.len() > 0 && n.len() > 0 && !u.contains('/') && !n.contains('/') && s == u + seq!['/']
                + n,
{
    if repo_arg_ok(s) {
        lemma_split_first_parts(s, '/');
        let (u, n) = split_first(s, '/').unwrap();
        assert(s == u + seq!['/'] + n);
    }
    if exists|u: Seq<char>, n: Seq<char>|
        #![trigger u + seq!['/'] + n]
        u.len() > 0 && n.len() > 0 && !u.contains('/') && !n.contains('/') && s == u + seq!['/'] + n {
        let (u, n) = choose|u: Seq<char>, n: Seq<char>|
            #![trigger u + seq!['/'] + n]
            u.len() > 0 && n.len() > 0 && !u.contains('/') && !n.contains('/') && s == u + seq!['/']
                + n;
        let i = u.len() as int;
        assert(s[i] == '/');
        assert(s.take(i) =~= u);
        assert(s.skip(i + 1) =~= n);
        assert(is_first_index(s, '/', i));
        lemma_split_first_at(s, '/', i);
    }
}

/// Each target of `add` is either a repository or an account, never both,
/// so the two parts together hold all the targets.
pub proof fn law_partition_keeps_all(targets: Seq<Seq<char>>)
    ensures
        targets.filter(|s: Seq<char>| is_repo_target(s)).len() + targets.filter(
            |s: Seq<char>| is_account_target(s),
        ).len() == targets.len(),
    decreases targets.len(),
{
    let rp = |s: Seq<char>| is_repo_target(s);
    let ap = |s: Seq<char>| is_account_target(s);
    if targets.len() == 0 {
        reveal(Seq::filter);
    } else {
        let d = targets.drop_last();
        law_partition_keeps_all(d);
        assert(targets =~= d.push(targets.last()));
        d.lemma_filter_push(targets.last(), rp);
        d.lemma_filter_push(targets.last(), ap);
    }
}

// ---------------------------------------------------------------------------
// The listing
// ---------------------------------------------------------------------------

/// The listing shows the hint to add an account exactly when nothing is
/// tracked and nothing is pinned.
pub proof fn law_list_hint(c: ConfigView, present: Option<Seq<Seq<char>>>)
    ensures
        (list_text(c, present) == "No users tracked. Use 'gitkeep add <username>' to start.\n"@) <==> (
        c.track.len() == 0 && c.pinned.len() == 0),
{
    reveal_strlit("No users tracked. Use 'gitkeep add <username>' to start.\n");
    reveal_strlit("Tracked users and orgs (");
    reveal_strlit("Pinned repos (");
    let t = list_text(c, present);
    let hint = "No users tracked. Use 'gitkeep add <username>' to start.\n"@;
    if !(c.track.len() == 0 && c.pinned.len() == 0) {
        assert(hint[0] == 'N');
        if c.track.len() > 0 {
            assert(t[0] == 'T');
        } else {
            assert(t[0] == 'P');
        }
    }
}

/// The listing shows the pinned repositories in order, and the skipped ones
/// in order without repeats, each skipped repository that is shown once.
pub proof fn law_listing_in_order(c: ConfigView, present: Option<Seq<Seq<char>>>)
    requires
        c.skipped.finite(),
    ensures
        sorted_by_key(stable_sort(pin_names(c.pinned), ident_key()), ident_key()),
        strictly_sorted(sorted_set(c.skipped.filter(|r: Seq<char>| shown(r, present)))),
        sorted_set(c.skipped.filter(|r: Seq<char>| shown(r, present))).to_set() == c.skipped.filter(
            |r: Seq<char>| shown(r, present),
        ),
{
    lemma_stable_sort_exists(pin_names(c.pinned), ident_key());
    let f = c.skipped.filter(|r: Seq<char>| shown(r, present));
    vstd::set_lib::lemma_len_subset(f, c.skipped);
    law_sorted_set_lists_the_set(f);
}

/// When accounts are tracked, the listing begins with a header that counts
/// them, followed by their lines.
pub proof fn law_list_header_counts_accounts(c: ConfigView, present: Option<Seq<Seq<char>>>)
    requires
        c.track.len() > 0,
    ensures
        ({
            let h = "Tracked users and orgs ("@ + decimal(c.track.len()) + " total):\n"@;
            let t = list_text(c, present);
            &&& h.len() + user_lines(c.track).len() <= t.len()
            &&& t.subrange(0, h.len() as int) == h
            &&& t.subrange(h.len() as int, (h.len() + user_lines(c.track).len()) as int) == user_lines(c.track)
        }),
{
    let h = "Tracked users and orgs ("@ + decimal(c.track.len()) + " total):\n"@;
    let u = user_lines(c.track);
    let t = list_text(c, present);
    let rest = t.subrange((h.len() + u.len()) as int, t.len() as int);
    assert(t =~= h + u + rest);
    assert(t.subrange(0, h.len() as int) =~= h);
    assert(t.subrange(h.len() as int, (h.len() + u.len()) as int) =~= u);
}

// ---------------------------------------------------------------------------
// The report of a run
// ---------------------------------------------------------------------------

/// A run reports "Nothing to do." exactly when every counter is zero: no
/// repository was updated, found up to date, cloned, skipped, failed or left
/// out. It reports a bare "Done." exactly when repositories were only left
/// out.
pub proof fn law_summary_nothing_to_do(t: &Totals)
    ensures
        (summary_text(t) == "Nothing to do."@) <==> (t.pulled_updated == 0 && t.pulled_up_to_date
            == 0 && t.cloned == 0 && t.skipped == 0 && t.failed == 0 && t.excluded == 0),
        (summary_text(t) == "Done."@) <==> (t.pulled_updated == 0 && t.pulled_up_to_date == 0
            && t.cloned == 0 && t.skipped == 0 && t.failed == 0 && t.excluded > 0),
{
    reveal_strlit("Nothing to do.");
    reveal_strlit("Done.");
    reveal_strlit("Done. ");
    reveal_strlit(".");
    assert("Nothing to do."@[0] == 'N');
    assert("Done."@[0] == 'D');
    assert("Nothing to do."@.len() == 14);
    assert("Done."@.len() == 5);
    if processed(t) != 0 {
        assert(summary_text(t)[0] == 'D');
        assert(summary_text(t).len() >= 7);
    }
}

/// `p` occurs in `s`.
pub open spec fn contains_text(s: Seq<char>, p: Seq<char>) -> bool {
    exists|i: int| 0 <= i && i + p.len() <= s.len() && #[trigger] s.subrange(i, i + p.len()) == p
}

/// Each part of a joined list occurs in the joined text.
proof fn lemma_join_contains(parts: Seq<Seq<char>>, sep: Seq<char>, k: int)
    requires
        0 <= k < parts.len(),
    ensures
        contains_text(join(parts, sep), parts[k]),
    decreases parts.len(),
{
    let j = join(parts, sep);
    let p = parts[k];
    if parts.len() == 1 {
        assert(j == p);
        let z: int = 0;
        assert(j.subrange(z, z + p.len()) =~= p);
    } else if k == parts.len() - 1 {
        let a = join(parts.drop_last(), sep) + sep;
        assert(j == a + p);
        let z: int = a.len() as int;
        assert(j.subrange(z, z + p.len()) =~= p);
    } else {
        lemma_join_contains(parts.drop_last(), sep, k);
        let d = join(parts.drop_last(), sep);
        assert(parts.drop_last()[k] == p);
        let i = choose|i: int| 0 <= i && i + p.len() <= d.len() && #[trigger] d.subrange(i, i + p.len()) == p;
        assert(j == d + sep + parts.last());
        assert(j.subrange(i, i + p.len()) =~= d.subrange(i, i + p.len()));
    }
}

/// A text that occurs in the middle part occurs in the whole.
proof fn lemma_wrap_contains(a: Seq<char>, m: Seq<char>, b: Seq<char>, p: Seq<char>)
    requires
        contains_text(m, p),
    ensures
        contains_text(a + m + b, p),
{
    let i = choose|i: int| 0 <= i && i + p.len() <= m.len() && #[trigger] m.subrange(i, i + p.len()) == p;
    let s = a + m + b;
    let z: int = a.len() + i;
    assert(s.subrange(z, z + p.len()) =~= m.subrange(i, i + p.len()));
}

/// A part of the summary occurs in it.
proof fn lemma_summary_contains(t: &Totals, p: Seq<char>)
    requires
        processed(t) != 0,
        summary_parts(t).contains(p),
    ensures
        contains_text(summary_text(t), p),
{
    let parts = summary_parts(t);
    let k = choose|k: int| 0 <= k < parts.len() && parts[k] == p;
    lemma_join_contains(parts, ", "@, k);
    lemma_wrap_contains("Done. "@, join(parts, ", "@), "."@, p);
}

/// Every count a run has is reported: each non-zero counter but the
/// left-out repositories appears in the summary as its count with its
/// phrase ("1 new repo cloned", "3 repos up to date", ...).
pub proof fn law_summary_reports_each_count(t: &Totals)
    ensures
        t.cloned > 0 ==> contains_text(
            summary_text(t),
            plural_text(t.cloned as nat, "new repo"@, "new repos"@) + " cloned"@,
        ),
        t.pulled_updated > 0 ==> contains_text(
            summary_text(t),
            plural_text(t.pulled_updated as nat, "repo"@, "repos"@) + " with new commits"@,
        ),
        t.pulled_up_to_date > 0 ==> contains_text(
            summary_text(t),
            plural_text(t.pulled_up_to_date as nat, "repo"@, "repos"@) + " up to date"@,
        ),
        t.skipped > 0 ==> contains_text(
            summary_text(t),
            plural_text(t.skipped as nat, "repo"@, "repos"@) + " skipped"@,
        ),
        t.failed > 0 ==> contains_text(
            summary_text(t),
            plural_text(t.failed as nat, "repo"@, "repos"@) + " failed"@,
        ),
{
    let p1 = part(t.cloned > 0, plural_text(t.cloned as nat, "new repo"@, "new repos"@) + " cloned"@);
    let p2 = part(t.pulled_updated > 0, plural_text(t.pulled_updated as nat, "repo"@, "repos"@) + " with new commits"@);
    let p3 = part(t.pulled_up_to_date > 0, plural_text(t.pulled_up_to_date as nat, "repo"@, "repos"@) + " up to date"@);
    let p4 = part(t.skipped > 0, plural_text(t.skipped as nat, "repo"@, "repos"@) + " skipped"@);
    let p5 = part(t.failed > 0, plural_text(t.failed as nat, "repo"@, "repos"@) + " failed"@);
    let ps = summary_parts(t);
    assert(ps == p1 + p2 + p3 + p4 + p5);
    if t.cloned > 0 {
        assert(ps[0] == p1[0]);
        lemma_summary_contains(t, p1[0]);
    }
    if t.pulled_updated > 0 {
        assert(ps[p1.len() as int] == p2[0]);
        lemma_summary_contains(t, p2[0]);
    }
    if t.pulled_up_to_date > 0 {
        assert(ps[(p1.len() + p2.len()) as int] == p3[0]);
        lemma_summary_contains(t, p3[0]);
    }
    if t.skipped > 0 {
        assert(ps[(p1.len() + p2.len() + p3.len()) as int] == p4[0]);
        lemma_summary_contains(t, p4[0]);
    }
    if t.failed > 0 {
        assert(ps[(p1.len() + p2.len() + p3.len() + p4.len()) as int] == p5[0]);
        lemma_summary_contains(t, p5[0]);
    }
}

/// `add --submodules` records submodules on, `--no-submodules` off, and
/// neither records nothing; `--sync` and `--no-sync` override the
/// configured default, which holds without either.
pub proof fn law_add_flags(a: bool, b: bool, configured: bool)
    ensures
        submodules_override_spec(true, b) == Some(true),
        submodules_override_spec(false, true) == Some(false),
        submodules_override_spec(false, false) == None::<bool>,
        !no_sync_spec(true, b, configured),
        no_sync_spec(false, true, configured),
        no_sync_spec(false, false, configured) == configured,
{
}

/// A clone is left alone exactly when both push times are known and
/// GitHub's is no later than the recorded one, comparing seconds, then
/// nanoseconds.
pub proof fn law_skip_pull_compares_instants(a: Option<Timestamp>, b: Option<Timestamp>)
    ensures
        skip_pull(a, b) == match (a, b) {
            (Some(x), Some(y)) => x.secs < y.secs || (x.secs == y.secs && x.nanos <= y.nanos),
            _ => false,
        },
        skip_pull(a, a) == (a is Some),
{
}

/// `sync -q` is quiet whatever else is asked; otherwise `-v` makes it
/// verbose, and without either flag it is normal.
pub proof fn law_verbosity_flags(verbose: bool)
    ensures
        verbosity_spec(true, verbose) == Verbosity::Quiet,
        verbosity_spec(false, verbose) == (if verbose {
            Verbosity::Verbose
        } else {
            Verbosity::Normal
        }),
        verbosity_spec(false, true) != Verbosity::Quiet,
{
}

/// The detail before the report is left out exactly when no repository was
/// cloned or updated.
pub proof fn law_detail_only_when_listed(t: &Totals)
    ensures
        (detail_text(t) is None) <==> (t.new_repos.len() == 0 && t.updated_repos.len() == 0),
{
}

// ---------------------------------------------------------------------------
// Pulling
// ---------------------------------------------------------------------------

/// Once a sync has recorded the push time GitHub reported for a repository,
/// a later run that sees no newer push leaves its clone alone, and one that
/// sees a newer push pulls it. Where no push time was recorded, the clone is
/// always pulled.
pub proof fn law_recorded_push_decides_pull(
    s: StateView,
    key: Seq<char>,
    now: Timestamp,
    recorded: Option<Timestamp>,
    seen: Option<Timestamp>,
)
    ensures
        ({
            let after = StateView {
                repos: s.repos.insert(key, crate::state::RepoState { last_synced_at: now, pushed_at: recorded }),
                ..s
            };
            &&& recorded_push(after, key) == recorded
            &&& skip_pull(seen, recorded_push(after, key)) == match (seen, recorded) {
                (Some(a), Some(b)) => ts_le(a, b),
                _ => false,
            }
            &&& recorded matches Some(p) ==> skip_pull(Some(p), recorded_push(after, key))
        }),
{
}

// ---------------------------------------------------------------------------
// Every repository is counted once
// ---------------------------------------------------------------------------

/// What the steps on one repository add to the counters, by the path its
/// sync takes: the first checks (`start_repo`); then a clone
/// (`record_clone`, which counts one), or a pull (`finish_pull`), after a
/// fatal one the removal of the clone (`after_removal`) and, where it was
/// removed, a new clone (`record_clone`).
pub open spec fn repo_path_count(start: RepoStart, pull: PullFollowUp, removed: bool) -> nat {
    start_count(start) + match start {
        RepoStart::Done => 0,
        RepoStart::Clone { .. } => 1,
        RepoStart::Pull { .. } => pull_count(pull) + if pull == PullFollowUp::Reclone {
            removal_count(removed) + if removed {
                1nat
            } else {
                0nat
            }
        } else {
            0nat
        },
    }
}

/// Every repository a sync looks at is counted exactly once, whatever path
/// its sync takes.
pub proof fn law_each_repo_counted_once(start: RepoStart, pull: PullFollowUp, removed: bool)
    ensures
        repo_path_count(start, pull, removed) == 1,
{
}

// ---------------------------------------------------------------------------
// Nothing is synced twice
// ---------------------------------------------------------------------------

pub open spec fn ids_of(s: Seq<RepoInfo>) -> Seq<u64> {
    s.map_values(|r: RepoInfo| r.id)
}

/// Merging repository lists keeps one repository per id, and every id of
/// either list.
pub proof fn law_merge_ids_once(s: Seq<RepoInfo>)
    ensures
        forall|i: int, j: int|
            0 <= i < j < first_of_each_id(s).len() ==> (#[trigger] first_of_each_id(s)[i]).id != (
            #[trigger] first_of_each_id(s)[j]).id,
        forall|x: u64| #[trigger] ids_of(first_of_each_id(s)).contains(x) <==> ids_of(s).contains(x),
    decreases s.len(),
{
    if s.len() > 0 {
        let d = s.drop_last();
        let x = s.last();
        law_merge_ids_once(d);
        let rest = first_of_each_id(d);
        assert(ids_of(s) =~= ids_of(d).push(x.id));
        assert(d.map_values(|r: RepoInfo| r.id) == ids_of(d));
        assert forall|y: u64| #[trigger] ids_of(s).contains(y) <==> (ids_of(d).contains(y) || y == x.id) by {
            if ids_of(s).contains(y) {
                let k = choose|k: int| 0 <= k < ids_of(s).len() && ids_of(s)[k] == y;
                if k < d.len() {
                    assert(ids_of(d)[k] == y);
                }
            }
            if ids_of(d).contains(y) {
                let k = choose|k: int| 0 <= k < ids_of(d).len() && ids_of(d)[k] == y;
                assert(ids_of(s)[k] == y);
            }
            if y == x.id {
                assert(ids_of(s)[d.len() as int] == y);
            }
        }
        if !ids_of(d).contains(x.id) {
            let r = rest.push(x);
            assert(first_of_each_id(s) == r);
            assert(ids_of(r) =~= ids_of(rest).push(x.id));
            assert forall|i: int, j: int| 0 <= i < j < r.len() implies (#[trigger] r[i]).id != (
            #[trigger] r[j]).id by {
                if j == rest.len() {
                    assert(ids_of(rest)[i] == r[i].id);
                    assert(ids_of(rest).contains(r[i].id));
                } else {
                    assert(r[i] == rest[i] && r[j] == rest[j]);
                }
            }
            assert forall|y: u64| #[trigger] ids_of(r).contains(y) <==> ids_of(s).contains(y) by {
                if ids_of(r).contains(y) {
                    let k = choose|k: int| 0 <= k < ids_of(r).len() && ids_of(r)[k] == y;
                    if k < rest.len() {
                        assert(ids_of(rest)[k] == y);
                    }
                }
                if ids_of(rest).contains(y) {
                    let k = choose|k: int| 0 <= k < ids_of(rest).len() && ids_of(rest)[k] == y;
                    assert(ids_of(r)[k] == y);
                }
                if y == x.id {
                    assert(ids_of(r)[rest.len() as int] == y);
                }
            }
        } else {
            assert(first_of_each_id(s) == rest);
        }
    }
}

pub open spec fn names_of(s: Seq<TrackedUserView>) -> Seq<Seq<char>> {
    s.map_values(|u: TrackedUserView| u.name)
}

/// An account listed twice is synced once: the accounts a run syncs have
/// distinct names, and every name listed is among them.
pub proof fn law_dedup_names_once(s: Seq<TrackedUserView>)
    ensures
        forall|i: int, j: int|
            0 <= i < j < first_of_each_name(s).len() ==> (#[trigger] first_of_each_name(s)[i]).name
                != (#[trigger] first_of_each_name(s)[j]).name,
        forall|x: Seq<char>| #[trigger] names_of(first_of_each_name(s)).contains(x) <==> names_of(s).contains(x),
    decreases s.len(),
{
    if s.len() > 0 {
        let d = s.drop_last();
        let x = s.last();
        law_dedup_names_once(d);
        let rest = first_of_each_name(d);
        assert(names_of(s) =~= names_of(d).push(x.name));
        assert(d.map_values(|u: TrackedUserView| u.name) == names_of(d));
        assert forall|y: Seq<char>| #[trigger] names_of(s).contains(y) <==> (names_of(d).contains(y) || y
            == x.name) by {
            if names_of(s).contains(y) {
                let k = choose|k: int| 0 <= k < names_of(s).len() && names_of(s)[k] == y;
                if k < d.len() {
                    assert(names_of(d)[k] == y);
                }
            }
            if names_of(d).contains(y) {
                let k = choose|k: int| 0 <= k < names_of(d).len() && names_of(d)[k] == y;
                assert(names_of(s)[k] == y);
            }
            if y == x.name {
                assert(names_of(s)[d.len() as int] == y);
            }
        }
        if !names_of(d).contains(x.name) {
            let r = rest.push(x);
            assert(first_of_each_name(s) == r);
            assert(names_of(r) =~= names_of(rest).push(x.name));
            assert forall|i: int, j: int| 0 <= i < j < r.len() implies (#[trigger] r[i]).name != (
            #[trigger] r[j]).name by {
                if j == rest.len() {
                    assert(names_of(rest)[i] == r[i].name);
                    assert(names_of(rest).contains(r[i].name));
                } else {
                    assert(r[i] == rest[i] && r[j] == rest[j]);
                }
            }
            assert forall|y: Seq<char>| #[trigger] names_of(r).contains(y) <==> names_of(s).contains(y) by {
                if names_of(r).contains(y) {
                    let k = choose|k: int| 0 <= k < names_of(r).len() && names_of(r)[k] == y;
                    if k < rest.len() {
                        assert(names_of(rest)[k] == y);
                    }
                }
                if names_of(rest).contains(y) {
                    let k = choose|k: int| 0 <= k < names_of(rest).len() && names_of(rest)[k] == y;
                    assert(names_of(r)[k] == y);
                }
                if y == x.name {
                    assert(names_of(r)[rest.len() as int] == y);
                }
            }
        } else {
            assert(first_of_each_name(s) == rest);
        }
    }
}

} // verus!
