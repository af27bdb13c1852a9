//! Skipping and un-skipping repositories of tracked accounts.
use vstd::prelude::*;

use crate::config::{
    find_user, has_user, lemma_push_contains, str_eq, strings_view, skip_spec, unskip_spec, Config, ConfigView,
};
use crate::error::Error;
use crate::sorting::{sorted_set, sorted_unique};
use crate::text::{
    contains_char, decimal, eq_ignore_ascii_case, eq_ignore_case, push_decimal, split_first,
    split_once_char,
};

verus! {

/// `s` is of the form `user/repo`: one slash, with something on each side.
pub open spec fn repo_arg_ok(s: Seq<char>) -> bool {
    match split_first(s, '/') {
        Some((user, rest)) => user.len() > 0 && rest.len() > 0 && !rest.contains('/'),
        None => false,
    }
}

pub open spec fn not_repo_format(e: Error, arg: Seq<char>) -> bool {
    e matches Error::NotRepoFormat { arg: a } && a@ == arg
}

/// Splits a `user/repo` argument into its two parts.
pub fn parse_repo_arg(s: &str) -> (r: Result<(&str, &str), Error>)
    ensures
        match r {
            Ok((user, repo)) => repo_arg_ok(s@) && split_first(s@, '/') == Some((user@, repo@)),
            Err(e) => !repo_arg_ok(s@) && not_repo_format(e, s@),
        },
{
    match split_once_char(s, '/') {
        None => Err(Error::NotRepoFormat { arg: s.to_owned() }),
        Some((user, rest)) => {
            if user.unicode_len() == 0 || rest.unicode_len() == 0 || contains_char(rest, '/') {
                Err(Error::NotRepoFormat { arg: s.to_owned() })
            } else {
                Ok((user, rest))
            }
        },
    }
}

/// Some pin is named `repo` up to ASCII case.
pub open spec fn pinned_ignoring_case(c: ConfigView, repo: Seq<char>) -> bool {
    exists|i: int| 0 <= i < c.pinned.len() && eq_ignore_case(#[trigger] c.pinned[i].full_name, repo)
}

/// Checks that `repo_str` (owned by `user`) can be skipped: it is not pinned
/// (up to ASCII case) and its owner is tracked.
pub fn check_skip_conflicts(config: &Config, repo_str: &str, user: &str) -> (r: Result<(), Error>)
    ensures
        pinned_ignoring_case(config@, repo_str@) ==> (r matches Err(Error::RepoPinned { repo })
            && repo@ == repo_str@),
        !pinned_ignoring_case(config@, repo_str@) && !has_user(config@.track, user@) ==> (r matches Err(
            Error::UserNotTracked { repo, user: u },
        ) && repo@ == repo_str@ && u@ == user@),
        !pinned_ignoring_case(config@, repo_str@) && has_user(config@.track, user@) ==> r is Ok,
{
    let mut i: usize = 0;
    while i < config.pinned.len()
        invariant
            i <= config.pinned.len(),
            forall|j: int|
                0 <= j < i ==> !eq_ignore_case(#[trigger] config@.pinned[j].full_name, repo_str@),
        decreases config.pinned.len() - i,
    {
        if eq_ignore_ascii_case(config.pinned[i].full_name.as_str(), repo_str) {
            proof {
                assert(eq_ignore_case(config@.pinned[i as int].full_name, repo_str@));
            }
            return Err(Error::RepoPinned { repo: repo_str.to_owned() });
        }
        i = i + 1;
    }
    match config.find_user_index(user) {
        Some(_) => Ok(()),
        None => {
            proof {
                if has_user(config@.track, user@) {
                    assert(find_user(config@.track, user@) is Some);
                }
            }
            Err(Error::UserNotTracked { repo: repo_str.to_owned(), user: user.to_owned() })
        },
    }
}

/// Stops skipping `repo`, which must be of the form `user/repo`. Returns
/// whether it was skipped.
pub fn unskip_one(config: &mut Config, repo: &str) -> (r: Result<bool, Error>)
    ensures
        old(config).well_formed() ==> final(config).well_formed(),
        repo_arg_ok(repo@) ==> r == Ok::<bool, Error>(old(config)@.skipped.contains(repo@))
            && final(config)@ == unskip_spec(old(config)@, repo@),
        !repo_arg_ok(repo@) ==> (r matches Err(e) && not_repo_format(e, repo@)) && final(config)@
            == old(config)@,
{
    match parse_repo_arg(repo) {
        Err(e) => Err(e),
        Ok(_) => Ok(config.unskip_repo(repo)),
    }
}

/// Stops skipping each of `repos` in turn, up to the first that is not of
/// the form `user/repo`. Returns, for each repository handled, whether it
/// was skipped, and the error of the argument that stopped it, if any.
pub fn remove(config: &mut Config, repos: &Vec<String>) -> (r: (Vec<bool>, Result<(), Error>))
    ensures
        old(config).well_formed() ==> final(config).well_formed(),
        ({
            let args = strings_view(repos@);
            let k = r.0.len() as int;
            &&& k <= args.len()
            &&& forall|j: int| 0 <= j < k ==> repo_arg_ok(#[trigger] args[j])
            &&& forall|j: int|
                0 <= j < k ==> r.0@[j] == (old(config)@.skipped.contains(#[trigger] args[j])
                    && !args.take(j).contains(args[j]))
            &&& (r.1 is Err) == (k < args.len())
            &&& k < args.len() ==> !repo_arg_ok(args[k]) && (r.1 matches Err(e) && not_repo_format(e, args[k]))
            &&& final(config)@ == (ConfigView {
                skipped: old(config)@.skipped.difference(args.take(k).to_set()),
                ..old(config)@
            })
        }),
{
    let ghost args = strings_view(repos@);
    let mut outcomes: Vec<bool> = Vec::new();
    let mut i: usize = 0;
    proof {
        assert(old(config)@.skipped.difference(args.take(0).to_set()) =~= old(config)@.skipped);
    }
    while i < repos.len()
        invariant
            old(config).well_formed() ==> config.well_formed(),
            args == strings_view(repos@),
            i <= repos.len(),
            outcomes.len() == i,
            forall|j: int| 0 <= j < i ==> repo_arg_ok(#[trigger] args[j]),
            forall|j: int|
                0 <= j < i ==> outcomes@[j] == (old(config)@.skipped.contains(#[trigger] args[j])
                    && !args.take(j).contains(args[j])),
            config@ == (ConfigView {
                skipped: old(config)@.skipped.difference(args.take(i as int).to_set()),
                ..old(config)@
            }),
        decreases repos.len() - i,
    {
        let ghost before = config@;
        match unskip_one(config, repos[i].as_str()) {
            Err(e) => {
                return (outcomes, Err(e));
            },
            Ok(was) => {
                proof {
                    let x = args[i as int];
                    assert(args.take(i + 1) =~= args.take(i as int).push(x));
                    lemma_push_contains(args.take(i as int), x);
                    assert(was == (old(config)@.skipped.contains(x) && !args.take(i as int).contains(x)));
                    assert(config@.skipped =~= old(config)@.skipped.difference(args.take(i + 1).to_set()));
                }
                outcomes.push(was);
            },
        }
        i = i + 1;
    }
    proof {
        assert(args.take(i as int) =~= args);
    }
    (outcomes, Ok(()))
}

/// The name a repository with a local copy is skipped under: the tracked
/// spelling of its owner (matched up to ASCII case), or the given one.
pub open spec fn skip_key(c: ConfigView, user: Seq<char>, name: Seq<char>) -> Seq<char> {
    let owner = match find_user(c.track, user) {
        Some(i) => c.track[i].name,
        None => user,
    };
    owner + "/"@ + name
}

pub fn canonical_skip_key(config: &Config, user: &str, name: &str) -> (r: String)
    ensures
        r@ == skip_key(config@, user@, name@),
{
    let mut key = String::new();
    match config.find_user_index(user) {
        Some(i) => key.append(config.track[i].name.as_str()),
        None => key.append(user),
    }
    key.append("/");
    key.append(name);
    assert(key@ =~= skip_key(config@, user@, name@));
    key
}

/// Skips a repository that has a local copy, under the tracked spelling of
/// its owner. Returns the name it is now skipped under and whether the skip
/// is new.
pub fn skip_local(config: &mut Config, user: &str, name: &str) -> (r: (String, bool))
    ensures
        old(config).well_formed() ==> final(config).well_formed(),
        r.0@ == skip_key(old(config)@, user@, name@),
        r.1 == !old(config)@.skipped.contains(r.0@),
        final(config)@ == skip_spec(old(config)@, r.0@),
{
    let key = canonical_skip_key(config, user, name);
    let newly = config.skip_repo(key.as_str());
    (key, newly)
}

/// The next step of `skip` for `user/repo` once it is known whether a local
/// copy exists.
pub enum SkipStep {
    /// The local copy's repository is now skipped under `key`; `newly` says
    /// whether the skip is new.
    Local { key: String, newly: bool },
    /// Nothing stands against skipping it: look it up on GitHub.
    Lookup,
}

/// Skips `repo_str` (owned by `user`, named `name`) where a local copy
/// exists; otherwise checks that it can be skipped before it is looked up:
/// it must not be pinned and its owner must be tracked.
pub fn skip_step(config: &mut Config, repo_str: &str, user: &str, name: &str, local_copy: bool) -> (r:
    Result<SkipStep, Error>)
    ensures
        old(config).well_formed() ==> final(config).well_formed(),
        local_copy ==> (r matches Ok(SkipStep::Local { key, newly }) && key@ == skip_key(
            old(config)@,
            user@,
            name@,
        ) && newly == !old(config)@.skipped.contains(key@) && final(config)@ == skip_spec(
            old(config)@,
            key@,
        )),
        !local_copy ==> final(config)@ == old(config)@,
        !local_copy && pinned_ignoring_case(old(config)@, repo_str@) ==> (r matches Err(
            Error::RepoPinned { repo },
        ) && repo@ == repo_str@),
        !local_copy && !pinned_ignoring_case(old(config)@, repo_str@) && !has_user(
            old(config)@.track,
            user@,
        ) ==> (r matches Err(Error::UserNotTracked { repo, user: u }) && repo@ == repo_str@ && u@
            == user@),
        !local_copy && !pinned_ignoring_case(old(config)@, repo_str@) && has_user(
            old(config)@.track,
            user@,
        ) ==> r matches Ok(SkipStep::Lookup),
{
    if local_copy {
        let (key, newly) = skip_local(config, user, name);
        Ok(SkipStep::Local { key, newly })
    } else {
        match check_skip_conflicts(config, repo_str, user) {
            Ok(()) => Ok(SkipStep::Lookup),
            Err(e) => Err(e),
        }
    }
}

/// The name a repository found on GitHub is skipped under: the full name
/// GitHub gives, or the argument where it gives none.
pub open spec fn found_name(repo_arg: Seq<char>, github_full_name: Option<String>) -> Seq<char> {
    match github_full_name {
        Some(f) => f@,
        None => repo_arg,
    }
}

/// Skips a repository that GitHub found, under the name it gives. Returns
/// that name and whether the skip is new.
pub fn skip_found(config: &mut Config, repo_arg: &str, github_full_name: Option<String>) -> (r: (
    String,
    bool,
))
    ensures
        old(config).well_formed() ==> final(config).well_formed(),
        r.0@ == found_name(repo_arg@, github_full_name),
        r.1 == !old(config)@.skipped.contains(r.0@),
        final(config)@ == skip_spec(old(config)@, r.0@),
{
    let full_name = match github_full_name {
        Some(f) => f,
        None => repo_arg.to_owned(),
    };
    let newly = config.skip_repo(full_name.as_str());
    (full_name, newly)
}

/// A skipped repository whose local copy `prune` would delete.
pub struct PruneCandidate {
    pub full_name: String,
    pub owner: String,
    pub name: String,
}

/// The skipped repositories in `owner/name` form, in order, with their
/// parts.
pub fn prune_candidates(config: &Config) -> (r: Vec<PruneCandidate>)
    ensures
        r@.map_values(|p: PruneCandidate| p.full_name@) == sorted_set(config@.skipped).filter(
            |x: Seq<char>| split_first(x, '/') is Some,
        ),
        forall|j: int|
            0 <= j < r.len() ==> split_first((#[trigger] r@[j]).full_name@, '/') == Some(
                (r@[j].owner@, r@[j].name@),
            ),
{
    let sorted = sorted_unique(&config.skipped);
    let ghost sv = strings_view(sorted@);
    let ghost pred = |x: Seq<char>| split_first(x, '/') is Some;
    let mut out: Vec<PruneCandidate> = Vec::new();
    let mut i: usize = 0;
    while i < sorted.len()
        invariant
            sv == strings_view(sorted@),
            pred == (|x: Seq<char>| split_first(x, '/') is Some),
            i <= sorted.len(),
            out@.map_values(|p: PruneCandidate| p.full_name@) == sv.take(i as int).filter(pred),
            forall|j: int|
                0 <= j < out.len() ==> split_first((#[trigger] out@[j]).full_name@, '/') == Some(
                    (out@[j].owner@, out@[j].name@),
                ),
        decreases sorted.len() - i,
    {
        proof {
            assert(sv.take(i + 1) =~= sv.take(i as int).push(sv[i as int]));
            sv.take(i as int).lemma_filter_push(sv[i as int], pred);
        }
        let full = sorted[i].as_str();
        match split_once_char(full, '/') {
            Some((owner, name)) => {
                let ghost before = out@.map_values(|p: PruneCandidate| p.full_name@);
                out.push(
                    PruneCandidate {
                        full_name: full.to_owned(),
                        owner: owner.to_owned(),
                        name: name.to_owned(),
                    },
                );
                proof {
                    assert(out@.map_values(|p: PruneCandidate| p.full_name@) =~= before.push(
                        sv[i as int],
                    ));
                }
            },
            None => {},
        }
        i = i + 1;
    }
    proof {
        assert(sv.take(i as int) =~= sv);
    }
    out
}

/// The question `prune` asks before deleting `n` local copies.
pub open spec fn prune_question_text(n: nat) -> Seq<char> {
    "Delete "@ + decimal(n) + " local "@ + (if n == 1 {
        "repo"@
    } else {
        "repos"@
    }) + "?"@
}

pub fn prune_question(n: usize) -> (r: String)
    ensures
        r@ == prune_question_text(n as nat),
{
    let mut s = String::new();
    s.append("Delete ");
    push_decimal(&mut s, n as u64);
    s.append(" local ");
    if n == 1 {
        s.append("repo");
    } else {
        s.append("repos");
    }
    s.append("?");
    assert(s@ =~= prune_question_text(n as nat));
    s
}

} // verus!
