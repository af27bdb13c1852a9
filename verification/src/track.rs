//! Tracking accounts and pinning repositories: the listing, and the
//! decisions of `add`, `add user/repo` and `remove`.
use vstd::prelude::*;

use crate::config::{
    add_user_changes, add_user_notes, add_user_spec, find_user, has_user, is_pinned_spec,
    lemma_push_contains, pin_names, pin_spec, pins_owned_by, remove_pins_spec, removed_names, remove_user_spec,
    str_eq, strings_view, unpin_spec, Config, ConfigView, TrackedUserView, UserNote,
};
use crate::error::Error;
use crate::skip::{not_repo_format, parse_repo_arg, repo_arg_ok};
use crate::sorting::{ident_key, sort_strings, sorted_set, sorted_unique, stable_sort};
use crate::text::{
    append_lines, contains_char, decimal, eq_ignore_ascii_case, eq_ignore_case, join, lines,
    push_decimal, split_first, split_once_char,
};

verus! {

// ---------------------------------------------------------------------------
// The listing
// ---------------------------------------------------------------------------

pub open spec fn tag(present: bool, t: Seq<char>) -> Seq<Seq<char>> {
    if present {
        seq![t]
    } else {
        Seq::empty()
    }
}

/// `" [forks, frozen]"` with the flags an account has, or nothing.
pub open spec fn tags_suffix(u: TrackedUserView) -> Seq<char> {
    let tags = tag(u.forks, "forks"@) + tag(u.frozen, "frozen"@);
    if tags.len() == 0 {
        Seq::empty()
    } else {
        " ["@ + join(tags, ", "@) + "]"@
    }
}

/// One line per account: `"  {name}{tags}\n"`.
pub open spec fn user_lines(s: Seq<TrackedUserView>) -> Seq<char>
    decreases s.len(),
{
    if s.len() == 0 {
        Seq::empty()
    } else {
        user_lines(s.drop_last()) + "  "@ + s.last().name + tags_suffix(s.last()) + "\n"@
    }
}

/// Whether a skipped repository is listed. With no knowledge of the disk
/// (`present` is `None`) all are; otherwise those in `owner/name` form must
/// be among the ones present on disk.
pub open spec fn shown(r: Seq<char>, present: Option<Seq<Seq<char>>>) -> bool {
    match present {
        None => true,
        Some(p) => split_first(r, '/') is None || p.contains(r),
    }
}

pub open spec fn opt_strings_view(o: Option<&Vec<String>>) -> Option<Seq<Seq<char>>> {
    match o {
        Some(v) => Some(strings_view(v@)),
        None => None,
    }
}

/// The text of `gitkeep list`.
pub open spec fn list_text(c: ConfigView, present: Option<Seq<Seq<char>>>) -> Seq<char> {
    if c.track.len() == 0 && c.pinned.len() == 0 {
        "No users tracked. Use 'gitkeep add <username>' to start.\n"@
    } else {
        let users = if c.track.len() > 0 {
            "Tracked users and orgs ("@ + decimal(c.track.len()) + " total):\n"@ + user_lines(c.track)
        } else {
            Seq::empty()
        };
        let pins = if c.pinned.len() > 0 {
            (if c.track.len() > 0 {
                "\n"@
            } else {
                Seq::empty()
            }) + "Pinned repos ("@ + decimal(c.pinned.len()) + " total):\n"@ + lines(
                stable_sort(pin_names(c.pinned), ident_key()),
            )
        } else {
            Seq::empty()
        };
        let sk = sorted_set(c.skipped.filter(|r: Seq<char>| shown(r, present)));
        let skipped = if sk.len() > 0 {
            "\nSkipped repos ("@ + decimal(sk.len()) + " total):\n"@ + lines(sk)
        } else {
            Seq::empty()
        };
        users + pins + skipped
    }
}

/// The skipped repositories that are listed.
fn shown_skipped(config: &Config, present: Option<&Vec<String>>) -> (r: Vec<String>)
    ensures
        strings_view(r@).to_set() == config@.skipped.filter(
            |x: Seq<char>| shown(x, opt_strings_view(present)),
        ),
{
    let ghost pv = opt_strings_view(present);
    let ghost sk = strings_view(config.skipped@);
    let mut out: Vec<String> = Vec::new();
    let mut i: usize = 0;
    while i < config.skipped.len()
        invariant
            pv == opt_strings_view(present),
            sk == strings_view(config.skipped@),
            i <= config.skipped.len(),
            forall|x: Seq<char>| #[trigger]
                strings_view(out@).contains(x) <==> (sk.take(i as int).contains(x) && shown(x, pv)),
        decreases config.skipped.len() - i,
    {
        let name = config.skipped[i].as_str();
        proof {
            assert(sk.take(i + 1) =~= sk.take(i as int).push(name@));
            lemma_push_contains(sk.take(i as int), name@);
        }
        let keep = match present {
            None => true,
            Some(p) => {
                match split_once_char(name, '/') {
                    None => true,
                    Some(_) => {
                        let mut found = false;
                        let mut j: usize = 0;
                        while j < p.len()
                            invariant
                                j <= p.len(),
                                found == strings_view(p@).take(j as int).contains(name@),
                            decreases p.len() - j,
                        {
                            proof {
                                let pw = strings_view(p@);
                                assert(pw.take(j + 1) =~= pw.take(j as int).push(pw[j as int]));
                                lemma_push_contains(pw.take(j as int), pw[j as int]);
                            }
                            if str_eq(p[j].as_str(), name) {
                                found = true;
                            }
                            j = j + 1;
                        }
                        proof {
                            assert(strings_view(p@).take(j as int) =~= strings_view(p@));
                        }
                        found
                    },
                }
            },
        };
        if keep {
            let ghost before = strings_view(out@);
            out.push(config.skipped[i].clone());
            proof {
                assert(strings_view(out@) =~= before.push(name@));
                lemma_push_contains(before, name@);
            }
        }
        i = i + 1;
    }
    proof {
        assert(sk.take(i as int) =~= sk);
        assert(strings_view(out@).to_set() =~= config@.skipped.filter(
            |x: Seq<char>| shown(x, pv),
        ));
    }
    out
}

/// Appends one line per account.
fn append_user_lines(out: &mut String, config: &Config)
    ensures
        final(out)@ == old(out)@ + user_lines(config@.track),
{
    let ghost t = config@.track;
    let mut i: usize = 0;
    while i < config.track.len()
        invariant
            t == config@.track,
            i <= config.track.len(),
            out@ == old(out)@ + user_lines(t.take(i as int)),
        decreases config.track.len() - i,
    {
        proof {
            assert(t.take(i + 1).drop_last() =~= t.take(i as int));
        }
        let u = &config.track[i];
        out.append("  ");
        out.append(u.name.as_str());
        let ghost mid = out@;
        if u.forks && u.frozen {
            out.append(" [forks, frozen]");
        } else if u.forks {
            out.append(" [forks]");
        } else if u.frozen {
            out.append(" [frozen]");
        }
        proof {
            let uv = t[i as int];
            reveal_strlit(" [forks, frozen]");
            reveal_strlit(" [forks]");
            reveal_strlit(" [frozen]");
            reveal_strlit(" [");
            reveal_strlit("]");
            reveal_strlit(", ");
            reveal_strlit("forks");
            reveal_strlit("frozen");
            let tags = tag(uv.forks, "forks"@) + tag(uv.frozen, "frozen"@);
            if uv.forks && uv.frozen {
                assert(tags =~= seq!["forks"@, "frozen"@]);
                assert(tags.drop_last() =~= seq!["forks"@]);
                assert(join(tags, ", "@) == join(tags.drop_last(), ", "@) + ", "@ + "frozen"@);
                assert(out@ =~= mid + tags_suffix(uv));
            } else if uv.forks {
                assert(tags =~= seq!["forks"@]);
                assert(out@ =~= mid + tags_suffix(uv));
            } else if uv.frozen {
                assert(tags =~= seq!["frozen"@]);
                assert(out@ =~= mid + tags_suffix(uv));
            } else {
                assert(tags =~= Seq::<Seq<char>>::empty());
                assert(out@ =~= mid + tags_suffix(uv));
            }
        }
        out.append("\n");
        i = i + 1;
        proof {
            assert(out@ =~= old(out)@ + user_lines(t.take(i as int)));
        }
    }
    proof {
        assert(t.take(i as int) =~= t);
    }
}

/// The text of `gitkeep list`. `present`, where given, names the skipped
/// repositories whose local copies exist; skipped repositories in
/// `owner/name` form without one are left out.
pub fn format_list(config: &Config, present: Option<&Vec<String>>) -> (r: String)
    ensures
        r@ == list_text(config@, opt_strings_view(present)),
{
    if config.track.len() == 0 && config.pinned.len() == 0 {
        return "No users tracked. Use 'gitkeep add <username>' to start.\n".to_owned();
    }
    let mut out = String::new();
    if config.track.len() > 0 {
        out.append("Tracked users and orgs (");
        push_decimal(&mut out, config.track.len() as u64);
        out.append(" total):\n");
        append_user_lines(&mut out, config);
    }
    let ghost a = out@;
    if config.pinned.len() > 0 {
        let mut names: Vec<String> = Vec::new();
        let mut i: usize = 0;
        while i < config.pinned.len()
            invariant
                i <= config.pinned.len(),
                strings_view(names@) == pin_names(config@.pinned).take(i as int),
            decreases config.pinned.len() - i,
        {
            let ghost before = strings_view(names@);
            names.push(config.pinned[i].full_name.clone());
            proof {
                assert(strings_view(names@) =~= before.push(config@.pinned[i as int].full_name));
                assert(pin_names(config@.pinned).take(i + 1) =~= pin_names(config@.pinned).take(
                    i as int,
                ).push(config@.pinned[i as int].full_name));
            }
            i = i + 1;
        }
        proof {
            assert(pin_names(config@.pinned).take(i as int) =~= pin_names(config@.pinned));
        }
        let sorted = sort_strings(&names);
        if config.track.len() > 0 {
            out.append("\n");
        }
        out.append("Pinned repos (");
        push_decimal(&mut out, config.pinned.len() as u64);
        out.append(" total):\n");
        append_lines(&mut out, &sorted);
    }
    let ghost b = out@;
    let shown_list = shown_skipped(config, present);
    let sk = sorted_unique(&shown_list);
    if sk.len() > 0 {
        out.append("\nSkipped repos (");
        push_decimal(&mut out, sk.len() as u64);
        out.append(" total):\n");
        append_lines(&mut out, &sk);
    }
    proof {
        let c = config@;
        let pv = opt_strings_view(present);
        let users = if c.track.len() > 0 {
            "Tracked users and orgs ("@ + decimal(c.track.len()) + " total):\n"@ + user_lines(c.track)
        } else {
            Seq::empty()
        };
        assert(a =~= users);
        let pins = if c.pinned.len() > 0 {
            (if c.track.len() > 0 {
                "\n"@
            } else {
                Seq::empty()
            }) + "Pinned repos ("@ + decimal(c.pinned.len()) + " total):\n"@ + lines(
                stable_sort(pin_names(c.pinned), ident_key()),
            )
        } else {
            Seq::empty()
        };
        assert(b =~= users + pins);
        assert(strings_view(sk@) == sorted_set(c.skipped.filter(|r: Seq<char>| shown(r, pv))));
        assert(out@ =~= list_text(c, pv));
    }
    out
}


// ---------------------------------------------------------------------------
// `add` for accounts
// ---------------------------------------------------------------------------

/// Tracking one account: adding it, then dropping the pins it now covers.
pub open spec fn track_step(
    c: ConfigView,
    user: Seq<char>,
    forks: bool,
    frozen: bool,
    submodules: Option<bool>,
) -> ConfigView {
    remove_pins_spec(add_user_spec(c, user, forks, frozen, submodules), user)
}

/// The configuration after tracking each of `users` in turn.
pub open spec fn track_all(
    c: ConfigView,
    users: Seq<Seq<char>>,
    forks: bool,
    frozen: bool,
    submodules: Option<bool>,
) -> ConfigView
    decreases users.len(),
{
    if users.len() == 0 {
        c
    } else {
        track_step(
            track_all(c, users.drop_last(), forks, frozen, submodules),
            users.last(),
            forks,
            frozen,
            submodules,
        )
    }
}

/// Whether tracking one account changes the configuration.
pub open spec fn track_step_changes(
    c: ConfigView,
    user: Seq<char>,
    forks: bool,
    frozen: bool,
    submodules: Option<bool>,
) -> bool {
    add_user_changes(c.track, user, forks, frozen, submodules) || pins_owned_by(
        add_user_spec(c, user, forks, frozen, submodules),
        user,
    ).len() > 0
}

/// Whether tracking each of `users` in turn changes the configuration.
pub open spec fn track_all_changes(
    c: ConfigView,
    users: Seq<Seq<char>>,
    forks: bool,
    frozen: bool,
    submodules: Option<bool>,
) -> bool
    decreases users.len(),
{
    if users.len() == 0 {
        false
    } else {
        track_all_changes(c, users.drop_last(), forks, frozen, submodules) || track_step_changes(
            track_all(c, users.drop_last(), forks, frozen, submodules),
            users.last(),
            forks,
            frozen,
            submodules,
        )
    }
}

/// What tracking one account did: what `add_user` reported, and the pins it
/// dropped because the account now covers them.
pub struct AccountAdded {
    pub notes: Vec<UserNote>,
    pub unpinned: Vec<String>,
}

/// `rep` is what tracking `user` reports, starting from `c`.
pub open spec fn report_of(
    rep: AccountAdded,
    c: ConfigView,
    user: Seq<char>,
    forks: bool,
    frozen: bool,
    submodules: Option<bool>,
) -> bool {
    &&& rep.notes@ == add_user_notes(c.track, user, forks, frozen, submodules)
    &&& strings_view(rep.unpinned@) == pins_owned_by(
        add_user_spec(c, user, forks, frozen, submodules),
        user,
    )
}

/// Tracks each of `users` in turn with the given options; the pins of each
/// account are dropped, as the account now covers them. Returns whether the
/// configuration changed and what happened for each account.
pub fn add(
    config: &mut Config,
    users: &Vec<String>,
    forks: bool,
    frozen: bool,
    submodules: Option<bool>,
) -> (r: (bool, Vec<AccountAdded>))
    ensures
        old(config).well_formed() ==> final(config).well_formed(),
        final(config)@ == track_all(old(config)@, strings_view(users@), forks, frozen, submodules),
        r.0 == track_all_changes(old(config)@, strings_view(users@), forks, frozen, submodules),
        r.1.len() == users.len(),
        forall|j: int|
            0 <= j < users.len() ==> report_of(
                #[trigger] r.1@[j],
                track_all(old(config)@, strings_view(users@).take(j), forks, frozen, submodules),
                strings_view(users@)[j],
                forks,
                frozen,
                submodules,
            ),
{
    let ghost us = strings_view(users@);
    let mut changed = false;
    let mut reports: Vec<AccountAdded> = Vec::new();
    let mut i: usize = 0;
    while i < users.len()
        invariant
            old(config).well_formed() ==> config.well_formed(),
            us == strings_view(users@),
            i <= users.len(),
            config@ == track_all(old(config)@, us.take(i as int), forks, frozen, submodules),
            changed == track_all_changes(old(config)@, us.take(i as int), forks, frozen, submodules),
            reports.len() == i,
            forall|j: int|
                0 <= j < i ==> report_of(
                    #[trigger] reports@[j],
                    track_all(old(config)@, us.take(j), forks, frozen, submodules),
                    us[j],
                    forks,
                    frozen,
                    submodules,
                ),
        decreases users.len() - i,
    {
        let user = users[i].as_str();
        let (added, notes) = config.add_user_noted(user, forks, frozen, submodules);
        let unpinned = config.remove_pins_for_user(user);
        proof {
            assert(us.take(i + 1).drop_last() =~= us.take(i as int));
        }
        if added || unpinned.len() > 0 {
            changed = true;
        }
        let ghost before = reports@;
        reports.push(AccountAdded { notes, unpinned });
        proof {
            assert forall|j: int| 0 <= j < i + 1 implies report_of(
                #[trigger] reports@[j],
                track_all(old(config)@, us.take(j), forks, frozen, submodules),
                us[j],
                forks,
                frozen,
                submodules,
            ) by {
                if j < i {
                    assert(reports@[j] == before[j]);
                }
            }
        }
        i = i + 1;
    }
    proof {
        assert(us.take(i as int) =~= us);
    }
    (changed, reports)
}

// ---------------------------------------------------------------------------
// `add user/repo`
// ---------------------------------------------------------------------------

/// What to do with a `user/repo` argument before asking GitHub about it.
pub enum PinPrecheck {
    /// Its owner is tracked in full (under this spelling); the repository's
    /// name is given.
    Covered { account: String, name: String },
    /// It is already pinned, under this spelling.
    AlreadyPinned { existing: String },
    /// Look it up on GitHub.
    Lookup { user: String, name: String },
}

/// `i` is the first pin named `repo` up to ASCII case.
pub open spec fn is_first_pin_ignoring_case(c: ConfigView, repo: Seq<char>, i: int) -> bool {
    &&& 0 <= i < c.pinned.len()
    &&& eq_ignore_case(c.pinned[i].full_name, repo)
    &&& forall|j: int| 0 <= j < i ==> !eq_ignore_case(#[trigger] c.pinned[j].full_name, repo)
}

pub open spec fn skipped_ignoring_case(c: ConfigView, repo: Seq<char>) -> bool {
    exists|x: Seq<char>| #[trigger] c.skipped.contains(x) && eq_ignore_case(x, repo)
}

/// Whether some skipped repository matches `repo` up to ASCII case.
fn is_skipped_ignoring_case(config: &Config, repo: &str) -> (r: bool)
    ensures
        r == skipped_ignoring_case(config@, repo@),
{
    let mut i: usize = 0;
    while i < config.skipped.len()
        invariant
            i <= config.skipped.len(),
            forall|j: int|
                0 <= j < i ==> !eq_ignore_case(#[trigger] strings_view(config.skipped@)[j], repo@),
        decreases config.skipped.len() - i,
    {
        if eq_ignore_ascii_case(config.skipped[i].as_str(), repo) {
            proof {
                let x = strings_view(config.skipped@)[i as int];
                assert(config@.skipped.contains(x));
            }
            return true;
        }
        i = i + 1;
    }
    proof {
        if skipped_ignoring_case(config@, repo@) {
            let x = choose|x: Seq<char>| #[trigger] config@.skipped.contains(x) && eq_ignore_case(x, repo@);
            let j = choose|j: int| 0 <= j < strings_view(config.skipped@).len() && strings_view(config.skipped@)[j] == x;
            assert(!eq_ignore_case(strings_view(config.skipped@)[j], repo@));
        }
    }
    false
}

/// Checks a `user/repo` argument before it is looked up: it must be of that
/// form and not skipped (up to ASCII case); an owner tracked in full or an
/// existing pin (both matched up to ASCII case) make the lookup needless.
pub fn pin_precheck(config: &Config, repo_str: &str) -> (r: Result<PinPrecheck, Error>)
    ensures
        !repo_arg_ok(repo_str@) ==> (r matches Err(e) && not_repo_format(e, repo_str@)),
        repo_arg_ok(repo_str@) ==> {
            let (user, name) = split_first(repo_str@, '/').unwrap();
            match find_user(config@.track, user) {
                Some(i) => r matches Ok(PinPrecheck::Covered { account, name: n }) && account@
                    == config@.track[i].name && n@ == name,
                None => if exists|i: int| is_first_pin_ignoring_case(config@, repo_str@, i) {
                    r matches Ok(PinPrecheck::AlreadyPinned { existing }) && exists|i: int|
                        is_first_pin_ignoring_case(config@, repo_str@, i) && existing@
                            == config@.pinned[i].full_name
                } else if skipped_ignoring_case(config@, repo_str@) {
                    r matches Err(Error::RepoSkipped { repo }) && repo@ == repo_str@
                } else {
                    r matches Ok(PinPrecheck::Lookup { user: u, name: n }) && u@ == user && n@
                        == name
                },
            }
        },
{
    let (user, name) = match parse_repo_arg(repo_str) {
        Err(e) => return Err(e),
        Ok(p) => p,
    };
    match config.find_user_index(user) {
        Some(i) => {
            return Ok(PinPrecheck::Covered { account: config.track[i].name.clone(), name: name.to_owned() });
        },
        None => {},
    }
    let ghost parts = split_first(repo_str@, '/').unwrap();
    let mut i: usize = 0;
    while i < config.pinned.len()
        invariant
            i <= config.pinned.len(),
            repo_arg_ok(repo_str@),
            parts == split_first(repo_str@, '/').unwrap(),
            find_user(config@.track, parts.0) is None,
            forall|j: int|
                0 <= j < i ==> !eq_ignore_case(#[trigger] config@.pinned[j].full_name, repo_str@),
        decreases config.pinned.len() - i,
    {
        if eq_ignore_ascii_case(config.pinned[i].full_name.as_str(), repo_str) {
            let existing = config.pinned[i].full_name.clone();
            proof {
                assert(config@.pinned[i as int].full_name == config.pinned@[i as int].full_name@);
                assert(is_first_pin_ignoring_case(config@, repo_str@, i as int));
                assert(existing@ == config@.pinned[i as int].full_name);
                assert(find_user(config@.track, split_first(repo_str@, '/').unwrap().0) is None);
            }
            return Ok(PinPrecheck::AlreadyPinned { existing });
        }
        i = i + 1;
    }
    proof {
        if exists|k: int| is_first_pin_ignoring_case(config@, repo_str@, k) {
            let k = choose|k: int| is_first_pin_ignoring_case(config@, repo_str@, k);
            assert(!eq_ignore_case(config@.pinned[k].full_name, repo_str@));
        }
    }
    if is_skipped_ignoring_case(config, repo_str) {
        return Err(Error::RepoSkipped { repo: repo_str.to_owned() });
    }
    Ok(PinPrecheck::Lookup { user: user.to_owned(), name: name.to_owned() })
}

/// Pins a repository under the name GitHub gave it, with its id and
/// submodules override, unless it is already pinned (`Ok(false)`) or skipped
/// up to ASCII case (an error).
pub fn pin_resolved(
    config: &mut Config,
    full_name: &str,
    id: Option<u64>,
    submodules: Option<bool>,
) -> (r: Result<bool, Error>)
    ensures
        old(config).well_formed() ==> final(config).well_formed(),
        is_pinned_spec(old(config)@, full_name@) ==> r == Ok::<bool, Error>(false) && final(config)@
            == old(config)@,
        !is_pinned_spec(old(config)@, full_name@) && skipped_ignoring_case(old(config)@, full_name@)
            ==> (r matches Err(Error::RepoSkipped { repo }) && repo@ == full_name@) && final(config)@
            == old(config)@,
        !is_pinned_spec(old(config)@, full_name@) && !skipped_ignoring_case(old(config)@, full_name@)
            ==> r == Ok::<bool, Error>(true) && final(config)@ == pin_spec(
            old(config)@,
            full_name@,
            id,
            submodules,
        ),
{
    if config.is_pinned(full_name) {
        return Ok(false);
    }
    if is_skipped_ignoring_case(config, full_name) {
        return Err(Error::RepoSkipped { repo: full_name.to_owned() });
    }
    config.pin_repo_with_options(full_name, id, submodules);
    Ok(true)
}

// ---------------------------------------------------------------------------
// `remove`
// ---------------------------------------------------------------------------

/// What `remove` did with one argument.
pub enum RemoveOutcome {
    /// The pin `user/repo` was removed; its parts, where it splits.
    Unpinned { parts: Option<(String, String)> },
    /// The `user/repo` argument was not pinned.
    NotPinned,
    /// An account argument: the accounts dropped (their names as stored;
    /// none where it was not tracked) and the pinned repositories of that
    /// owner, which are unpinned with it.
    Account { names: Vec<String>, unpinned: Vec<String> },
}

/// One step of `remove`: a `user/repo` target is unpinned, anything else is
/// an account that stops being tracked, and whose pinned repositories are
/// unpinned, whether or not the account itself was tracked.
pub open spec fn remove_step(c: ConfigView, target: Seq<char>) -> ConfigView {
    if target.contains('/') {
        unpin_spec(c, target)
    } else {
        remove_pins_spec(remove_user_spec(c, target), target)
    }
}

/// The configuration after removing each of `targets` in turn.
pub open spec fn remove_all(c: ConfigView, targets: Seq<Seq<char>>) -> ConfigView
    decreases targets.len(),
{
    if targets.len() == 0 {
        c
    } else {
        remove_step(remove_all(c, targets.drop_last()), targets.last())
    }
}

/// `o` is what removing `target` from `c` reports.
pub open spec fn outcome_of(o: RemoveOutcome, c: ConfigView, target: Seq<char>) -> bool {
    if target.contains('/') {
        if is_pinned_spec(c, target) {
            o matches RemoveOutcome::Unpinned { parts } && match split_first(target, '/') {
                Some((u, n)) => parts matches Some(p) && p.0@ == u && p.1@ == n,
                None => parts is None,
            }
        } else {
            o is NotPinned
        }
    } else {
        &&& o matches RemoveOutcome::Account { names, unpinned }
        &&& strings_view(names@) == removed_names(c.track, target)
        &&& strings_view(unpinned@) == pins_owned_by(c, target)
    }
}

/// Stops tracking `target`: a `user/repo` argument is unpinned; anything
/// else is an account, matched up to ASCII case.
pub fn remove_target(config: &mut Config, target: &str) -> (r: RemoveOutcome)
    ensures
        old(config).well_formed() ==> final(config).well_formed(),
        final(config)@ == remove_step(old(config)@, target@),
        outcome_of(r, old(config)@, target@),
{
    if contains_char(target, '/') {
        if config.unpin_repo(target) {
            let parts = match split_once_char(target, '/') {
                Some((u, n)) => Some((u.to_owned(), n.to_owned())),
                None => None,
            };
            RemoveOutcome::Unpinned { parts }
        } else {
            RemoveOutcome::NotPinned
        }
    } else {
        let names = config.remove_user_named(target);
        let unpinned = config.remove_pins_for_user(target);
        RemoveOutcome::Account { names, unpinned }
    }
}

/// Whether an outcome of `remove` changed the configuration.
pub open spec fn changes_config(o: RemoveOutcome) -> bool {
    match o {
        RemoveOutcome::Unpinned { .. } => true,
        RemoveOutcome::NotPinned => false,
        RemoveOutcome::Account { names, unpinned } => names.len() > 0 || unpinned.len() > 0,
    }
}

/// Whether any of the outcomes changed the configuration.
pub open spec fn any_changes(s: Seq<RemoveOutcome>) -> bool
    decreases s.len(),
{
    if s.len() == 0 {
        false
    } else {
        any_changes(s.drop_last()) || changes_config(s.last())
    }
}

/// `remove_target` for each of `targets` in turn. Returns whether the
/// configuration changed and each outcome.
pub fn remove(config: &mut Config, targets: &Vec<String>) -> (r: (bool, Vec<RemoveOutcome>))
    ensures
        old(config).well_formed() ==> final(config).well_formed(),
        final(config)@ == remove_all(old(config)@, strings_view(targets@)),
        r.1.len() == targets.len(),
        forall|j: int|
            0 <= j < targets.len() ==> outcome_of(
                #[trigger] r.1@[j],
                remove_all(old(config)@, strings_view(targets@).take(j)),
                strings_view(targets@)[j],
            ),
        r.0 == any_changes(r.1@),
{
    let ghost ts = strings_view(targets@);
    let mut changed = false;
    let mut outcomes: Vec<RemoveOutcome> = Vec::new();
    let mut i: usize = 0;
    while i < targets.len()
        invariant
            old(config).well_formed() ==> config.well_formed(),
            ts == strings_view(targets@),
            i <= targets.len(),
            outcomes.len() == i,
            config@ == remove_all(old(config)@, ts.take(i as int)),
            forall|j: int|
                0 <= j < i ==> outcome_of(
                    #[trigger] outcomes@[j],
                    remove_all(old(config)@, ts.take(j)),
                    ts[j],
                ),
            changed == any_changes(outcomes@),
        decreases targets.len() - i,
    {
        let o = remove_target(config, targets[i].as_str());
        let c = match &o {
            RemoveOutcome::Unpinned { .. } => true,
            RemoveOutcome::NotPinned => false,
            RemoveOutcome::Account { names, unpinned } => names.len() > 0 || unpinned.len() > 0,
        };
        let ghost before = outcomes@;
        outcomes.push(o);
        proof {
            assert(ts.take(i + 1).drop_last() =~= ts.take(i as int));
            assert(outcomes@.drop_last() =~= before);
            assert(changes_config(outcomes@[i as int]) == c);
            assert forall|j: int| 0 <= j < i + 1 implies outcome_of(
                #[trigger] outcomes@[j],
                remove_all(old(config)@, ts.take(j)),
                ts[j],
            ) by {
                if j < i {
                    assert(outcomes@[j] == before[j]);
                }
            }
        }
        if c {
            changed = true;
        }
        i = i + 1;
    }
    proof {
        assert(ts.take(i as int) =~= ts);
    }
    (changed, outcomes)
}

} // verus!
