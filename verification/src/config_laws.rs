//! What holds of the configuration across its operations: skipping and
//! unskipping, pinning, renaming and unpinning, tracking and untracking.
use vstd::prelude::*;

use crate::config::{
    add_user_changes, add_user_spec, added_track, entry_changes, find_pin, find_user, has_user,
    is_first_pin, is_first_user_match, is_pinned_spec, lemma_find_pin_first, lemma_find_user_first,
    merged_entry, name_key, owned_by, pin_spec, pinned_id_spec, pinned_submodules_spec,
    remove_pins_spec, remove_user_spec, rename_pin_spec, skip_spec, sort_users_spec, unpin_spec,
    unskip_spec, ConfigView, PinnedRepoView, TrackedUserView,
};
use crate::sorting::{law_stable_sort_same_elements, lemma_stable_sort_no_duplicates};
use crate::text::{is_first_index, lemma_split_first_at, lemma_eq_ignore_case_refl, lemma_eq_ignore_case_symm, lemma_eq_ignore_case_trans, eq_ignore_case};
use crate::track::{remove_step, track_step};

verus! {

// ---------------------------------------------------------------------------
// Skipping
// ---------------------------------------------------------------------------

/// Skipping a repository marks it as skipped and leaves every other
/// repository as it was.
pub proof fn law_skip_marks_only_that_repo(c: ConfigView, name: Seq<char>, other: Seq<char>)
    requires
        other != name,
    ensures
        skip_spec(c, name).skipped.contains(name),
        skip_spec(c, name).skipped.contains(other) == c.skipped.contains(other),
{
}

/// Skipping a repository twice is the same as skipping it once.
pub proof fn law_skip_idempotent(c: ConfigView, name: Seq<char>)
    ensures
        skip_spec(skip_spec(c, name), name) == skip_spec(c, name),
{
    assert(skip_spec(skip_spec(c, name), name).skipped =~= skip_spec(c, name).skipped);
}

/// After unskipping a repository it is not skipped.
pub proof fn law_unskip_clears(c: ConfigView, name: Seq<char>)
    ensures
        !unskip_spec(c, name).skipped.contains(name),
{
}

/// Unskipping a repository that was newly skipped gives back the
/// configuration as it was before.
pub proof fn law_unskip_undoes_skip(c: ConfigView, name: Seq<char>)
    requires
        !c.skipped.contains(name),
    ensures
        unskip_spec(skip_spec(c, name), name) == c,
{
    assert(unskip_spec(skip_spec(c, name), name).skipped =~= c.skipped);
}

// ---------------------------------------------------------------------------
// Pinning
// ---------------------------------------------------------------------------

/// No repository is pinned twice.
pub open spec fn pins_distinct(c: ConfigView) -> bool {
    forall|i: int, j: int|
        0 <= i < j < c.pinned.len() ==> (#[trigger] c.pinned[i]).full_name != (
        #[trigger] c.pinned[j]).full_name
}

/// A pinned repository is pinned; a new pin carries the id and the
/// submodules override it was given; pinning what is already pinned
/// changes nothing.
pub proof fn law_pin_then_lookup(c: ConfigView, name: Seq<char>, id: Option<u64>, sm: Option<bool>)
    ensures
        is_pinned_spec(pin_spec(c, name, id, sm), name),
        !is_pinned_spec(c, name) ==> pinned_id_spec(pin_spec(c, name, id, sm), name) == id
            && pinned_submodules_spec(pin_spec(c, name, id, sm), name) == sm,
        is_pinned_spec(c, name) ==> pin_spec(c, name, id, sm) == c,
{
    if !is_pinned_spec(c, name) {
        let p = pin_spec(c, name, id, sm).pinned;
        let n = c.pinned.len() as int;
        assert(p[n].full_name == name);
        assert forall|j: int| 0 <= j < n implies (#[trigger] p[j]).full_name != name by {
            assert(p[j] == c.pinned[j]);
        }
        assert(is_first_pin(p, name, n));
        lemma_find_pin_first(p, name, n);
    }
}

/// Pinning the same repository twice is the same as pinning it once.
pub proof fn law_pin_idempotent(
    c: ConfigView,
    name: Seq<char>,
    id: Option<u64>,
    sm: Option<bool>,
    id2: Option<u64>,
    sm2: Option<bool>,
)
    ensures
        pin_spec(pin_spec(c, name, id, sm), name, id2, sm2) == pin_spec(c, name, id, sm),
{
    law_pin_then_lookup(c, name, id, sm);
    law_pin_then_lookup(pin_spec(c, name, id, sm), name, id2, sm2);
}

/// Filtering a list by a predicate that all its elements meet keeps it whole.
proof fn lemma_filter_keeps_all<A>(s: Seq<A>, pred: spec_fn(A) -> bool)
    requires
        forall|i: int| 0 <= i < s.len() ==> pred(#[trigger] s[i]),
    ensures
        s.filter(pred) == s,
    decreases s.len(),
{
    if s.len() == 0 {
        reveal(Seq::filter);
        assert(s.filter(pred) =~= s);
    } else {
        let d = s.drop_last();
        assert forall|i: int| 0 <= i < d.len() implies pred(#[trigger] d[i]) by {
            assert(d[i] == s[i]);
        }
        lemma_filter_keeps_all(d, pred);
        assert(s =~= d.push(s.last()));
        d.lemma_filter_push(s.last(), pred);
    }
}

/// Unpinning a repository leaves it unpinned and unpins nothing else.
pub proof fn law_unpin_only_that_repo(c: ConfigView, name: Seq<char>, other: Seq<char>)
    requires
        other != name,
    ensures
        !is_pinned_spec(unpin_spec(c, name), name),
        is_pinned_spec(unpin_spec(c, name), other) == is_pinned_spec(c, other),
{
    let pred = |p: PinnedRepoView| p.full_name != name;
    let f = c.pinned.filter(pred);
    assert(unpin_spec(c, name).pinned == f);
    if is_pinned_spec(unpin_spec(c, name), name) {
        let i = choose|i: int| 0 <= i < f.len() && #[trigger] f[i].full_name == name;
        c.pinned.lemma_filter_pred(pred, i);
    }
    if is_pinned_spec(c, other) {
        let j = choose|j: int| 0 <= j < c.pinned.len() && #[trigger] c.pinned[j].full_name == other;
        c.pinned.lemma_filter_contains(pred, j);
        let k = choose|k: int| 0 <= k < f.len() && f[k] == c.pinned[j];
        assert(f[k].full_name == other);
    }
    if is_pinned_spec(unpin_spec(c, name), other) {
        let k = choose|k: int| 0 <= k < f.len() && #[trigger] f[k].full_name == other;
        assert(f.contains(f[k]));
        c.pinned.lemma_filter_contains_rev(pred, f[k]);
        let j = choose|j: int| 0 <= j < c.pinned.len() && c.pinned[j] == f[k];
        assert(c.pinned[j].full_name == other);
    }
}

/// Unpinning a newly pinned repository gives back the configuration as it
/// was before.
pub proof fn law_unpin_undoes_pin(c: ConfigView, name: Seq<char>, id: Option<u64>, sm: Option<bool>)
    requires
        !is_pinned_spec(c, name),
    ensures
        unpin_spec(pin_spec(c, name, id, sm), name) == c,
{
    let pred = |p: PinnedRepoView| p.full_name != name;
    let x = PinnedRepoView { full_name: name, id, submodules: sm };
    assert(pin_spec(c, name, id, sm).pinned == c.pinned.push(x));
    c.pinned.lemma_filter_push(x, pred);
    assert forall|i: int| 0 <= i < c.pinned.len() implies pred(#[trigger] c.pinned[i]) by {
        if c.pinned[i].full_name == name {
            assert(is_pinned_spec(c, name));
        }
    }
    lemma_filter_keeps_all(c.pinned, pred);
    assert(unpin_spec(pin_spec(c, name, id, sm), name) =~= c);
}

/// Renaming a pin to a name not yet pinned moves it, with its id and
/// submodules override, to the new name; where every repository is pinned
/// at most once, the old name is then no longer pinned.
pub proof fn law_rename_pin_keeps_id(c: ConfigView, old_name: Seq<char>, new_name: Seq<char>)
    requires
        is_pinned_spec(c, old_name),
        !is_pinned_spec(c, new_name),
    ensures
        is_pinned_spec(rename_pin_spec(c, old_name, new_name), new_name),
        pinned_id_spec(rename_pin_spec(c, old_name, new_name), new_name) == pinned_id_spec(c, old_name),
        pinned_submodules_spec(rename_pin_spec(c, old_name, new_name), new_name)
            == pinned_submodules_spec(c, old_name),
        pins_distinct(c) ==> !is_pinned_spec(rename_pin_spec(c, old_name, new_name), old_name),
{
    let i = lemma_first_pin_exists(c.pinned, old_name);
    lemma_find_pin_first(c.pinned, old_name, i);
    let r = rename_pin_spec(c, old_name, new_name);
    assert(r.pinned[i].full_name == new_name);
    assert forall|j: int| 0 <= j < i implies (#[trigger] r.pinned[j]).full_name != new_name by {
        assert(r.pinned[j] == c.pinned[j]);
        assert(c.pinned[j].full_name != new_name);
    }
    assert(is_first_pin(r.pinned, new_name, i));
    lemma_find_pin_first(r.pinned, new_name, i);
    if pins_distinct(c) && is_pinned_spec(r, old_name) {
        let k = choose|k: int| 0 <= k < r.pinned.len() && #[trigger] r.pinned[k].full_name == old_name;
        assert(k != i);
        assert(r.pinned[k] == c.pinned[k]);
        if k < i {
            assert(c.pinned[k].full_name != c.pinned[i].full_name);
        } else {
            assert(c.pinned[i].full_name != c.pinned[k].full_name);
        }
    }
}

/// A repository that is pinned has a first pin of that name.
proof fn lemma_first_pin_exists(pins: Seq<PinnedRepoView>, name: Seq<char>) -> (i: int)
    requires
        exists|j: int| 0 <= j < pins.len() && #[trigger] pins[j].full_name == name,
    ensures
        is_first_pin(pins, name, i),
{
    let j = choose|j: int| 0 <= j < pins.len() && #[trigger] pins[j].full_name == name;
    lemma_first_pin_below(pins, name, j)
}

proof fn lemma_first_pin_below(pins: Seq<PinnedRepoView>, name: Seq<char>, n: int) -> (i: int)
    requires
        0 <= n < pins.len(),
        pins[n].full_name == name,
    ensures
        is_first_pin(pins, name, i),
    decreases n,
{
    if exists|j: int| 0 <= j < n && #[trigger] pins[j].full_name == name {
        let j = choose|j: int| 0 <= j < n && #[trigger] pins[j].full_name == name;
        lemma_first_pin_below(pins, name, j)
    } else {
        n
    }
}

/// Filtering keeps pin names distinct.
proof fn lemma_filter_pins_distinct(s: Seq<PinnedRepoView>, pred: spec_fn(PinnedRepoView) -> bool)
    requires
        forall|i: int, j: int|
            0 <= i < j < s.len() ==> (#[trigger] s[i]).full_name != (#[trigger] s[j]).full_name,
    ensures
        ({
            let f = s.filter(pred);
            forall|i: int, j: int|
                0 <= i < j < f.len() ==> (#[trigger] f[i]).full_name != (#[trigger] f[j]).full_name
        }),
    decreases s.len(),
{
    if s.len() == 0 {
        reveal(Seq::filter);
    } else {
        let d = s.drop_last();
        let x = s.last();
        assert forall|i: int, j: int|
            0 <= i < j < d.len() implies (#[trigger] d[i]).full_name != (#[trigger] d[j]).full_name by {
            assert(d[i] == s[i] && d[j] == s[j]);
        }
        lemma_filter_pins_distinct(d, pred);
        assert(s =~= d.push(x));
        d.lemma_filter_push(x, pred);
        let fd = d.filter(pred);
        if pred(x) {
            let f = fd.push(x);
            assert forall|i: int, j: int|
                0 <= i < j < f.len() implies (#[trigger] f[i]).full_name != (#[trigger] f[j]).full_name by {
                if j == fd.len() {
                    assert(fd.contains(f[i]));
                    d.lemma_filter_contains_rev(pred, f[i]);
                    let k = choose|k: int| 0 <= k < d.len() && d[k] == f[i];
                    assert(s[k] == f[i]);
                    assert(s[s.len() - 1] == x);
                } else {
                    assert(f[i] == fd[i] && f[j] == fd[j]);
                }
            }
        }
    }
}

/// Pinning, unpinning, dropping an account's pins and renaming a pin to a
/// name not yet pinned each keep every repository pinned at most once.
pub proof fn law_pins_stay_distinct(
    c: ConfigView,
    name: Seq<char>,
    id: Option<u64>,
    sm: Option<bool>,
    user: Seq<char>,
    old_name: Seq<char>,
    new_name: Seq<char>,
)
    requires
        pins_distinct(c),
    ensures
        pins_distinct(pin_spec(c, name, id, sm)),
        pins_distinct(unpin_spec(c, name)),
        pins_distinct(remove_pins_spec(c, user)),
        !is_pinned_spec(c, new_name) ==> pins_distinct(rename_pin_spec(c, old_name, new_name)),
{
    let p = pin_spec(c, name, id, sm);
    if !is_pinned_spec(c, name) {
        assert forall|i: int, j: int|
            0 <= i < j < p.pinned.len() implies (#[trigger] p.pinned[i]).full_name != (
            #[trigger] p.pinned[j]).full_name by {
            assert(p.pinned[i] == c.pinned[i]);
            if j < c.pinned.len() {
                assert(p.pinned[j] == c.pinned[j]);
            }
        }
    }
    lemma_filter_pins_distinct(c.pinned, |q: PinnedRepoView| q.full_name != name);
    lemma_filter_pins_distinct(c.pinned, |q: PinnedRepoView| !owned_by(q.full_name, user));
    if !is_pinned_spec(c, new_name) {
        let r = rename_pin_spec(c, old_name, new_name);
        if is_pinned_spec(c, old_name) {
            let k = lemma_first_pin_exists(c.pinned, old_name);
            lemma_find_pin_first(c.pinned, old_name, k);
            assert forall|i: int, j: int|
                0 <= i < j < r.pinned.len() implies (#[trigger] r.pinned[i]).full_name != (
                #[trigger] r.pinned[j]).full_name by {
                if i == k {
                    assert(r.pinned[j] == c.pinned[j]);
                    assert(c.pinned[j].full_name != new_name);
                } else if j == k {
                    assert(r.pinned[i] == c.pinned[i]);
                    assert(c.pinned[i].full_name != new_name);
                } else {
                    assert(r.pinned[i] == c.pinned[i] && r.pinned[j] == c.pinned[j]);
                }
            }
        } else {
            assert(find_pin(c.pinned, old_name) is None);
        }
    }
}

/// Dropping an account's pins leaves none of its pins and keeps every other.
pub proof fn law_remove_pins_for_user(c: ConfigView, user: Seq<char>, name: Seq<char>)
    ensures
        is_pinned_spec(remove_pins_spec(c, user), name) == (is_pinned_spec(c, name) && !owned_by(
            name,
            user,
        )),
{
    let pred = |p: PinnedRepoView| !owned_by(p.full_name, user);
    let f = c.pinned.filter(pred);
    assert(remove_pins_spec(c, user).pinned == f);
    if is_pinned_spec(remove_pins_spec(c, user), name) {
        let k = choose|k: int| 0 <= k < f.len() && #[trigger] f[k].full_name == name;
        c.pinned.lemma_filter_pred(pred, k);
        assert(f.contains(f[k]));
        c.pinned.lemma_filter_contains_rev(pred, f[k]);
        let j = choose|j: int| 0 <= j < c.pinned.len() && c.pinned[j] == f[k];
        assert(c.pinned[j].full_name == name);
    }
    if is_pinned_spec(c, name) && !owned_by(name, user) {
        let j = choose|j: int| 0 <= j < c.pinned.len() && #[trigger] c.pinned[j].full_name == name;
        c.pinned.lemma_filter_contains(pred, j);
        let k = choose|k: int| 0 <= k < f.len() && f[k] == c.pinned[j];
        assert(f[k].full_name == name);
    }
}

/// The owner of a pinned repository `u/n` is the whole part `u` before the
/// slash: the pin belongs to account `v` exactly when `u` and `v` match up to
/// ASCII case, so tracking `v` drops it then and only then.
pub proof fn law_owner_is_whole_part_before_slash(
    c: ConfigView,
    u: Seq<char>,
    n: Seq<char>,
    v: Seq<char>,
    forks: bool,
    frozen: bool,
    sm: Option<bool>,
)
    requires
        !u.contains('/'),
    ensures
        owned_by(u + seq!['/'] + n, v) == eq_ignore_case(u, v),
        is_pinned_spec(c, u + seq!['/'] + n) ==> (is_pinned_spec(
            track_step(c, v, forks, frozen, sm),
            u + seq!['/'] + n,
        ) == !eq_ignore_case(u, v)),
{
    let s = u + seq!['/'] + n;
    let i = u.len() as int;
    assert(s[i] == '/');
    assert(s.take(i) =~= u);
    assert(s.skip(i + 1) =~= n);
    assert(is_first_index(s, '/', i));
    lemma_split_first_at(s, '/', i);
    law_tracking_covers_pins(c, v, forks, frozen, sm, s);
}

// ---------------------------------------------------------------------------
// Tracking accounts
// ---------------------------------------------------------------------------

/// Tracking an account drops every pin it owns, as the account now covers
/// them, and keeps the pins of other owners.
pub proof fn law_tracking_covers_pins(
    c: ConfigView,
    user: Seq<char>,
    forks: bool,
    frozen: bool,
    sm: Option<bool>,
    name: Seq<char>,
)
    ensures
        is_pinned_spec(track_step(c, user, forks, frozen, sm), name) == (is_pinned_spec(c, name)
            && !owned_by(name, user)),
{
    let a = add_user_spec(c, user, forks, frozen, sm);
    assert(a.pinned == c.pinned);
    law_remove_pins_for_user(a, user, name);
}

/// Where a list has an account matching `user`, it has a first one.
proof fn lemma_first_user_below(track: Seq<TrackedUserView>, user: Seq<char>, n: int) -> (i: int)
    requires
        0 <= n < track.len(),
        eq_ignore_case(track[n].name, user),
    ensures
        is_first_user_match(track, user, i),
    decreases n,
{
    if exists|j: int| 0 <= j < n && eq_ignore_case(#[trigger] track[j].name, user) {
        let j = choose|j: int| 0 <= j < n && eq_ignore_case(#[trigger] track[j].name, user);
        lemma_first_user_below(track, user, j)
    } else {
        n
    }
}

/// What `find_user` finds, where there is a match.
proof fn lemma_find_user_found(track: Seq<TrackedUserView>, user: Seq<char>) -> (i: int)
    requires
        has_user(track, user),
    ensures
        find_user(track, user) == Some(i),
        is_first_user_match(track, user, i),
{
    let n = choose|n: int| 0 <= n < track.len() && eq_ignore_case(#[trigger] track[n].name, user);
    let i = lemma_first_user_below(track, user, n);
    lemma_find_user_first(track, user, i);
    i
}

/// The entry that `add_user` leaves for `user`.
pub open spec fn added_entry(
    track: Seq<TrackedUserView>,
    user: Seq<char>,
    forks: bool,
    frozen: bool,
    sm: Option<bool>,
) -> TrackedUserView {
    match find_user(track, user) {
        Some(i) => merged_entry(track[i], user, forks, frozen, sm),
        None => TrackedUserView { name: user, forks, frozen, id: None, submodules: sm },
    }
}

/// No two accounts share a name up to ASCII case.
pub open spec fn names_distinct(track: Seq<TrackedUserView>) -> bool {
    forall|i: int, j: int|
        0 <= i < j < track.len() ==> !eq_ignore_case(
            (#[trigger] track[i]).name,
            (#[trigger] track[j]).name,
        )
}

/// Before sorting, the entry `add_user` leaves is the only account of the
/// list that matches `user`, where the existing names were distinct or no
/// change was needed.
proof fn lemma_added_track_only_match(
    track: Seq<TrackedUserView>,
    user: Seq<char>,
    forks: bool,
    frozen: bool,
    sm: Option<bool>,
    x: TrackedUserView,
)
    requires
        names_distinct(track),
        added_track(track, user, forks, frozen, sm).contains(x),
        eq_ignore_case(x.name, user),
    ensures
        x == added_entry(track, user, forks, frozen, sm),
{
    let t = added_track(track, user, forks, frozen, sm);
    let k = choose|k: int| 0 <= k < t.len() && t[k] == x;
    if has_user(track, user) {
        let i = lemma_find_user_found(track, user);
        if k != i {
            assert(t[k] == track[k]);
            lemma_eq_ignore_case_symm(track[i].name, user);
            lemma_eq_ignore_case_trans(track[k].name, user, track[i].name);
            if k < i {
                assert(!eq_ignore_case(track[k].name, track[i].name));
            } else {
                lemma_eq_ignore_case_symm(track[k].name, track[i].name);
                assert(!eq_ignore_case(track[i].name, track[k].name));
            }
        }
    } else {
        if k < track.len() {
            assert(t[k] == track[k]);
            assert(has_user(track, user));
        }
    }
}

/// After adding an account it is tracked, under the given spelling and with
/// the given options: forks included if asked, frozen as asked, the
/// submodules override where one is given.
pub proof fn law_add_user_tracks(
    c: ConfigView,
    user: Seq<char>,
    forks: bool,
    frozen: bool,
    sm: Option<bool>,
)
    ensures
        has_user(add_user_spec(c, user, forks, frozen, sm).track, user),
        add_user_spec(c, user, forks, frozen, sm).track.contains(
            added_entry(c.track, user, forks, frozen, sm),
        ),
        ({
            let e = added_entry(c.track, user, forks, frozen, sm);
            &&& e.name == user
            &&& forks ==> e.forks
            &&& e.frozen == frozen
            &&& sm is Some ==> e.submodules == sm
        }),
{
    let e = added_entry(c.track, user, forks, frozen, sm);
    let t = added_track(c.track, user, forks, frozen, sm);
    let r = add_user_spec(c, user, forks, frozen, sm).track;
    lemma_eq_ignore_case_refl(user);
    if has_user(c.track, user) {
        let i = lemma_find_user_found(c.track, user);
        assert(t[i] == e);
        if add_user_changes(c.track, user, forks, frozen, sm) {
            law_stable_sort_same_elements(t, name_key(), e);
        } else {
            assert(!entry_changes(c.track[i], user, forks, frozen, sm));
            assert(c.track[i] == e);
            assert(r[i] == e);
        }
    } else {
        assert(t[c.track.len() as int] == e);
        law_stable_sort_same_elements(t, name_key(), e);
    }
    assert(r.contains(e));
    let m = choose|m: int| 0 <= m < r.len() && r[m] == e;
    assert(eq_ignore_case(r[m].name, user));
}

/// Adding an account a second time with the same options changes nothing,
/// where no two accounts shared a name up to ASCII case.
pub proof fn law_add_user_idempotent(
    c: ConfigView,
    user: Seq<char>,
    forks: bool,
    frozen: bool,
    sm: Option<bool>,
)
    requires
        names_distinct(c.track),
    ensures
        !add_user_changes(add_user_spec(c, user, forks, frozen, sm).track, user, forks, frozen, sm),
        add_user_spec(add_user_spec(c, user, forks, frozen, sm), user, forks, frozen, sm)
            == add_user_spec(c, user, forks, frozen, sm),
{
    let c1 = add_user_spec(c, user, forks, frozen, sm);
    let e = added_entry(c.track, user, forks, frozen, sm);
    law_add_user_tracks(c, user, forks, frozen, sm);
    let m = lemma_find_user_found(c1.track, user);
    if add_user_changes(c.track, user, forks, frozen, sm) {
        let t = added_track(c.track, user, forks, frozen, sm);
        let x = c1.track[m];
        assert(c1.track.contains(x));
        law_stable_sort_same_elements(t, name_key(), x);
        lemma_added_track_only_match(c.track, user, forks, frozen, sm, x);
        assert(x == e);
        assert(!entry_changes(x, user, forks, frozen, sm));
    } else {
        let i = lemma_find_user_found(c.track, user);
        assert(m == i);
    }
}

/// Filtering keeps account names distinct up to ASCII case.
proof fn lemma_filter_names_distinct(s: Seq<TrackedUserView>, pred: spec_fn(TrackedUserView) -> bool)
    requires
        names_distinct(s),
    ensures
        names_distinct(s.filter(pred)),
    decreases s.len(),
{
    if s.len() == 0 {
        reveal(Seq::filter);
    } else {
        let d = s.drop_last();
        let x = s.last();
        assert forall|i: int, j: int| 0 <= i < j < d.len() implies !eq_ignore_case(
            (#[trigger] d[i]).name,
            (#[trigger] d[j]).name,
        ) by {
            assert(d[i] == s[i] && d[j] == s[j]);
        }
        lemma_filter_names_distinct(d, pred);
        assert(s =~= d.push(x));
        d.lemma_filter_push(x, pred);
        let fd = d.filter(pred);
        if pred(x) {
            let f = fd.push(x);
            assert forall|i: int, j: int| 0 <= i < j < f.len() implies !eq_ignore_case(
                (#[trigger] f[i]).name,
                (#[trigger] f[j]).name,
            ) by {
                if j == fd.len() {
                    assert(fd.contains(f[i]));
                    d.lemma_filter_contains_rev(pred, f[i]);
                    let k = choose|k: int| 0 <= k < d.len() && d[k] == f[i];
                    assert(s[k] == f[i]);
                    assert(s[s.len() - 1] == x);
                } else {
                    assert(f[i] == fd[i] && f[j] == fd[j]);
                }
            }
        }
    }
}

/// Names distinct up to ASCII case means no entry occurs twice.
proof fn lemma_names_distinct_no_duplicates(s: Seq<TrackedUserView>)
    requires
        names_distinct(s),
    ensures
        s.no_duplicates(),
{
    assert forall|i: int, j: int| 0 <= i < s.len() && 0 <= j < s.len() && i != j implies s[i]
        != s[j] by {
        lemma_eq_ignore_case_refl(s[i].name);
        if i < j {
            assert(!eq_ignore_case(s[i].name, s[j].name));
        } else {
            assert(!eq_ignore_case(s[j].name, s[i].name));
        }
    }
}

/// Adding an account keeps names distinct up to ASCII case before sorting.
proof fn lemma_added_track_distinct(
    track: Seq<TrackedUserView>,
    user: Seq<char>,
    forks: bool,
    frozen: bool,
    sm: Option<bool>,
)
    requires
        names_distinct(track),
    ensures
        names_distinct(added_track(track, user, forks, frozen, sm)),
{
    let t = added_track(track, user, forks, frozen, sm);
    if has_user(track, user) {
        let i = lemma_find_user_found(track, user);
        assert forall|a: int, b: int| 0 <= a < b < t.len() implies !eq_ignore_case(
            (#[trigger] t[a]).name,
            (#[trigger] t[b]).name,
        ) by {
            if a == i {
                assert(t[b] == track[b]);
                if eq_ignore_case(user, track[b].name) {
                    lemma_eq_ignore_case_trans(track[i].name, user, track[b].name);
                }
            } else if b == i {
                assert(t[a] == track[a]);
                if eq_ignore_case(track[a].name, user) {
                    lemma_eq_ignore_case_symm(track[i].name, user);
                    lemma_eq_ignore_case_trans(track[a].name, user, track[i].name);
                }
            } else {
                assert(t[a] == track[a] && t[b] == track[b]);
            }
        }
    } else {
        assert forall|a: int, b: int| 0 <= a < b < t.len() implies !eq_ignore_case(
            (#[trigger] t[a]).name,
            (#[trigger] t[b]).name,
        ) by {
            assert(t[a] == track[a]);
            if b < track.len() {
                assert(t[b] == track[b]);
            }
        }
    }
}

/// Adding and removing accounts keep every name distinct up to ASCII case,
/// so account lists built from an empty one by these operations never hold
/// two entries for one account.
pub proof fn law_names_stay_distinct(
    c: ConfigView,
    user: Seq<char>,
    forks: bool,
    frozen: bool,
    sm: Option<bool>,
    other: Seq<char>,
)
    requires
        names_distinct(c.track),
    ensures
        names_distinct(add_user_spec(c, user, forks, frozen, sm).track),
        names_distinct(remove_user_spec(c, other).track),
{
    lemma_filter_names_distinct(c.track, |u: TrackedUserView| !eq_ignore_case(u.name, other));
    if add_user_changes(c.track, user, forks, frozen, sm) {
        let t = added_track(c.track, user, forks, frozen, sm);
        lemma_added_track_distinct(c.track, user, forks, frozen, sm);
        lemma_names_distinct_no_duplicates(t);
        lemma_stable_sort_no_duplicates(t, name_key());
        let r = sort_users_spec(t);
        assert forall|a: int, b: int| 0 <= a < b < r.len() implies !eq_ignore_case(
            (#[trigger] r[a]).name,
            (#[trigger] r[b]).name,
        ) by {
            assert(r[a] != r[b]);
            assert(r.contains(r[a]) && r.contains(r[b]));
            law_stable_sort_same_elements(t, name_key(), r[a]);
            law_stable_sort_same_elements(t, name_key(), r[b]);
            let x = choose|x: int| 0 <= x < t.len() && t[x] == r[a];
            let y = choose|y: int| 0 <= y < t.len() && t[y] == r[b];
            if x < y {
                assert(!eq_ignore_case(t[x].name, t[y].name));
            } else {
                assert(!eq_ignore_case(t[y].name, t[x].name));
                if eq_ignore_case(r[a].name, r[b].name) {
                    lemma_eq_ignore_case_symm(r[a].name, r[b].name);
                }
            }
        }
    }
}

/// After an account is removed, no account matches its name up to ASCII
/// case.
pub proof fn law_remove_user_untracks(c: ConfigView, user: Seq<char>)
    ensures
        !has_user(remove_user_spec(c, user).track, user),
{
    let pred = |u: TrackedUserView| !eq_ignore_case(u.name, user);
    let f = c.track.filter(pred);
    if has_user(f, user) {
        let i = choose|i: int| 0 <= i < f.len() && eq_ignore_case(#[trigger] f[i].name, user);
        c.track.lemma_filter_pred(pred, i);
    }
}

/// Removing a `user/repo` target leaves it unpinned; removing any other
/// target leaves no account of that name, up to ASCII case, and no pinned
/// repository of that owner.
pub proof fn law_remove_target_untracks(c: ConfigView, target: Seq<char>, name: Seq<char>)
    ensures
        target.contains('/') ==> !is_pinned_spec(remove_step(c, target), target),
        !target.contains('/') ==> !has_user(remove_step(c, target).track, target),
        !target.contains('/') && owned_by(name, target) ==> !is_pinned_spec(
            remove_step(c, target),
            name,
        ),
{
    if target.contains('/') {
        law_unpin_only_that_repo(c, target, target.push('/'));
    } else {
        law_remove_user_untracks(c, target);
        law_remove_pins_for_user(remove_user_spec(c, target), target, name);
    }
}

} // verus!
