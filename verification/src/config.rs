//! The configuration: tracked accounts, individually pinned repositories and
//! skipped repositories, with the operations that edit them.
use vstd::prelude::*;

use crate::sorting::{
    group, lemma_insert_sorted, lemma_stable_sort_unique, sorted_by_key, stable_sort, stably_sorted_from,
};
use crate::text::{
    chars_of, eq_ignore_ascii_case, eq_ignore_case, lemma_lex_antisym, lemma_lex_refl, lemma_lex_total,
    lemma_lex_trans, lex_le, split_first, split_once_char, str_le,
};

verus! {

// ---------------------------------------------------------------------------
// Lower-casing, as `str::to_lowercase` does it
// ---------------------------------------------------------------------------

/// What `str::to_lowercase` returns for a string: its Unicode lower-case
/// form. It depends on the characters alone.
pub uninterp spec fn spec_to_lowercase(s: Seq<char>) -> Seq<char>;

/// Calls `str::to_lowercase`. The contract claims only that the result is a
/// function of the characters of `s`, named `spec_to_lowercase`.
#[verifier::external_body]
pub(crate) fn to_lowercase(s: &str) -> (r: String)
    ensures
        r@ == spec_to_lowercase(s@),
{
    s.to_lowercase()
}

// ---------------------------------------------------------------------------
// Types
// ---------------------------------------------------------------------------

/// An account (user or organization) whose repositories are all archived.
pub struct TrackedUser {
    pub name: String,
    pub forks: bool,
    pub frozen: bool,
    /// Stable GitHub account id, used to re-resolve the account if renamed.
    pub id: Option<u64>,
    /// Overrides the global `submodules` default for this account.
    pub submodules: Option<bool>,
}

pub ghost struct TrackedUserView {
    pub name: Seq<char>,
    pub forks: bool,
    pub frozen: bool,
    pub id: Option<u64>,
    pub submodules: Option<bool>,
}

impl View for TrackedUser {
    type V = TrackedUserView;

    open spec fn view(&self) -> TrackedUserView {
        TrackedUserView {
            name: self.name@,
            forks: self.forks,
            frozen: self.frozen,
            id: self.id,
            submodules: self.submodules,
        }
    }
}

impl Clone for TrackedUser {
    fn clone(&self) -> (r: Self)
        ensures
            r@ == self@,
    {
        TrackedUser {
            name: self.name.clone(),
            forks: self.forks,
            frozen: self.frozen,
            id: self.id,
            submodules: self.submodules,
        }
    }
}

impl TrackedUser {
    pub fn with_options(name: &str, forks: bool, frozen: bool) -> (r: Self)
        ensures
            r@ == (TrackedUserView { name: name@, forks, frozen, id: None, submodules: None }),
    {
        TrackedUser { name: name.to_owned(), forks, frozen, id: None, submodules: None }
    }
}

/// A single repository archived on its own, named `owner/name`.
pub struct PinnedRepo {
    pub full_name: String,
    /// Stable GitHub repository id, used to re-resolve the repo if renamed.
    pub id: Option<u64>,
    /// Overrides the global `submodules` default for this pin.
    pub submodules: Option<bool>,
}

pub ghost struct PinnedRepoView {
    pub full_name: Seq<char>,
    pub id: Option<u64>,
    pub submodules: Option<bool>,
}

impl View for PinnedRepo {
    type V = PinnedRepoView;

    open spec fn view(&self) -> PinnedRepoView {
        PinnedRepoView { full_name: self.full_name@, id: self.id, submodules: self.submodules }
    }
}

impl Clone for PinnedRepo {
    fn clone(&self) -> (r: Self)
        ensures
            r@ == self@,
    {
        PinnedRepo { full_name: self.full_name.clone(), id: self.id, submodules: self.submodules }
    }
}

/// The whole configuration. `skipped` holds each skipped `owner/name` at
/// least once; it is read as a set.
pub struct Config {
    pub token: Option<String>,
    pub archive_dir: Option<String>,
    pub use_ssh: bool,
    /// Global default for recursing into submodules on clone/pull.
    pub submodules: bool,
    /// Global default for whether `add` skips cloning right after adding.
    pub no_sync: bool,
    pub track: Vec<TrackedUser>,
    pub skipped: Vec<String>,
    pub pinned: Vec<PinnedRepo>,
}

pub ghost struct ConfigView {
    pub token: Option<Seq<char>>,
    pub archive_dir: Option<Seq<char>>,
    pub use_ssh: bool,
    pub submodules: bool,
    pub no_sync: bool,
    pub track: Seq<TrackedUserView>,
    pub skipped: Set<Seq<char>>,
    pub pinned: Seq<PinnedRepoView>,
}

pub open spec fn opt_view(o: Option<String>) -> Option<Seq<char>> {
    match o {
        Some(s) => Some(s@),
        None => None,
    }
}

pub open spec fn users_view(v: Seq<TrackedUser>) -> Seq<TrackedUserView> {
    v.map_values(|u: TrackedUser| u@)
}

pub open spec fn pins_view(v: Seq<PinnedRepo>) -> Seq<PinnedRepoView> {
    v.map_values(|p: PinnedRepo| p@)
}

pub open spec fn strings_view(v: Seq<String>) -> Seq<Seq<char>> {
    v.map_values(|s: String| s@)
}

impl View for Config {
    type V = ConfigView;

    open spec fn view(&self) -> ConfigView {
        ConfigView {
            token: opt_view(self.token),
            archive_dir: opt_view(self.archive_dir),
            use_ssh: self.use_ssh,
            submodules: self.submodules,
            no_sync: self.no_sync,
            track: users_view(self.track@),
            skipped: strings_view(self.skipped@).to_set(),
            pinned: pins_view(self.pinned@),
        }
    }
}

impl Config {
    /// No skipped repository is listed twice, as none is in the set the
    /// skips stand for.
    pub open spec fn well_formed(&self) -> bool {
        strings_view(self.skipped@).no_duplicates()
    }
}

/// Appending an element not yet present keeps a list free of repeats.
pub proof fn lemma_push_no_duplicates<A>(s: Seq<A>, a: A)
    requires
        s.no_duplicates(),
        !s.contains(a),
    ensures
        s.push(a).no_duplicates(),
{
    assert forall|i: int, j: int| 0 <= i < s.push(a).len() && 0 <= j < s.push(a).len() && i != j implies s.push(a)[i] != s.push(a)[j] by {
        if i == s.len() {
            assert(s[j] == s.push(a)[j]);
        } else if j == s.len() {
            assert(s[i] == s.push(a)[i]);
        }
    }
}

pub open spec fn empty_config() -> ConfigView {
    ConfigView {
        token: None,
        archive_dir: None,
        use_ssh: false,
        submodules: false,
        no_sync: false,
        track: Seq::empty(),
        skipped: Set::empty(),
        pinned: Seq::empty(),
    }
}

impl Default for Config {
    fn default() -> (c: Self)
        ensures
            c@ == empty_config(),
            c.well_formed(),
    {
        let c = Config {
            token: None,
            archive_dir: None,
            use_ssh: false,
            submodules: false,
            no_sync: false,
            track: Vec::new(),
            skipped: Vec::new(),
            pinned: Vec::new(),
        };
        proof {
            assert(users_view(c.track@) =~= Seq::empty());
            assert(pins_view(c.pinned@) =~= Seq::empty());
            assert(strings_view(c.skipped@).to_set() =~= Set::empty());
        }
        c
    }
}

// ---------------------------------------------------------------------------
// Specifications of the operations
// ---------------------------------------------------------------------------

/// The sort key of an account: its lower-cased name.
pub open spec fn user_key(u: TrackedUserView) -> Seq<char> {
    spec_to_lowercase(u.name)
}

/// The sort key of accounts, as a function.
pub open spec fn name_key() -> spec_fn(TrackedUserView) -> Seq<char> {
    |u: TrackedUserView| user_key(u)
}

/// `i` is the first account whose name matches `user` up to ASCII case.
pub open spec fn is_first_user_match(track: Seq<TrackedUserView>, user: Seq<char>, i: int) -> bool {
    &&& 0 <= i < track.len()
    &&& eq_ignore_case(track[i].name, user)
    &&& forall|j: int| 0 <= j < i ==> !eq_ignore_case(#[trigger] track[j].name, user)
}

pub open spec fn has_user(track: Seq<TrackedUserView>, user: Seq<char>) -> bool {
    exists|i: int| 0 <= i < track.len() && eq_ignore_case(#[trigger] track[i].name, user)
}

/// The position of the first account matching `user` up to ASCII case.
pub open spec fn find_user(track: Seq<TrackedUserView>, user: Seq<char>) -> Option<int> {
    if has_user(track, user) {
        Some(choose|i: int| is_first_user_match(track, user, i))
    } else {
        None
    }
}

/// An existing entry after `add_user` has applied its options.
pub open spec fn merged_entry(
    e: TrackedUserView,
    user: Seq<char>,
    forks: bool,
    frozen: bool,
    submodules: Option<bool>,
) -> TrackedUserView {
    TrackedUserView {
        name: user,
        forks: e.forks || forks,
        frozen: frozen,
        id: e.id,
        submodules: if submodules is Some { submodules } else { e.submodules },
    }
}

/// Whether applying the options to an existing entry changes it.
pub open spec fn entry_changes(
    e: TrackedUserView,
    user: Seq<char>,
    forks: bool,
    frozen: bool,
    submodules: Option<bool>,
) -> bool {
    ||| e.name != user
    ||| (forks && !e.forks)
    ||| frozen != e.frozen
    ||| (submodules is Some && e.submodules != submodules)
}

/// The account list after `add_user`, before it is sorted.
pub open spec fn added_track(
    track: Seq<TrackedUserView>,
    user: Seq<char>,
    forks: bool,
    frozen: bool,
    submodules: Option<bool>,
) -> Seq<TrackedUserView> {
    match find_user(track, user) {
        Some(i) => track.update(i, merged_entry(track[i], user, forks, frozen, submodules)),
        None => track.push(
            TrackedUserView { name: user, forks, frozen, id: None, submodules: submodules },
        ),
    }
}

/// Whether `add_user` changes the configuration.
pub open spec fn add_user_changes(
    track: Seq<TrackedUserView>,
    user: Seq<char>,
    forks: bool,
    frozen: bool,
    submodules: Option<bool>,
) -> bool {
    match find_user(track, user) {
        Some(i) => entry_changes(track[i], user, forks, frozen, submodules),
        None => true,
    }
}

/// What `add_user` reports, in the order it reports it.
pub enum UserNote {
    ForksEnabled,
    Frozen,
    Unfrozen,
    Submodules(bool),
    AlreadyTracking,
    NowTracking { forks: bool, frozen: bool },
}

pub open spec fn opt_note(b: bool, n: UserNote) -> Seq<UserNote> {
    if b {
        seq![n]
    } else {
        Seq::empty()
    }
}

pub open spec fn add_user_notes(
    track: Seq<TrackedUserView>,
    user: Seq<char>,
    forks: bool,
    frozen: bool,
    submodules: Option<bool>,
) -> Seq<UserNote> {
    match find_user(track, user) {
        Some(i) => {
            let e = track[i];
            opt_note(forks && !e.forks, UserNote::ForksEnabled) + opt_note(
                frozen && !e.frozen,
                UserNote::Frozen,
            ) + opt_note(!frozen && e.frozen, UserNote::Unfrozen) + opt_note(
                submodules is Some && e.submodules != submodules,
                UserNote::Submodules(submodules.unwrap_or(false)),
            ) + opt_note(
                !entry_changes(e, user, forks, frozen, submodules),
                UserNote::AlreadyTracking,
            )
        },
        None => seq![UserNote::NowTracking { forks, frozen }],
    }
}

/// Whether the pinned repository `full_name` is owned by `user`, comparing
/// owners up to ASCII case.
pub open spec fn owned_by(full_name: Seq<char>, user: Seq<char>) -> bool {
    match split_first(full_name, '/') {
        Some((owner, _)) => eq_ignore_case(owner, user),
        None => false,
    }
}

pub open spec fn pin_names(pins: Seq<PinnedRepoView>) -> Seq<Seq<char>> {
    pins.map_values(|p: PinnedRepoView| p.full_name)
}

pub open spec fn is_pinned_spec(c: ConfigView, full_name: Seq<char>) -> bool {
    exists|i: int| 0 <= i < c.pinned.len() && #[trigger] c.pinned[i].full_name == full_name
}

/// `i` is the first pin named `full_name`.
pub open spec fn is_first_pin(pins: Seq<PinnedRepoView>, full_name: Seq<char>, i: int) -> bool {
    &&& 0 <= i < pins.len()
    &&& pins[i].full_name == full_name
    &&& forall|j: int| 0 <= j < i ==> (#[trigger] pins[j]).full_name != full_name
}

/// The first pin named `full_name`, if any.
pub open spec fn find_pin(pins: Seq<PinnedRepoView>, full_name: Seq<char>) -> Option<int> {
    if exists|i: int| 0 <= i < pins.len() && #[trigger] pins[i].full_name == full_name {
        Some(choose|i: int| is_first_pin(pins, full_name, i))
    } else {
        None
    }
}

pub open spec fn pinned_id_spec(c: ConfigView, full_name: Seq<char>) -> Option<u64> {
    match find_pin(c.pinned, full_name) {
        Some(i) => c.pinned[i].id,
        None => None,
    }
}

pub open spec fn pinned_submodules_spec(c: ConfigView, full_name: Seq<char>) -> Option<bool> {
    match find_pin(c.pinned, full_name) {
        Some(i) => c.pinned[i].submodules,
        None => None,
    }
}

pub open spec fn skip_spec(c: ConfigView, full_name: Seq<char>) -> ConfigView {
    ConfigView { skipped: c.skipped.insert(full_name), ..c }
}

pub open spec fn unskip_spec(c: ConfigView, full_name: Seq<char>) -> ConfigView {
    ConfigView { skipped: c.skipped.remove(full_name), ..c }
}

pub open spec fn pin_spec(
    c: ConfigView,
    full_name: Seq<char>,
    id: Option<u64>,
    submodules: Option<bool>,
) -> ConfigView {
    if is_pinned_spec(c, full_name) {
        c
    } else {
        ConfigView {
            pinned: c.pinned.push(PinnedRepoView { full_name, id, submodules }),
            ..c
        }
    }
}

pub open spec fn unpin_spec(c: ConfigView, full_name: Seq<char>) -> ConfigView {
    ConfigView {
        pinned: c.pinned.filter(|p: PinnedRepoView| p.full_name != full_name),
        ..c
    }
}

pub open spec fn rename_pin_spec(c: ConfigView, old_name: Seq<char>, new_name: Seq<char>) -> ConfigView {
    match find_pin(c.pinned, old_name) {
        Some(i) => ConfigView {
            pinned: c.pinned.update(i, PinnedRepoView { full_name: new_name, ..c.pinned[i] }),
            ..c
        },
        None => c,
    }
}

pub open spec fn remove_pins_spec(c: ConfigView, user: Seq<char>) -> ConfigView {
    ConfigView {
        pinned: c.pinned.filter(|p: PinnedRepoView| !owned_by(p.full_name, user)),
        ..c
    }
}

pub open spec fn pins_owned_by(c: ConfigView, user: Seq<char>) -> Seq<Seq<char>> {
    pin_names(c.pinned).filter(|n: Seq<char>| owned_by(n, user))
}

pub open spec fn remove_user_spec(c: ConfigView, user: Seq<char>) -> ConfigView {
    ConfigView {
        track: c.track.filter(|u: TrackedUserView| !eq_ignore_case(u.name, user)),
        ..c
    }
}

// ---------------------------------------------------------------------------
// Small helpers
// ---------------------------------------------------------------------------

/// String equality on the characters.
pub fn str_eq(a: &str, b: &str) -> (r: bool)
    ensures
        r == (a@ == b@),
{
    let av = chars_of(a);
    let bv = chars_of(b);
    if av.len() != bv.len() {
        return false;
    }
    let mut i: usize = 0;
    while i < av.len()
        invariant
            av@ == a@,
            bv@ == b@,
            av.len() == bv.len(),
            i <= av.len(),
            forall|j: int| 0 <= j < i ==> a@[j] == b@[j],
        decreases av.len() - i,
    {
        if av[i] != bv[i] {
            return false;
        }
        i = i + 1;
    }
    assert(a@ =~= b@);
    true
}

/// Whether `full_name` (an `owner/name`) is owned by `user`, up to ASCII case.
pub fn is_owned_by(full_name: &str, user: &str) -> (r: bool)
    ensures
        r == owned_by(full_name@, user@),
{
    match split_once_char(full_name, '/') {
        Some((owner, _)) => eq_ignore_ascii_case(owner, user),
        None => false,
    }
}


// ---------------------------------------------------------------------------
// Operations
// ---------------------------------------------------------------------------

impl Config {
    /// Whether `full_name` is skipped.
    pub fn is_skipped(&self, full_name: &str) -> (r: bool)
        ensures
            r == self@.skipped.contains(full_name@),
    {
        let mut i: usize = 0;
        while i < self.skipped.len()
            invariant
                i <= self.skipped.len(),
                forall|j: int| 0 <= j < i ==> self.skipped@[j]@ != full_name@,
            decreases self.skipped.len() - i,
        {
            if str_eq(self.skipped[i].as_str(), full_name) {
                proof {
                    assert(strings_view(self.skipped@)[i as int] == full_name@);
                }
                return true;
            }
            i = i + 1;
        }
        proof {
            if strings_view(self.skipped@).contains(full_name@) {
                let j = choose|j: int|
                    0 <= j < strings_view(self.skipped@).len() && strings_view(self.skipped@)[j]
                        == full_name@;
                assert(self.skipped@[j]@ == full_name@);
            }
        }
        false
    }

    /// Marks a repo as skipped. Returns `true` if this is a new skip, `false`
    /// if it was already skipped.
    pub fn skip_repo(&mut self, full_name: &str) -> (r: bool)
        ensures
            old(self).well_formed() ==> final(self).well_formed(),
            r == !old(self)@.skipped.contains(full_name@),
            final(self)@ == skip_spec(old(self)@, full_name@),
    {
        let present = self.is_skipped(full_name);
        if !present {
            let ghost before = strings_view(self.skipped@);
            self.skipped.push(full_name.to_owned());
            proof {
                assert(strings_view(self.skipped@) =~= before.push(full_name@));
                lemma_push_contains(before, full_name@);
                assert(strings_view(self.skipped@).to_set() =~= before.to_set().insert(
                    full_name@,
                ));
            }
        } else {
            proof {
                assert(old(self)@.skipped.insert(full_name@) =~= old(self)@.skipped);
            }
        }
        !present
    }

    /// Stops skipping a repo. Returns `true` if it was skipped and is no
    /// longer, `false` if it was not skipped.
    pub fn unskip_repo(&mut self, full_name: &str) -> (r: bool)
        ensures
            old(self).well_formed() ==> final(self).well_formed(),
            r == old(self)@.skipped.contains(full_name@),
            final(self)@ == unskip_spec(old(self)@, full_name@),
    {
        let mut kept: Vec<String> = Vec::new();
        let mut found = false;
        let mut i: usize = 0;
        let ghost orig = strings_view(self.skipped@);
        while i < self.skipped.len()
            invariant
                orig == strings_view(self.skipped@),
                i <= self.skipped.len(),
                found == orig.take(i as int).contains(full_name@),
                orig.no_duplicates() ==> strings_view(kept@).no_duplicates(),
                forall|x: Seq<char>| #[trigger]
                    strings_view(kept@).contains(x) <==> (orig.take(i as int).contains(x) && x
                        != full_name@),
            decreases self.skipped.len() - i,
        {
            let ghost prev = strings_view(kept@);
            proof {
                assert(orig.take(i + 1) =~= orig.take(i as int).push(orig[i as int]));
                lemma_push_contains(orig.take(i as int), orig[i as int]);
            }
            if str_eq(self.skipped[i].as_str(), full_name) {
                found = true;
            } else {
                kept.push(self.skipped[i].clone());
                proof {
                    assert(strings_view(kept@) =~= prev.push(orig[i as int]));
                    lemma_push_contains(prev, orig[i as int]);
                    if orig.no_duplicates() {
                        if prev.contains(orig[i as int]) {
                            let k = choose|k: int| 0 <= k < orig.take(i as int).len() && orig.take(i as int)[k] == orig[i as int];
                            assert(orig[k] == orig[i as int]);
                        }
                        lemma_push_no_duplicates(prev, orig[i as int]);
                    }
                }
            }
            i = i + 1;
        }
        proof {
            assert(orig.take(i as int) =~= orig);
        }
        self.skipped = kept;
        proof {
            assert(final(self)@.skipped =~= old(self)@.skipped.remove(full_name@));
        }
        found
    }
}

impl Config {
    /// The position of the first pin named `full_name`.
    fn find_pin_index(&self, full_name: &str) -> (r: Option<usize>)
        ensures
            match r {
                Some(i) => find_pin(self@.pinned, full_name@) == Some(i as int)
                    && is_first_pin(self@.pinned, full_name@, i as int),
                None => find_pin(self@.pinned, full_name@) is None && !is_pinned_spec(
                    self@,
                    full_name@,
                ),
            },
    {
        let mut i: usize = 0;
        while i < self.pinned.len()
            invariant
                i <= self.pinned.len(),
                forall|j: int| 0 <= j < i ==> (#[trigger] self@.pinned[j]).full_name != full_name@,
            decreases self.pinned.len() - i,
        {
            if str_eq(self.pinned[i].full_name.as_str(), full_name) {
                proof {
                    assert(self@.pinned[i as int].full_name == full_name@);
                    lemma_find_pin_first(self@.pinned, full_name@, i as int);
                }
                return Some(i);
            }
            i = i + 1;
        }
        None
    }

    /// Whether `full_name` is pinned.
    pub fn is_pinned(&self, full_name: &str) -> (r: bool)
        ensures
            r == is_pinned_spec(self@, full_name@),
    {
        self.find_pin_index(full_name).is_some()
    }

    /// The stored GitHub id of a pinned repo, if any.
    pub fn pinned_id(&self, full_name: &str) -> (r: Option<u64>)
        ensures
            r == pinned_id_spec(self@, full_name@),
    {
        match self.find_pin_index(full_name) {
            Some(i) => self.pinned[i].id,
            None => None,
        }
    }

    /// The per-pin submodules override, if any (`None` inherits the global
    /// default).
    pub fn pinned_submodules(&self, full_name: &str) -> (r: Option<bool>)
        ensures
            r == pinned_submodules_spec(self@, full_name@),
    {
        match self.find_pin_index(full_name) {
            Some(i) => self.pinned[i].submodules,
            None => None,
        }
    }

    /// Pins a repo with its stable id and submodules override. Returns `true`
    /// if this is a new pin, `false` if it was already pinned (and then
    /// changes nothing).
    pub fn pin_repo_with_options(
        &mut self,
        full_name: &str,
        id: Option<u64>,
        submodules: Option<bool>,
    ) -> (r: bool)
        ensures
            old(self).well_formed() ==> final(self).well_formed(),
            r == !is_pinned_spec(old(self)@, full_name@),
            final(self)@ == pin_spec(old(self)@, full_name@, id, submodules),
    {
        if self.is_pinned(full_name) {
            return false;
        }
        let ghost before = self.pinned@;
        self.pinned.push(PinnedRepo { full_name: full_name.to_owned(), id, submodules });
        proof {
            assert(pins_view(self.pinned@) =~= pins_view(before).push(
                PinnedRepoView { full_name: full_name@, id, submodules },
            ));
        }
        true
    }

    /// Unpins a repo. Returns `true` if it was pinned and is now removed,
    /// `false` if it was not pinned.
    pub fn unpin_repo(&mut self, full_name: &str) -> (r: bool)
        ensures
            old(self).well_formed() ==> final(self).well_formed(),
            r == is_pinned_spec(old(self)@, full_name@),
            final(self)@ == unpin_spec(old(self)@, full_name@),
    {
        let before = self.pinned.len();
        let ghost orig = self@.pinned;
        let ghost pred = |p: PinnedRepoView| p.full_name != full_name@;
        let mut kept: Vec<PinnedRepo> = Vec::new();
        let mut i: usize = 0;
        while i < self.pinned.len()
            invariant
                orig == self@.pinned,
                pred == (|p: PinnedRepoView| p.full_name != full_name@),
                i <= self.pinned.len(),
                pins_view(kept@) == orig.take(i as int).filter(pred),
                kept.len() <= i,
                kept.len() < i <==> exists|j: int|
                    0 <= j < i && (#[trigger] orig[j]).full_name == full_name@,
            decreases self.pinned.len() - i,
        {
            proof {
                assert(orig.take(i + 1) =~= orig.take(i as int).push(orig[i as int]));
                orig.take(i as int).lemma_filter_push(orig[i as int], pred);
                assert(orig[i as int] == self.pinned@[i as int]@);
            }
            if !str_eq(self.pinned[i].full_name.as_str(), full_name) {
                let ghost prev = pins_view(kept@);
                kept.push(self.pinned[i].clone());
                proof {
                    assert(pins_view(kept@) =~= prev.push(orig[i as int]));
                }
            }
            i = i + 1;
        }
        proof {
            assert(orig.take(i as int) =~= orig);
        }
        self.pinned = kept;
        self.pinned.len() < before
    }

    /// Renames the first pin named `old_full_name` (used when the owner or
    /// the repo was renamed). Returns `true` if it was found.
    pub fn rename_pin(&mut self, old_full_name: &str, new_full_name: &str) -> (r: bool)
        ensures
            old(self).well_formed() ==> final(self).well_formed(),
            r == is_pinned_spec(old(self)@, old_full_name@),
            final(self)@ == rename_pin_spec(old(self)@, old_full_name@, new_full_name@),
    {
        match self.find_pin_index(old_full_name) {
            Some(i) => {
                let ghost before = self.pinned@;
                let entry = PinnedRepo {
                    full_name: new_full_name.to_owned(),
                    id: self.pinned[i].id,
                    submodules: self.pinned[i].submodules,
                };
                self.pinned.set(i, entry);
                proof {
                    assert(pins_view(self.pinned@) =~= pins_view(before).update(
                        i as int,
                        PinnedRepoView { full_name: new_full_name@, ..pins_view(before)[i as int] },
                    ));
                }
                true
            },
            None => false,
        }
    }

    /// Removes every pinned repo owned by `user` (compared up to ASCII case)
    /// and returns their full names, in pin order.
    pub fn remove_pins_for_user(&mut self, user: &str) -> (r: Vec<String>)
        ensures
            old(self).well_formed() ==> final(self).well_formed(),
            strings_view(r@) == pins_owned_by(old(self)@, user@),
            final(self)@ == remove_pins_spec(old(self)@, user@),
    {
        let ghost orig = self@.pinned;
        let ghost keep = |p: PinnedRepoView| !owned_by(p.full_name, user@);
        let ghost owned = |n: Seq<char>| owned_by(n, user@);
        let mut kept: Vec<PinnedRepo> = Vec::new();
        let mut removed: Vec<String> = Vec::new();
        let mut i: usize = 0;
        while i < self.pinned.len()
            invariant
                orig == self@.pinned,
                keep == (|p: PinnedRepoView| !owned_by(p.full_name, user@)),
                owned == (|n: Seq<char>| owned_by(n, user@)),
                i <= self.pinned.len(),
                pins_view(kept@) == orig.take(i as int).filter(keep),
                strings_view(removed@) == pin_names(orig.take(i as int)).filter(owned),
            decreases self.pinned.len() - i,
        {
            proof {
                assert(orig.take(i + 1) =~= orig.take(i as int).push(orig[i as int]));
                orig.take(i as int).lemma_filter_push(orig[i as int], keep);
                assert(pin_names(orig.take(i + 1)) =~= pin_names(orig.take(i as int)).push(
                    orig[i as int].full_name,
                ));
                pin_names(orig.take(i as int)).lemma_filter_push(orig[i as int].full_name, owned);
                assert(orig[i as int] == self.pinned@[i as int]@);
            }
            if is_owned_by(self.pinned[i].full_name.as_str(), user) {
                let ghost prev = strings_view(removed@);
                removed.push(self.pinned[i].full_name.clone());
                proof {
                    assert(strings_view(removed@) =~= prev.push(orig[i as int].full_name));
                }
            } else {
                let ghost prev = pins_view(kept@);
                kept.push(self.pinned[i].clone());
                proof {
                    assert(pins_view(kept@) =~= prev.push(orig[i as int]));
                }
            }
            i = i + 1;
        }
        proof {
            assert(orig.take(i as int) =~= orig);
        }
        self.pinned = kept;
        removed
    }
}

impl Config {
    /// Adds every name of `extra` to the skipped repositories.
    pub fn extend_skipped(&mut self, extra: &Vec<String>)
        ensures
            old(self).well_formed() ==> final(self).well_formed(),
            final(self)@ == (ConfigView {
                skipped: old(self)@.skipped.union(strings_view(extra@).to_set()),
                ..old(self)@
            }),
    {
        let ghost ev = strings_view(extra@);
        let mut i: usize = 0;
        proof {
            assert(old(self)@.skipped.union(ev.take(0).to_set()) =~= old(self)@.skipped);
        }
        while i < extra.len()
            invariant
                ev == strings_view(extra@),
                i <= extra.len(),
                old(self).well_formed() ==> self.well_formed(),
                self@ == (ConfigView {
                    skipped: old(self)@.skipped.union(ev.take(i as int).to_set()),
                    ..old(self)@
                }),
            decreases extra.len() - i,
        {
            self.skip_repo(extra[i].as_str());
            proof {
                assert(ev.take(i + 1) =~= ev.take(i as int).push(ev[i as int]));
                lemma_push_contains(ev.take(i as int), ev[i as int]);
                assert(old(self)@.skipped.union(ev.take(i + 1).to_set()) =~= old(self)@.skipped.union(
                    ev.take(i as int).to_set(),
                ).insert(ev[i as int]));
            }
            i = i + 1;
        }
        proof {
            assert(ev.take(i as int) =~= ev);
        }
    }

    /// Records `id` on the first pin named `full_name`. Returns whether such
    /// a pin exists.
    pub fn set_pin_id(&mut self, full_name: &str, id: u64) -> (r: bool)
        ensures
            old(self).well_formed() ==> final(self).well_formed(),
            r == is_pinned_spec(old(self)@, full_name@),
            final(self)@ == set_pin_id_spec(old(self)@, full_name@, id),
    {
        match self.find_pin_index(full_name) {
            Some(i) => {
                let ghost before = self.pinned@;
                let entry = PinnedRepo {
                    full_name: self.pinned[i].full_name.clone(),
                    id: Some(id),
                    submodules: self.pinned[i].submodules,
                };
                self.pinned.set(i, entry);
                proof {
                    assert(pins_view(self.pinned@) =~= pins_view(before).update(
                        i as int,
                        PinnedRepoView { id: Some(id), ..pins_view(before)[i as int] },
                    ));
                }
                true
            },
            None => false,
        }
    }
}

pub open spec fn set_pin_id_spec(c: ConfigView, full_name: Seq<char>, id: u64) -> ConfigView {
    match find_pin(c.pinned, full_name) {
        Some(i) => ConfigView {
            pinned: c.pinned.update(i, PinnedRepoView { id: Some(id), ..c.pinned[i] }),
            ..c
        },
        None => c,
    }
}

/// A first pin is what `find_pin` finds.
pub proof fn lemma_find_pin_first(pins: Seq<PinnedRepoView>, full_name: Seq<char>, i: int)
    requires
        is_first_pin(pins, full_name, i),
    ensures
        find_pin(pins, full_name) == Some(i),
{
    assert(pins[i].full_name == full_name);
    let k = choose|k: int| is_first_pin(pins, full_name, k);
    if k < i {
        assert(pins[k].full_name != full_name);
    } else if i < k {
        assert(pins[i].full_name != full_name);
    }
}

impl Config {
    /// Sorts the tracked accounts by lower-cased name, keeping the relative
    /// order of accounts whose lower-cased names are equal.
    pub fn sort_users(&mut self)
        ensures
            old(self).well_formed() ==> final(self).well_formed(),
            stably_sorted_from(final(self)@.track, old(self)@.track, name_key()),
            final(self)@ == (ConfigView { track: sort_users_spec(old(self)@.track), ..old(self)@ }),
    {
        let mut rest: Vec<TrackedUser> = Vec::new();
        std::mem::swap(&mut rest, &mut self.track);
        let ghost orig = users_view(rest@);
        let mut out: Vec<TrackedUser> = Vec::new();
        let mut keys: Vec<String> = Vec::new();
        let ghost mut done: int = 0;
        proof {
            assert forall|k: Seq<char>| #[trigger]
                group(users_view(out@), name_key(), k) == group(orig.take(0), name_key(), k) by {
                assert(users_view(out@) =~= orig.take(0));
            }
        }
        while rest.len() > 0
            invariant
                0 <= done <= orig.len(),
                done + rest.len() == orig.len(),
                users_view(rest@) == orig.skip(done),
                keys.len() == out.len(),
                forall|j: int|
                    0 <= j < keys.len() ==> (#[trigger] keys@[j])@ == user_key(out@[j]@),
                sorted_by_key(users_view(out@), name_key()),
                forall|k: Seq<char>| #[trigger]
                    group(users_view(out@), name_key(), k) == group(orig.take(done), name_key(), k),
            decreases rest.len(),
        {
            let ghost before = users_view(out@);
            let ghost rest_before = rest@;
            let u = rest.remove(0);
            let k = to_lowercase(u.name.as_str());
            proof {
                assert(users_view(rest_before)[0] == orig.skip(done)[0]);
                assert(u@ == orig[done]);
                assert forall|j: int| 0 <= j < rest@.len() implies users_view(rest@)[j]
                    == orig.skip(done + 1)[j] by {
                    assert(rest@[j] == rest_before[j + 1]);
                    assert(users_view(rest_before)[j + 1] == orig.skip(done)[j + 1]);
                }
                assert(users_view(rest@) =~= orig.skip(done + 1));
            }
            let mut p: usize = 0;
            while p < keys.len() && str_le(keys[p].as_str(), k.as_str())
                invariant
                    p <= keys.len(),
                    keys.len() == out.len(),
                    before == users_view(out@),
                    forall|j: int|
                        0 <= j < keys.len() ==> (#[trigger] keys@[j])@ == user_key(out@[j]@),
                    forall|j: int| 0 <= j < p ==> lex_le(user_key(#[trigger] before[j]), k@),
                decreases keys.len() - p,
            {
                p = p + 1;
            }
            proof {
                assert forall|j: int| p <= j < before.len() implies !lex_le(
                    user_key(#[trigger] before[j]),
                    k@,
                ) by {
                    assert(!lex_le(user_key(before[p as int]), k@));
                    if lex_le(user_key(before[j]), k@) {
                        lemma_lex_trans(user_key(before[p as int]), user_key(before[j]), k@);
                    }
                }
                lemma_insert_sorted(before, p as int, u@, orig.take(done), name_key());
                assert(orig.take(done + 1) =~= orig.take(done).push(u@));
            }
            out.insert(p, u);
            keys.insert(p, k);
            proof {
                assert(users_view(out@) =~= before.insert(p as int, orig[done]));
                done = done + 1;
            }
        }
        proof {
            assert(orig.take(done) =~= orig);
        }
        self.track = out;
        proof {
            let r = users_view(self.track@);
            assert(stably_sorted_from(r, orig, name_key()));
            let c = sort_users_spec(orig);
            assert(stably_sorted_from(c, orig, name_key()));
            lemma_stable_sort_unique(r, c, orig, name_key());
        }
    }
}

impl Config {
    /// The position of the first account matching `user` up to ASCII case.
    pub(crate) fn find_user_index(&self, user: &str) -> (r: Option<usize>)
        ensures
            match r {
                Some(i) => find_user(self@.track, user@) == Some(i as int) && is_first_user_match(
                    self@.track,
                    user@,
                    i as int,
                ),
                None => find_user(self@.track, user@) is None,
            },
    {
        let mut i: usize = 0;
        while i < self.track.len()
            invariant
                i <= self.track.len(),
                forall|j: int| 0 <= j < i ==> !eq_ignore_case(#[trigger] self@.track[j].name, user@),
            decreases self.track.len() - i,
        {
            if eq_ignore_ascii_case(self.track[i].name.as_str(), user) {
                proof {
                    assert(eq_ignore_case(self@.track[i as int].name, user@));
                    lemma_find_user_first(self@.track, user@, i as int);
                }
                return Some(i);
            }
            i = i + 1;
        }
        None
    }

    /// Adds `user` to the tracked accounts, or applies the options to the
    /// account already tracked under that name up to ASCII case (taking the
    /// given spelling). Returns whether the configuration changed, with what
    /// happened in the order it happened. A change re-sorts the accounts.
    pub fn add_user_noted(
        &mut self,
        user: &str,
        forks: bool,
        frozen: bool,
        submodules: Option<bool>,
    ) -> (r: (bool, Vec<UserNote>))
        ensures
            old(self).well_formed() ==> final(self).well_formed(),
            r.0 == add_user_changes(old(self)@.track, user@, forks, frozen, submodules),
            r.1@ == add_user_notes(old(self)@.track, user@, forks, frozen, submodules),
            final(self)@ == add_user_spec(old(self)@, user@, forks, frozen, submodules),
    {
        let ghost t = self@.track;
        let mut notes: Vec<UserNote> = Vec::new();
        match self.find_user_index(user) {
            Some(i) => {
                let canonical_changed = !str_eq(self.track[i].name.as_str(), user);
                let old_forks = self.track[i].forks;
                let old_frozen = self.track[i].frozen;
                let old_sub = self.track[i].submodules;
                let id = self.track[i].id;
                let mut local_changed = false;
                if forks && !old_forks {
                    notes.push(UserNote::ForksEnabled);
                    local_changed = true;
                }
                if frozen && !old_frozen {
                    notes.push(UserNote::Frozen);
                    local_changed = true;
                } else if !frozen && old_frozen {
                    notes.push(UserNote::Unfrozen);
                    local_changed = true;
                }
                let new_sub = match submodules {
                    Some(sv) => {
                        let differs = match old_sub {
                            Some(ov) => ov != sv,
                            None => true,
                        };
                        if differs {
                            notes.push(UserNote::Submodules(sv));
                            local_changed = true;
                        }
                        Some(sv)
                    },
                    None => old_sub,
                };
                if !local_changed && !canonical_changed {
                    notes.push(UserNote::AlreadyTracking);
                }
                let entry = TrackedUser {
                    name: user.to_owned(),
                    forks: old_forks || forks,
                    frozen,
                    id,
                    submodules: new_sub,
                };
                let ghost before = self.track@;
                self.track.set(i, entry);
                proof {
                    let e = t[i as int];
                    assert(users_view(self.track@) =~= t.update(
                        i as int,
                        merged_entry(e, user@, forks, frozen, submodules),
                    ));
                    assert(notes@ =~= add_user_notes(t, user@, forks, frozen, submodules));
                    if !(local_changed || canonical_changed) {
                        assert(merged_entry(e, user@, forks, frozen, submodules) == e);
                        assert(users_view(self.track@) =~= t);
                    }
                }
                let changed = local_changed || canonical_changed;
                if changed {
                    self.sort_users();
                }
                (changed, notes)
            },
            None => {
                let ghost before = self.track@;
                self.track.push(
                    TrackedUser { name: user.to_owned(), forks, frozen, id: None, submodules },
                );
                proof {
                    assert(users_view(self.track@) =~= t.push(
                        TrackedUserView { name: user@, forks, frozen, id: None, submodules },
                    ));
                }
                self.sort_users();
                notes.push(UserNote::NowTracking { forks, frozen });
                proof {
                    assert(notes@ =~= add_user_notes(t, user@, forks, frozen, submodules));
                }
                (true, notes)
            },
        }
    }

    /// `add_user_noted`, returning only whether the configuration changed.
    pub fn add_user(&mut self, user: &str, forks: bool, frozen: bool, submodules: Option<bool>) -> (r:
        bool)
        ensures
            old(self).well_formed() ==> final(self).well_formed(),
            r == add_user_changes(old(self)@.track, user@, forks, frozen, submodules),
            final(self)@ == add_user_spec(old(self)@, user@, forks, frozen, submodules),
    {
        let (changed, _notes) = self.add_user_noted(user, forks, frozen, submodules);
        changed
    }

    /// Stops tracking every account whose name matches `user` up to ASCII
    /// case. Returns the names, as stored, of the accounts it dropped.
    pub fn remove_user_named(&mut self, user: &str) -> (r: Vec<String>)
        ensures
            old(self).well_formed() ==> final(self).well_formed(),
            strings_view(r@) == removed_names(old(self)@.track, user@),
            final(self)@ == remove_user_spec(old(self)@, user@),
    {
        let ghost orig = self@.track;
        let ghost keep = |u: TrackedUserView| !eq_ignore_case(u.name, user@);
        let ghost hit = |u: TrackedUserView| eq_ignore_case(u.name, user@);
        let mut kept: Vec<TrackedUser> = Vec::new();
        let mut removed: Vec<String> = Vec::new();
        let mut i: usize = 0;
        while i < self.track.len()
            invariant
                orig == self@.track,
                keep == (|u: TrackedUserView| !eq_ignore_case(u.name, user@)),
                hit == (|u: TrackedUserView| eq_ignore_case(u.name, user@)),
                i <= self.track.len(),
                users_view(kept@) == orig.take(i as int).filter(keep),
                strings_view(removed@) == orig.take(i as int).filter(hit).map_values(
                    |u: TrackedUserView| u.name,
                ),
            decreases self.track.len() - i,
        {
            proof {
                assert(orig.take(i + 1) =~= orig.take(i as int).push(orig[i as int]));
                orig.take(i as int).lemma_filter_push(orig[i as int], keep);
                orig.take(i as int).lemma_filter_push(orig[i as int], hit);
                assert(orig[i as int] == self.track@[i as int]@);
            }
            if !eq_ignore_ascii_case(self.track[i].name.as_str(), user) {
                let ghost prev = users_view(kept@);
                kept.push(self.track[i].clone());
                proof {
                    assert(users_view(kept@) =~= prev.push(orig[i as int]));
                }
            } else {
                let ghost prev = strings_view(removed@);
                removed.push(self.track[i].name.clone());
                proof {
                    assert(strings_view(removed@) =~= prev.push(orig[i as int].name));
                    assert(orig.take(i as int).filter(hit).push(orig[i as int]).map_values(
                        |u: TrackedUserView| u.name,
                    ) =~= prev.push(orig[i as int].name));
                }
            }
            i = i + 1;
        }
        proof {
            assert(orig.take(i as int) =~= orig);
        }
        self.track = kept;
        removed
    }

    /// Stops tracking every account whose name matches `user` up to ASCII
    /// case. Returns `true` if any was tracked.
    pub fn remove_user(&mut self, user: &str) -> (r: bool)
        ensures
            old(self).well_formed() ==> final(self).well_formed(),
            r == has_user(old(self)@.track, user@),
            final(self)@ == remove_user_spec(old(self)@, user@),
    {
        let removed = self.remove_user_named(user);
        proof {
            let t = old(self)@.track;
            let hit = |u: TrackedUserView| eq_ignore_case(u.name, user@);
            if has_user(t, user@) {
                let j = choose|j: int| 0 <= j < t.len() && eq_ignore_case(#[trigger] t[j].name, user@);
                t.lemma_filter_contains(hit, j);
            }
            assert(removed_names(t, user@) == t.filter(hit).map_values(|u: TrackedUserView| u.name));
            assert(removed@.len() == strings_view(removed@).len());
            assert(removed_names(t, user@).len() == t.filter(hit).len());
            if t.filter(hit).len() > 0 {
                t.lemma_filter_pred(hit, 0);
                assert(t.filter(hit).contains(t.filter(hit)[0]));
                t.lemma_filter_contains_rev(hit, t.filter(hit)[0]);
                let k = choose|k: int| 0 <= k < t.len() && t[k] == t.filter(hit)[0];
                assert(eq_ignore_case(t[k].name, user@));
            }
        }
        removed.len() > 0
    }
}

/// The names, as stored, of the accounts that match `user` up to ASCII case.
pub open spec fn removed_names(track: Seq<TrackedUserView>, user: Seq<char>) -> Seq<Seq<char>> {
    track.filter(|u: TrackedUserView| eq_ignore_case(u.name, user)).map_values(
        |u: TrackedUserView| u.name,
    )
}

/// A first match is what `find_user` finds.
pub proof fn lemma_find_user_first(track: Seq<TrackedUserView>, user: Seq<char>, i: int)
    requires
        is_first_user_match(track, user, i),
    ensures
        find_user(track, user) == Some(i),
{
    assert(has_user(track, user));
    let k = choose|k: int| is_first_user_match(track, user, k);
    if k < i {
        assert(!eq_ignore_case(track[k].name, user));
    } else if i < k {
        assert(!eq_ignore_case(track[i].name, user));
    }
}

/// The accounts of `s` stably sorted by lower-cased name.
pub open spec fn sort_users_spec(s: Seq<TrackedUserView>) -> Seq<TrackedUserView> {
    stable_sort(s, name_key())
}

/// The configuration after `add_user`.
pub open spec fn add_user_spec(
    c: ConfigView,
    user: Seq<char>,
    forks: bool,
    frozen: bool,
    submodules: Option<bool>,
) -> ConfigView {
    if add_user_changes(c.track, user, forks, frozen, submodules) {
        ConfigView {
            track: sort_users_spec(added_track(c.track, user, forks, frozen, submodules)),
            ..c
        }
    } else {
        c
    }
}

pub proof fn lemma_push_contains<A>(s: Seq<A>, a: A)
    ensures
        forall|x: A| #[trigger] s.push(a).contains(x) <==> (s.contains(x) || x == a),
{
    assert forall|x: A| #[trigger] s.push(a).contains(x) <==> (s.contains(x) || x == a) by {
        if s.push(a).contains(x) {
            let j = choose|j: int| 0 <= j < s.push(a).len() && s.push(a)[j] == x;
            if j < s.len() {
                assert(s[j] == x);
            }
        }
        if s.contains(x) {
            let j = choose|j: int| 0 <= j < s.len() && s[j] == x;
            assert(s.push(a)[j] == x);
        }
        if x == a {
            assert(s.push(a)[s.len() as int] == x);
        }
    }
}

} // verus!
