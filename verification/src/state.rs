//! The sync state: when each repository was last synced, and what it had
//! been pushed to at that time.
use vstd::prelude::*;

use crate::config::{lemma_push_contains, str_eq, strings_view};

verus! {

/// A UTC instant as seconds since the Unix epoch and the nanoseconds past
/// that second. Instants are ordered as `chrono::DateTime<Utc>` orders them:
/// by seconds, then by nanoseconds.
#[derive(Clone, Copy, PartialEq, Eq, Structural, Debug)]
pub struct Timestamp {
    pub secs: i64,
    pub nanos: u32,
}

/// `a` is no later than `b`.
pub open spec fn ts_le(a: Timestamp, b: Timestamp) -> bool {
    a.secs < b.secs || (a.secs == b.secs && a.nanos <= b.nanos)
}

impl Timestamp {
    pub fn new(secs: i64, nanos: u32) -> (t: Timestamp)
        ensures
            t == (Timestamp { secs, nanos }),
    {
        Timestamp { secs, nanos }
    }

    /// `self` is no later than `other`.
    pub fn le(&self, other: &Timestamp) -> (r: bool)
        ensures
            r == ts_le(*self, *other),
    {
        self.secs < other.secs || (self.secs == other.secs && self.nanos <= other.nanos)
    }
}

/// What is recorded for a repository after a successful sync.
#[derive(Clone, Copy, PartialEq, Eq, Structural, Debug)]
pub struct RepoState {
    pub last_synced_at: Timestamp,
    pub pushed_at: Option<Timestamp>,
}

/// The sync state. `repos` maps a repository's `owner/name` to its record;
/// where a name occurs twice, its first entry counts. `skipped` holds skips
/// that older versions kept here rather than in the configuration.
pub struct State {
    pub repos: Vec<(String, RepoState)>,
    pub skipped: Vec<String>,
}

pub ghost struct StateView {
    pub repos: Map<Seq<char>, RepoState>,
    pub skipped: Set<Seq<char>>,
}

pub open spec fn entries_view(v: Seq<(String, RepoState)>) -> Seq<(Seq<char>, RepoState)> {
    v.map_values(|e: (String, RepoState)| (e.0@, e.1))
}

/// `i` is the first entry for `k`.
pub open spec fn is_first_entry(s: Seq<(Seq<char>, RepoState)>, k: Seq<char>, i: int) -> bool {
    &&& 0 <= i < s.len()
    &&& s[i].0 == k
    &&& forall|j: int| 0 <= j < i ==> (#[trigger] s[j]).0 != k
}

pub open spec fn has_entry(s: Seq<(Seq<char>, RepoState)>, k: Seq<char>) -> bool {
    exists|i: int| 0 <= i < s.len() && (#[trigger] s[i]).0 == k
}

pub open spec fn entries_map(s: Seq<(Seq<char>, RepoState)>) -> Map<Seq<char>, RepoState> {
    Map::new(
        |k: Seq<char>| has_entry(s, k),
        |k: Seq<char>| s[choose|i: int| is_first_entry(s, k, i)].1,
    )
}

impl View for State {
    type V = StateView;

    open spec fn view(&self) -> StateView {
        StateView {
            repos: entries_map(entries_view(self.repos@)),
            skipped: strings_view(self.skipped@).to_set(),
        }
    }
}

impl State {
    /// No repository has two records, as none has two in the map the
    /// records stand for.
    pub open spec fn well_formed(&self) -> bool {
        forall|i: int, j: int|
            0 <= i < j < self.repos.len() ==> (#[trigger] self.repos@[i]).0@ != (
            #[trigger] self.repos@[j]).0@
    }
}

impl Default for State {
    fn default() -> (s: Self)
        ensures
            s@.repos == Map::<Seq<char>, RepoState>::empty(),
            s@.skipped == Set::<Seq<char>>::empty(),
            s.well_formed(),
    {
        let s = State { repos: Vec::new(), skipped: Vec::new() };
        proof {
            assert(entries_map(entries_view(s.repos@)) =~= Map::empty());
            assert(strings_view(s.skipped@).to_set() =~= Set::empty());
        }
        s
    }
}

proof fn lemma_first_entry_unique(s: Seq<(Seq<char>, RepoState)>, k: Seq<char>, i: int, j: int)
    requires
        is_first_entry(s, k, i),
        is_first_entry(s, k, j),
    ensures
        i == j,
{
    if i < j {
        assert(s[i].0 == k);
    } else if j < i {
        assert(s[j].0 == k);
    }
}

proof fn lemma_first_entry_exists(s: Seq<(Seq<char>, RepoState)>, k: Seq<char>, n: int) -> (i: int)
    requires
        0 <= n < s.len(),
        s[n].0 == k,
    ensures
        is_first_entry(s, k, i),
    decreases n,
{
    if exists|j: int| 0 <= j < n && (#[trigger] s[j]).0 == k {
        let j = choose|j: int| 0 <= j < n && (#[trigger] s[j]).0 == k;
        lemma_first_entry_exists(s, k, j)
    } else {
        n
    }
}

impl State {
    /// The position of the first entry for `full_name`.
    fn find_entry(&self, full_name: &str) -> (r: Option<usize>)
        ensures
            match r {
                Some(i) => is_first_entry(entries_view(self.repos@), full_name@, i as int),
                None => !has_entry(entries_view(self.repos@), full_name@),
            },
    {
        let ghost s = entries_view(self.repos@);
        let mut i: usize = 0;
        while i < self.repos.len()
            invariant
                s == entries_view(self.repos@),
                i <= self.repos.len(),
                forall|j: int| 0 <= j < i ==> (#[trigger] s[j]).0 != full_name@,
            decreases self.repos.len() - i,
        {
            if str_eq(self.repos[i].0.as_str(), full_name) {
                proof {
                    assert(s[i as int].0 == full_name@);
                }
                return Some(i);
            }
            proof {
                assert(s[i as int].0 != full_name@);
            }
            i = i + 1;
        }
        None
    }

    /// The record of `full_name`, if it was ever synced.
    pub fn repo(&self, full_name: &str) -> (r: Option<RepoState>)
        ensures
            match r {
                Some(st) => self@.repos.contains_key(full_name@) && self@.repos[full_name@] == st,
                None => !self@.repos.contains_key(full_name@),
            },
    {
        match self.find_entry(full_name) {
            Some(i) => {
                proof {
                    let s = entries_view(self.repos@);
                    let k = choose|j: int| is_first_entry(s, full_name@, j);
                    lemma_first_entry_unique(s, full_name@, i as int, k);
                }
                Some(self.repos[i].1)
            },
            None => None,
        }
    }

    /// Records that `full_name` was synced at `now`, when it had last been
    /// pushed at `pushed_at`; an earlier record of it is replaced.
    pub fn mark_synced(&mut self, full_name: &str, pushed_at: Option<Timestamp>, now: Timestamp)
        ensures
            old(self).well_formed() ==> final(self).well_formed(),
            final(self)@.repos == old(self)@.repos.insert(
                full_name@,
                RepoState { last_synced_at: now, pushed_at },
            ),
            final(self)@.skipped == old(self)@.skipped,
    {
        let rec = RepoState { last_synced_at: now, pushed_at };
        let ghost s = entries_view(self.repos@);
        let ghost k = full_name@;
        match self.find_entry(full_name) {
            Some(i) => {
                self.repos.set(i, (full_name.to_owned(), rec));
                proof {
                    if old(self).well_formed() {
                        assert forall|a: int, b: int| 0 <= a < b < self.repos.len() implies (
                        #[trigger] self.repos@[a]).0@ != (#[trigger] self.repos@[b]).0@ by {
                            assert(old(self).repos@[a].0@ != old(self).repos@[b].0@);
                            assert(s[i as int].0 == k);
                            if a != i {
                                assert(self.repos@[a] == old(self).repos@[a]);
                            }
                            if b != i {
                                assert(self.repos@[b] == old(self).repos@[b]);
                            }
                        }
                    }
                    let t = entries_view(self.repos@);
                    assert(t =~= s.update(i as int, (k, rec)));
                    assert forall|x: Seq<char>| has_entry(t, x) == has_entry(s, x) by {
                        if has_entry(s, x) {
                            let j = choose|j: int| 0 <= j < s.len() && (#[trigger] s[j]).0 == x;
                            if j == i {
                                assert(t[j].0 == x);
                            } else {
                                assert(t[j].0 == x);
                            }
                        }
                        if has_entry(t, x) {
                            let j = choose|j: int| 0 <= j < t.len() && (#[trigger] t[j]).0 == x;
                            if j == i {
                                assert(s[j].0 == x);
                            } else {
                                assert(s[j].0 == x);
                            }
                        }
                    }
                    assert forall|x: Seq<char>| #[trigger] has_entry(t, x) implies entries_map(t)[x]
                        == entries_map(s).insert(k, rec)[x] by {
                        let j0 = choose|j: int| 0 <= j < t.len() && (#[trigger] t[j]).0 == x;
                        let f = lemma_first_entry_exists(t, x, j0);
                        let a = choose|j: int| is_first_entry(t, x, j);
                        lemma_first_entry_unique(t, x, a, f);
                        if x == k {
                            assert(is_first_entry(t, k, i as int));
                            lemma_first_entry_unique(t, k, a, i as int);
                        } else {
                            assert(a != i);
                            assert forall|j: int| 0 <= j < a implies (#[trigger] s[j]).0 != x by {
                                assert(t[j].0 != x);
                            }
                            assert(is_first_entry(s, x, a));
                            let b = choose|j: int| is_first_entry(s, x, j);
                            lemma_first_entry_unique(s, x, a, b);
                        }
                    }
                    assert(entries_map(t) =~= entries_map(s).insert(k, rec));
                }
            },
            None => {
                self.repos.push((full_name.to_owned(), rec));
                proof {
                    if old(self).well_formed() {
                        assert forall|a: int, b: int| 0 <= a < b < self.repos.len() implies (
                        #[trigger] self.repos@[a]).0@ != (#[trigger] self.repos@[b]).0@ by {
                            assert(self.repos@[a] == old(self).repos@[a]);
                            if b == s.len() {
                                assert(s[a].0 == old(self).repos@[a].0@);
                                assert(s[a].0 != k);
                            } else {
                                assert(self.repos@[b] == old(self).repos@[b]);
                            }
                        }
                    }
                    let t = entries_view(self.repos@);
                    assert(t =~= s.push((k, rec)));
                    assert forall|x: Seq<char>| has_entry(t, x) == (has_entry(s, x) || x == k) by {
                        if has_entry(t, x) {
                            let j = choose|j: int| 0 <= j < t.len() && (#[trigger] t[j]).0 == x;
                            if j < s.len() {
                                assert(s[j].0 == x);
                            }
                        }
                        if has_entry(s, x) {
                            let j = choose|j: int| 0 <= j < s.len() && (#[trigger] s[j]).0 == x;
                            assert(t[j].0 == x);
                        }
                        if x == k {
                            assert(t[s.len() as int].0 == x);
                        }
                    }
                    assert forall|x: Seq<char>| #[trigger] has_entry(t, x) implies entries_map(t)[x]
                        == entries_map(s).insert(k, rec)[x] by {
                        let j0 = choose|j: int| 0 <= j < t.len() && (#[trigger] t[j]).0 == x;
                        let f = lemma_first_entry_exists(t, x, j0);
                        let a = choose|j: int| is_first_entry(t, x, j);
                        lemma_first_entry_unique(t, x, a, f);
                        if x == k {
                            assert(is_first_entry(t, k, s.len() as int));
                            lemma_first_entry_unique(t, k, a, s.len() as int);
                        } else {
                            assert(a < s.len());
                            assert forall|j: int| 0 <= j < a implies (#[trigger] s[j]).0 != x by {
                                assert(t[j].0 != x);
                            }
                            assert(is_first_entry(s, x, a));
                            let b = choose|j: int| is_first_entry(s, x, j);
                            lemma_first_entry_unique(s, x, a, b);
                        }
                    }
                    assert(entries_map(t) =~= entries_map(s).insert(k, rec));
                }
            },
        }
    }

    /// Takes the skips that older versions kept in the state, leaving none.
    pub fn drain_legacy_skipped(&mut self) -> (r: Vec<String>)
        ensures
            old(self).well_formed() ==> final(self).well_formed(),
            strings_view(r@).to_set() == old(self)@.skipped,
            final(self)@.skipped == Set::<Seq<char>>::empty(),
            final(self)@.repos == old(self)@.repos,
    {
        let mut taken: Vec<String> = Vec::new();
        std::mem::swap(&mut taken, &mut self.skipped);
        proof {
            assert(strings_view(self.skipped@).to_set() =~= Set::empty());
        }
        taken
    }
}

} // verus!
