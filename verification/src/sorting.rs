//! Stable sorting by a string key: what it means, and that it has exactly
//! one outcome.
use vstd::prelude::*;

use crate::config::{lemma_push_contains, str_eq, strings_view};
use crate::text::{
    lemma_lex_antisym, lemma_lex_refl, lemma_lex_total, lemma_lex_trans, lex_le, str_le,
};

verus! {

/// Whether an element's key is `k`.
pub open spec fn key_is<A>(key: spec_fn(A) -> Seq<char>, k: Seq<char>) -> spec_fn(A) -> bool {
    |u: A| key(u) == k
}

/// The elements of `s` whose key is `k`, in order.
pub open spec fn group<A>(s: Seq<A>, key: spec_fn(A) -> Seq<char>, k: Seq<char>) -> Seq<A> {
    s.filter(key_is(key, k))
}

/// `s` is ordered by key.
pub open spec fn sorted_by_key<A>(s: Seq<A>, key: spec_fn(A) -> Seq<char>) -> bool {
    forall|i: int, j: int| 0 <= i < j < s.len() ==> lex_le(key(s[i]), key(s[j]))
}

/// `r` is what a stable sort of `s` by `key` gives: it is ordered by key, and
/// the elements that share a key keep their relative order.
pub open spec fn stably_sorted_from<A>(r: Seq<A>, s: Seq<A>, key: spec_fn(A) -> Seq<char>) -> bool {
    &&& sorted_by_key(r, key)
    &&& forall|k: Seq<char>| #[trigger] group(r, key, k) == group(s, key, k)
}

/// The stable sort of `s` by `key`.
pub open spec fn stable_sort<A>(s: Seq<A>, key: spec_fn(A) -> Seq<char>) -> Seq<A> {
    choose|r: Seq<A>| stably_sorted_from(r, s, key)
}

/// A stable sort by key has exactly one outcome.
pub proof fn lemma_stable_sort_unique<A>(
    r1: Seq<A>,
    r2: Seq<A>,
    s: Seq<A>,
    key: spec_fn(A) -> Seq<char>,
)
    requires
        stably_sorted_from(r1, s, key),
        stably_sorted_from(r2, s, key),
    ensures
        r1 == r2,
{
    lemma_same_groups_sorted_equal(r1, r2, key);
}

proof fn lemma_in_group_is_in<A>(s: Seq<A>, k: Seq<char>, x: A, key: spec_fn(A) -> Seq<char>)
    requires
        group(s, key, k).contains(x),
    ensures
        s.contains(x),
        key(x) == k,
{
    let pred = key_is(key, k);
    broadcast use vstd::seq_lib::group_filter_ensures;

    s.lemma_filter_contains_rev(pred, x);
    let j = choose|j: int| 0 <= j < group(s, key, k).len() && group(s, key, k)[j] == x;
    assert(pred(group(s, key, k)[j]));
}

proof fn lemma_group_of_last<A>(s: Seq<A>, k: Seq<char>, key: spec_fn(A) -> Seq<char>)
    requires
        s.len() > 0,
    ensures
        group(s, key, k) == if key(s.last()) == k {
            group(s.drop_last(), key, k).push(s.last())
        } else {
            group(s.drop_last(), key, k)
        },
{
    let pred = key_is(key, k);
    assert(s =~= s.drop_last().push(s.last()));
    s.drop_last().lemma_filter_push(s.last(), pred);
}

proof fn lemma_same_groups_sorted_equal<A>(r1: Seq<A>, r2: Seq<A>, key: spec_fn(A) -> Seq<char>)
    requires
        sorted_by_key(r1, key),
        sorted_by_key(r2, key),
        forall|k: Seq<char>| #[trigger] group(r1, key, k) == group(r2, key, k),
    ensures
        r1 == r2,
    decreases r1.len() + r2.len(),
{
    if r1.len() == 0 && r2.len() == 0 {
        assert(r1 =~= r2);
    } else if r1.len() == 0 {
        let x = r2.last();
        lemma_group_of_last(r2, key(x), key);
        assert(group(r2, key, key(x)).contains(x)) by {
            assert(group(r2, key, key(x)).last() == x);
        }
        assert(group(r1, key, key(x)) == group(r2, key, key(x)));
        lemma_in_group_is_in(r1, key(x), x, key);
    } else if r2.len() == 0 {
        let x = r1.last();
        lemma_group_of_last(r1, key(x), key);
        assert(group(r1, key, key(x)).last() == x);
        assert(group(r1, key, key(x)) == group(r2, key, key(x)));
        lemma_in_group_is_in(r2, key(x), x, key);
    } else {
        let x1 = r1.last();
        let x2 = r2.last();
        let k1 = key(x1);
        let k2 = key(x2);
        lemma_group_of_last(r1, k1, key);
        lemma_group_of_last(r2, k2, key);
        lemma_group_of_last(r1, k2, key);
        lemma_group_of_last(r2, k1, key);
        assert(group(r1, key, k1) == group(r2, key, k1));
        assert(group(r1, key, k2) == group(r2, key, k2));
        // x1 occurs in r2, so its key is at most k2; symmetrically.
        assert(group(r2, key, k1).contains(x1)) by {
            assert(group(r1, key, k1).last() == x1);
        }
        lemma_in_group_is_in(r2, k1, x1, key);
        let j2 = choose|j: int| 0 <= j < r2.len() && r2[j] == x1;
        if j2 < r2.len() - 1 {
            assert(lex_le(key(r2[j2]), key(r2[r2.len() - 1])));
        } else {
            lemma_lex_refl(k1);
        }
        assert(lex_le(k1, k2));
        assert(group(r1, key, k2).contains(x2)) by {
            assert(group(r2, key, k2).last() == x2);
        }
        lemma_in_group_is_in(r1, k2, x2, key);
        let j1 = choose|j: int| 0 <= j < r1.len() && r1[j] == x2;
        if j1 < r1.len() - 1 {
            assert(lex_le(key(r1[j1]), key(r1[r1.len() - 1])));
        } else {
            lemma_lex_refl(k2);
        }
        assert(lex_le(k2, k1));
        lemma_lex_antisym(k1, k2);
        assert(x1 == x2) by {
            assert(group(r1, key, k1).last() == x1);
            assert(group(r2, key, k1).last() == x2);
        }
        let d1 = r1.drop_last();
        let d2 = r2.drop_last();
        assert forall|k: Seq<char>| #[trigger] group(d1, key, k) == group(d2, key, k) by {
            lemma_group_of_last(r1, k, key);
            lemma_group_of_last(r2, k, key);
            if k == k1 {
                assert(group(d1, key, k) =~= group(r1, key, k).drop_last());
                assert(group(d2, key, k) =~= group(r2, key, k).drop_last());
            }
        }
        lemma_same_groups_sorted_equal(d1, d2, key);
        assert(r1 =~= d1.push(x1));
        assert(r2 =~= d2.push(x2));
    }
}

/// Inserting `x` after every element whose key is at most its own keeps a
/// list sorted, and appends `x` to the group of its key.
pub proof fn lemma_insert_sorted<A>(
    s: Seq<A>,
    p: int,
    x: A,
    prefix: Seq<A>,
    key: spec_fn(A) -> Seq<char>,
)
    requires
        sorted_by_key(s, key),
        0 <= p <= s.len(),
        forall|j: int| 0 <= j < p ==> lex_le(key(#[trigger] s[j]), key(x)),
        forall|j: int| p <= j < s.len() ==> !lex_le(key(#[trigger] s[j]), key(x)),
        forall|k: Seq<char>| #[trigger] group(s, key, k) == group(prefix, key, k),
    ensures
        sorted_by_key(s.insert(p, x), key),
        forall|k: Seq<char>| #[trigger] group(s.insert(p, x), key, k) == group(prefix.push(x), key, k),
{
    let t = s.insert(p, x);
    let kx = key(x);
    assert forall|i: int, j: int| 0 <= i < j < t.len() implies lex_le(
        key(t[i]),
        key(t[j]),
    ) by {
        if i == p {
            assert(t[j] == s[j - 1]);
            lemma_lex_total(key(s[j - 1]), kx);
        } else if j == p {
            assert(t[i] == s[i]);
        } else {
            let si = if i < p { i } else { i - 1 };
            let sj = if j < p { j } else { j - 1 };
            assert(t[i] == s[si]);
            assert(t[j] == s[sj]);
        }
    }
    assert(t =~= s.take(p) + seq![x] + s.skip(p));
    assert(s =~= s.take(p) + s.skip(p));
    assert forall|k: Seq<char>| #[trigger] group(t, key, k) == group(prefix.push(x), key, k) by {
        let pred = key_is(key, k);
        Seq::filter_distributes_over_add(s.take(p) + seq![x], s.skip(p), pred);
        Seq::filter_distributes_over_add(s.take(p), seq![x], pred);
        Seq::filter_distributes_over_add(s.take(p), s.skip(p), pred);
        prefix.lemma_filter_push(x, pred);
        Seq::<A>::empty().lemma_filter_push(x, pred);
        assert(seq![x] =~= Seq::<A>::empty().push(x));
        reveal(Seq::filter);
        assert(Seq::<A>::empty().filter(pred) =~= Seq::<A>::empty());
        assert(group(t, key, k) == t.filter(pred));
        assert(group(s, key, k) == s.filter(pred));
        assert(group(prefix.push(x), key, k) == prefix.push(x).filter(pred));
        if k == kx {
            lemma_lex_refl(kx);
            assert forall|j: int| 0 <= j < s.skip(p).len() implies !pred(#[trigger] s.skip(p)[j]) by {
                assert(s.skip(p)[j] == s[p + j]);
            }
            assert(s.skip(p).all(|u: A| !pred(u)));
            s.skip(p).lemma_all_neg_filter_empty(pred);
            assert(s.skip(p).filter(pred) =~= Seq::<A>::empty());
            assert(t.filter(pred) =~= s.filter(pred).push(x));
        } else {
            assert(t.filter(pred) =~= s.filter(pred));
        }
    }
}


/// The first position of a sorted list, from `i` on, whose key is above
/// `kx`: where an element with key `kx` goes in a stable insertion.
proof fn lemma_insert_point<A>(r: Seq<A>, key: spec_fn(A) -> Seq<char>, kx: Seq<char>, i: int) -> (p:
    int)
    requires
        sorted_by_key(r, key),
        0 <= i <= r.len(),
        forall|j: int| 0 <= j < i ==> lex_le(key(#[trigger] r[j]), kx),
    ensures
        i <= p <= r.len(),
        forall|j: int| 0 <= j < p ==> lex_le(key(#[trigger] r[j]), kx),
        forall|j: int| p <= j < r.len() ==> !lex_le(key(#[trigger] r[j]), kx),
    decreases r.len() - i,
{
    if i == r.len() {
        i
    } else if lex_le(key(r[i]), kx) {
        lemma_insert_point(r, key, kx, i + 1)
    } else {
        assert forall|j: int| i <= j < r.len() implies !lex_le(key(#[trigger] r[j]), kx) by {
            if j > i && lex_le(key(r[j]), kx) {
                lemma_lex_trans(key(r[i]), key(r[j]), kx);
            }
        }
        i
    }
}

/// Every list has a stable sort.
pub proof fn lemma_stable_sort_exists<A>(s: Seq<A>, key: spec_fn(A) -> Seq<char>)
    ensures
        stably_sorted_from(stable_sort(s, key), s, key),
    decreases s.len(),
{
    if s.len() == 0 {
        assert(stably_sorted_from(s, s, key));
    } else {
        let d = s.drop_last();
        let x = s.last();
        lemma_stable_sort_exists(d, key);
        let r = stable_sort(d, key);
        let p = lemma_insert_point(r, key, key(x), 0);
        lemma_insert_sorted(r, p, x, d, key);
        assert(s =~= d.push(x));
        assert(stably_sorted_from(r.insert(p, x), s, key));
    }
}

/// A list already in order is its own stable sort.
pub proof fn lemma_stable_sort_of_sorted<A>(s: Seq<A>, key: spec_fn(A) -> Seq<char>)
    requires
        sorted_by_key(s, key),
    ensures
        stable_sort(s, key) == s,
{
    assert(stably_sorted_from(s, s, key));
    lemma_stable_sort_exists(s, key);
    lemma_stable_sort_unique(stable_sort(s, key), s, s, key);
}

/// Sorting twice gives what sorting once gives.
pub proof fn law_stable_sort_idempotent<A>(s: Seq<A>, key: spec_fn(A) -> Seq<char>)
    ensures
        stable_sort(stable_sort(s, key), key) == stable_sort(s, key),
{
    lemma_stable_sort_exists(s, key);
    lemma_stable_sort_of_sorted(stable_sort(s, key), key);
}

/// A stable sort keeps the elements of the list: it only reorders them.
pub proof fn law_stable_sort_same_elements<A>(s: Seq<A>, key: spec_fn(A) -> Seq<char>, x: A)
    ensures
        stable_sort(s, key).contains(x) == s.contains(x),
{
    let r = stable_sort(s, key);
    lemma_stable_sort_exists(s, key);
    let k = key(x);
    let pred = key_is(key, k);
    assert(group(r, key, k) == group(s, key, k));
    if s.contains(x) {
        let j = choose|j: int| 0 <= j < s.len() && s[j] == x;
        s.lemma_filter_contains(pred, j);
        lemma_in_group_is_in(r, k, x, key);
    }
    if r.contains(x) {
        let j = choose|j: int| 0 <= j < r.len() && r[j] == x;
        r.lemma_filter_contains(pred, j);
        lemma_in_group_is_in(s, k, x, key);
    }
}

/// Filtering by a predicate that `x` meets keeps every occurrence of `x`.
proof fn lemma_filter_count<A>(s: Seq<A>, pred: spec_fn(A) -> bool, x: A)
    requires
        pred(x),
    ensures
        s.filter(pred).to_multiset().count(x) == s.to_multiset().count(x),
    decreases s.len(),
{
    broadcast use vstd::seq_lib::group_to_multiset_ensures;
    broadcast use vstd::multiset::group_multiset_axioms;

    if s.len() == 0 {
        reveal(Seq::filter);
        assert(s.filter(pred) =~= s);
    } else {
        let d = s.drop_last();
        let y = s.last();
        lemma_filter_count(d, pred, x);
        assert(s =~= d.push(y));
        d.lemma_filter_push(y, pred);
    }
}

/// A stable sort is a permutation: every element occurs in it as often as
/// in the list sorted.
pub proof fn law_stable_sort_same_counts<A>(s: Seq<A>, key: spec_fn(A) -> Seq<char>, x: A)
    ensures
        stable_sort(s, key).to_multiset().count(x) == s.to_multiset().count(x),
{
    lemma_stable_sort_exists(s, key);
    let r = stable_sort(s, key);
    let pred = key_is(key, key(x));
    assert(group(r, key, key(x)) == group(s, key, key(x)));
    lemma_filter_count(r, pred, x);
    lemma_filter_count(s, pred, x);
}

/// A stable sort of a list without repeats has no repeats.
pub proof fn lemma_stable_sort_no_duplicates<A>(s: Seq<A>, key: spec_fn(A) -> Seq<char>)
    requires
        s.no_duplicates(),
    ensures
        stable_sort(s, key).no_duplicates(),
{
    broadcast use vstd::seq_lib::group_to_multiset_ensures;

    let r = stable_sort(s, key);
    s.lemma_multiset_has_no_duplicates();
    assert forall|x: A| r.to_multiset().contains(x) implies r.to_multiset().count(x) == 1 by {
        law_stable_sort_same_counts(s, key, x);
    }
    r.lemma_multiset_has_no_duplicates_conv();
}


// ---------------------------------------------------------------------------
// Sorting strings
// ---------------------------------------------------------------------------

/// A string is its own sort key.
pub open spec fn ident_key() -> spec_fn(Seq<char>) -> Seq<char> {
    |s: Seq<char>| s
}

/// Sorts strings in the order of `String`, as `slice::sort` does.
pub fn sort_strings(v: &Vec<String>) -> (r: Vec<String>)
    ensures
        strings_view(r@) == stable_sort(strings_view(v@), ident_key()),
{
    let ghost orig = strings_view(v@);
    let mut out: Vec<String> = Vec::new();
    let mut i: usize = 0;
    proof {
        assert forall|k: Seq<char>| #[trigger]
            group(strings_view(out@), ident_key(), k) == group(orig.take(0), ident_key(), k) by {
            assert(strings_view(out@) =~= orig.take(0));
        }
    }
    while i < v.len()
        invariant
            orig == strings_view(v@),
            i <= v.len(),
            sorted_by_key(strings_view(out@), ident_key()),
            forall|k: Seq<char>| #[trigger]
                group(strings_view(out@), ident_key(), k) == group(orig.take(i as int), ident_key(), k),
        decreases v.len() - i,
    {
        let ghost before = strings_view(out@);
        let x = v[i].as_str();
        let mut p: usize = 0;
        while p < out.len() && str_le(out[p].as_str(), x)
            invariant
                p <= out.len(),
                before == strings_view(out@),
                sorted_by_key(before, ident_key()),
                forall|j: int| 0 <= j < p ==> lex_le(#[trigger] before[j], x@),
            decreases out.len() - p,
        {
            p = p + 1;
        }
        proof {
            assert(ident_key()(x@) == x@);
            assert forall|j: int| 0 <= j < p implies lex_le(
                ident_key()(#[trigger] before[j]),
                ident_key()(x@),
            ) by {}
            assert forall|j: int| p <= j < before.len() implies !lex_le(
                ident_key()(#[trigger] before[j]),
                ident_key()(x@),
            ) by {
                assert(!lex_le(before[p as int], x@));
                if j > p {
                    assert(lex_le(ident_key()(before[p as int]), ident_key()(before[j])));
                    if lex_le(before[j], x@) {
                        lemma_lex_trans(before[p as int], before[j], x@);
                    }
                }
            }
            lemma_insert_sorted(before, p as int, x@, orig.take(i as int), ident_key());
            assert(orig.take(i + 1) =~= orig.take(i as int).push(x@));
        }
        out.insert(p, v[i].clone());
        proof {
            assert(strings_view(out@) =~= before.insert(p as int, x@));
        }
        i = i + 1;
    }
    proof {
        assert(orig.take(i as int) =~= orig);
        let r = strings_view(out@);
        assert(stably_sorted_from(r, orig, ident_key()));
        let c = stable_sort(orig, ident_key());
        assert(stably_sorted_from(c, orig, ident_key()));
        lemma_stable_sort_unique(r, c, orig, ident_key());
    }
    out
}

/// `a` comes strictly before `b`.
pub open spec fn lex_lt(a: Seq<char>, b: Seq<char>) -> bool {
    lex_le(a, b) && a != b
}

pub open spec fn strictly_sorted(s: Seq<Seq<char>>) -> bool {
    forall|i: int, j: int| 0 <= i < j < s.len() ==> lex_lt(s[i], s[j])
}

/// The elements of a finite set of strings, in order.
pub open spec fn sorted_set(st: Set<Seq<char>>) -> Seq<Seq<char>> {
    choose|r: Seq<Seq<char>>| strictly_sorted(r) && r.to_set() == st
}

/// Two strictly ordered lists of the same strings are equal.
pub proof fn lemma_strictly_sorted_unique(a: Seq<Seq<char>>, b: Seq<Seq<char>>)
    requires
        strictly_sorted(a),
        strictly_sorted(b),
        a.to_set() == b.to_set(),
    ensures
        a == b,
    decreases a.len(),
{
    if a.len() == 0 {
        if b.len() > 0 {
            assert(b.to_set().contains(b[0]));
        }
        assert(a =~= b);
    } else if b.len() == 0 {
        assert(a.to_set().contains(a[0]));
    } else {
        assert(b.to_set().contains(a[0]));
        let j = choose|j: int| 0 <= j < b.len() && b[j] == a[0];
        assert(a.to_set().contains(b[0]));
        let i = choose|i: int| 0 <= i < a.len() && a[i] == b[0];
        if i > 0 {
            assert(lex_lt(a[0], a[i]));
        } else {
            lemma_lex_refl(a[0]);
        }
        if j > 0 {
            assert(lex_lt(b[0], b[j]));
        } else {
            lemma_lex_refl(b[0]);
        }
        lemma_lex_antisym(a[0], b[0]);
        let a1 = a.drop_first();
        let b1 = b.drop_first();
        assert forall|x: Seq<char>| a1.to_set().contains(x) == b1.to_set().contains(x) by {
            if a1.to_set().contains(x) {
                let k = choose|k: int| 0 <= k < a1.len() && a1[k] == x;
                assert(a[k + 1] == x);
                assert(lex_lt(a[0], a[k + 1]));
                assert(a.to_set().contains(x));
                let m = choose|m: int| 0 <= m < b.len() && b[m] == x;
                assert(m != 0);
                assert(b1[m - 1] == x);
            }
            if b1.to_set().contains(x) {
                let k = choose|k: int| 0 <= k < b1.len() && b1[k] == x;
                assert(b[k + 1] == x);
                assert(lex_lt(b[0], b[k + 1]));
                assert(b.to_set().contains(x));
                let m = choose|m: int| 0 <= m < a.len() && a[m] == x;
                assert(m != 0);
                assert(a1[m - 1] == x);
            }
        }
        assert(a1.to_set() =~= b1.to_set());
        lemma_strictly_sorted_unique(a1, b1);
        assert(a =~= seq![a[0]] + a1);
        assert(b =~= seq![b[0]] + b1);
    }
}

/// The first position of a strictly ordered list, from `i` on, whose string
/// is not below `x`.
proof fn lemma_strict_insert_point(r: Seq<Seq<char>>, x: Seq<char>, i: int) -> (p: int)
    requires
        strictly_sorted(r),
        0 <= i <= r.len(),
        forall|j: int| 0 <= j < i ==> lex_lt(#[trigger] r[j], x),
    ensures
        i <= p <= r.len(),
        forall|j: int| 0 <= j < p ==> lex_lt(#[trigger] r[j], x),
        p < r.len() ==> !lex_lt(r[p], x),
    decreases r.len() - i,
{
    if i < r.len() && lex_lt(r[i], x) {
        lemma_strict_insert_point(r, x, i + 1)
    } else {
        i
    }
}

/// Every finite set of strings has a listing in order without repeats.
proof fn lemma_sorted_listing_exists(s: Seq<Seq<char>>) -> (r: Seq<Seq<char>>)
    ensures
        strictly_sorted(r),
        r.to_set() == s.to_set(),
    decreases s.len(),
{
    if s.len() == 0 {
        assert(s.to_set() =~= Set::<Seq<char>>::empty());
        let r = Seq::<Seq<char>>::empty();
        assert(r.to_set() =~= Set::<Seq<char>>::empty());
        r
    } else {
        let d = s.drop_last();
        let x = s.last();
        let r0 = lemma_sorted_listing_exists(d);
        assert(s =~= d.push(x));
        lemma_push_contains(d, x);
        assert(s.to_set() =~= d.to_set().insert(x));
        if r0.to_set().contains(x) {
            r0
        } else {
            let p = lemma_strict_insert_point(r0, x, 0);
            let t = r0.insert(p, x);
            assert forall|j: int| p <= j < r0.len() implies lex_lt(x, #[trigger] r0[j]) by {
                lemma_lex_total(r0[p], x);
                assert(r0.to_set().contains(r0[p]));
                if j > p {
                    assert(lex_lt(r0[p], r0[j]));
                    lemma_lex_trans(x, r0[p], r0[j]);
                    if x == r0[j] {
                        assert(r0.to_set().contains(r0[j]));
                    }
                }
            }
            assert forall|a: int, b: int| 0 <= a < b < t.len() implies lex_lt(t[a], t[b]) by {
                if a == p {
                    assert(t[b] == r0[b - 1]);
                } else if b == p {
                    assert(t[a] == r0[a]);
                } else {
                    let sa = if a < p { a } else { a - 1 };
                    let sb = if b < p { b } else { b - 1 };
                    assert(t[a] == r0[sa]);
                    assert(t[b] == r0[sb]);
                }
            }
            assert forall|y: Seq<char>| t.to_set().contains(y) == (r0.to_set().contains(y) || y == x) by {
                if t.to_set().contains(y) {
                    let k = choose|k: int| 0 <= k < t.len() && t[k] == y;
                    if k < p {
                        assert(r0[k] == y);
                    } else if k > p {
                        assert(r0[k - 1] == y);
                    }
                }
                if r0.to_set().contains(y) {
                    let k = choose|k: int| 0 <= k < r0.len() && r0[k] == y;
                    if k < p {
                        assert(t[k] == y);
                    } else {
                        assert(t[k + 1] == y);
                    }
                }
                if y == x {
                    assert(t[p] == y);
                }
            }
            assert(t.to_set() =~= s.to_set());
            t
        }
    }
}

/// The listing of a finite set of strings is in order, without repeats,
/// and holds exactly the set's strings.
pub proof fn law_sorted_set_lists_the_set(st: Set<Seq<char>>)
    requires
        st.finite(),
    ensures
        strictly_sorted(sorted_set(st)),
        sorted_set(st).to_set() == st,
{
    st.lemma_to_seq_to_set_id();
    let r = lemma_sorted_listing_exists(st.to_seq());
    assert(strictly_sorted(r) && r.to_set() == st);
}

/// The distinct strings of `v`, in order.
pub fn sorted_unique(v: &Vec<String>) -> (r: Vec<String>)
    ensures
        strings_view(r@) == sorted_set(strings_view(v@).to_set()),
{
    let ghost orig = strings_view(v@);
    let mut out: Vec<String> = Vec::new();
    let mut i: usize = 0;
    proof {
        assert(strings_view(out@).to_set() =~= orig.take(0).to_set());
    }
    while i < v.len()
        invariant
            orig == strings_view(v@),
            i <= v.len(),
            strictly_sorted(strings_view(out@)),
            strings_view(out@).to_set() == orig.take(i as int).to_set(),
        decreases v.len() - i,
    {
        let ghost before = strings_view(out@);
        let x = v[i].as_str();
        let mut p: usize = 0;
        while p < out.len() && str_le(out[p].as_str(), x) && !str_eq(out[p].as_str(), x)
            invariant
                p <= out.len(),
                before == strings_view(out@),
                forall|j: int| 0 <= j < p ==> lex_lt(#[trigger] before[j], x@),
            decreases out.len() - p,
        {
            p = p + 1;
        }
        proof {
            assert(orig.take(i + 1) =~= orig.take(i as int).push(x@));
            lemma_push_contains(orig.take(i as int), x@);
        }
        if p < out.len() && str_eq(out[p].as_str(), x) {
            proof {
                assert(before[p as int] == x@);
                assert(before.to_set().contains(x@));
                assert(orig.take(i + 1).to_set() =~= orig.take(i as int).to_set());
            }
        } else {
            proof {
                assert forall|j: int| p <= j < before.len() implies lex_lt(x@, #[trigger] before[j]) by {
                    if j == p {
                        lemma_lex_total(before[p as int], x@);
                    } else {
                        lemma_lex_total(before[p as int], x@);
                        assert(lex_lt(before[p as int], before[j]));
                        lemma_lex_trans(x@, before[p as int], before[j]);
                        if x@ == before[j] {
                            lemma_lex_antisym(before[p as int], before[j]);
                        }
                    }
                }
            }
            out.insert(p, v[i].clone());
            proof {
                let t = strings_view(out@);
                assert(t =~= before.insert(p as int, x@));
                assert forall|a: int, b: int| 0 <= a < b < t.len() implies lex_lt(t[a], t[b]) by {
                    if a == p {
                        assert(t[b] == before[b - 1]);
                    } else if b == p {
                        assert(t[a] == before[a]);
                    } else {
                        let sa = if a < p { a } else { a - 1 };
                        let sb = if b < p { b } else { b - 1 };
                        assert(t[a] == before[sa]);
                        assert(t[b] == before[sb]);
                    }
                }
                assert(t =~= before.take(p as int) + seq![x@] + before.skip(p as int));
                assert(before =~= before.take(p as int) + before.skip(p as int));
                assert forall|y: Seq<char>| t.to_set().contains(y) == (before.to_set().contains(y) || y == x@) by {
                    if t.to_set().contains(y) {
                        let k = choose|k: int| 0 <= k < t.len() && t[k] == y;
                        if k < p {
                            assert(before[k] == y);
                        } else if k > p {
                            assert(before[k - 1] == y);
                        }
                    }
                    if before.to_set().contains(y) {
                        let k = choose|k: int| 0 <= k < before.len() && before[k] == y;
                        if k < p {
                            assert(t[k] == y);
                        } else {
                            assert(t[k + 1] == y);
                        }
                    }
                    if y == x@ {
                        assert(t[p as int] == y);
                    }
                }
                assert(t.to_set() =~= orig.take(i + 1).to_set());
            }
        }
        i = i + 1;
    }
    proof {
        assert(orig.take(i as int) =~= orig);
        let r = strings_view(out@);
        let c = sorted_set(orig.to_set());
        assert(strictly_sorted(c) && c.to_set() == orig.to_set());
        lemma_strictly_sorted_unique(r, c);
    }
    out
}

} // verus!
