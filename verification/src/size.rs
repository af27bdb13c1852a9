//! How the sizes of local archives are shown: the unit systems, and the
//! order of the listing.
use vstd::prelude::*;

use crate::text::{lemma_lex_total, lemma_lex_trans, lex_le, str_le};

verus! {

/// The unit system for sizes.
#[derive(Clone, Copy, PartialEq, Eq, Structural, Debug)]
pub enum SizeFormat {
    /// Powers of 1000 (kB, MB, GB, ...).
    Decimal,
    /// Powers of 1024 (KiB, MiB, GiB, ...).
    Binary,
    /// The exact byte count, with no unit conversion.
    Raw,
}

/// A directory's name and its size in bytes, as characters and a number.
pub open spec fn entry_view(e: (String, u64)) -> (Seq<char>, u64) {
    (e.0@, e.1)
}

pub open spec fn entries_view(v: Seq<(String, u64)>) -> Seq<(Seq<char>, u64)> {
    v.map_values(|e: (String, u64)| entry_view(e))
}

/// `a` is listed no later than `b`: larger sizes first, equal sizes by name.
pub open spec fn listed_before(a: (Seq<char>, u64), b: (Seq<char>, u64)) -> bool {
    a.1 > b.1 || (a.1 == b.1 && lex_le(a.0, b.0))
}

/// The entries are in listing order.
pub open spec fn in_listing_order(s: Seq<(Seq<char>, u64)>) -> bool {
    forall|i: int, j: int| 0 <= i < j < s.len() ==> listed_before(s[i], s[j])
}

proof fn lemma_listed_before_total(a: (Seq<char>, u64), b: (Seq<char>, u64))
    ensures
        listed_before(a, b) || listed_before(b, a),
{
    lemma_lex_total(a.0, b.0);
}

proof fn lemma_listed_before_trans(a: (Seq<char>, u64), b: (Seq<char>, u64), c: (Seq<char>, u64))
    requires
        listed_before(a, b),
        listed_before(b, c),
    ensures
        listed_before(a, c),
{
    if a.1 == b.1 && b.1 == c.1 {
        lemma_lex_trans(a.0, b.0, c.0);
    }
}

/// The entries of the size listing in its order: largest first, entries of
/// equal size by name. The result holds the same entries, each as often.
pub fn order_by_size(entries: &Vec<(String, u64)>) -> (r: Vec<(String, u64)>)
    ensures
        in_listing_order(entries_view(r@)),
        entries_view(r@).to_multiset() == entries_view(entries@).to_multiset(),
{
    broadcast use vstd::seq_lib::group_to_multiset_ensures;

    let ghost orig = entries_view(entries@);
    let mut out: Vec<(String, u64)> = Vec::new();
    let mut i: usize = 0;
    proof {
        assert(entries_view(out@) =~= orig.take(0));
    }
    while i < entries.len()
        invariant
            orig == entries_view(entries@),
            i <= entries.len(),
            in_listing_order(entries_view(out@)),
            entries_view(out@).to_multiset() == orig.take(i as int).to_multiset(),
        decreases entries.len() - i,
    {
        let ghost before = entries_view(out@);
        let name = entries[i].0.as_str();
        let size = entries[i].1;
        let ghost x = (name@, size);
        let mut p: usize = 0;
        while p < out.len() && (out[p].1 > size || (out[p].1 == size && str_le(
            out[p].0.as_str(),
            name,
        )))
            invariant
                p <= out.len(),
                before == entries_view(out@),
                x == (name@, size),
                forall|j: int| 0 <= j < p ==> listed_before(#[trigger] before[j], x),
            decreases out.len() - p,
        {
            p = p + 1;
        }
        proof {
            assert forall|j: int| p <= j < before.len() implies listed_before(x, #[trigger] before[j]) by {
                lemma_listed_before_total(before[p as int], x);
                if j > p {
                    lemma_listed_before_trans(x, before[p as int], before[j]);
                }
            }
        }
        out.insert(p, (name.to_owned(), size));
        proof {
            let t = entries_view(out@);
            assert(t =~= before.insert(p as int, x));
            assert forall|a: int, b: int| 0 <= a < b < t.len() implies listed_before(t[a], t[b]) by {
                if a == p {
                    assert(t[b] == before[b - 1]);
                } else if b == p {
                    assert(t[a] == before[a]);
                } else {
                    let sa = if a < p { a } else { a - 1 };
                    let sb = if b < p { b } else { b - 1 };
                    assert(t[a] == before[sa]);
                    assert(t[b] == before[sb]);
                }
            }
            vstd::seq_lib::to_multiset_insert(before, p as int, x);
            assert(orig[i as int] == x);
            assert(orig.take(i + 1) =~= orig.take(i as int).push(x));
            vstd::seq_lib::to_multiset_build(orig.take(i as int), x);
            assert(t.to_multiset() == before.to_multiset().insert(x));
            assert(t.to_multiset() =~= orig.take(i + 1).to_multiset());
        }
        i = i + 1;
    }
    proof {
        assert(orig.take(i as int) =~= orig);
    }
    out
}

} // verus!
