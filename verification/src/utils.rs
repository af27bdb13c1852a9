//! Small text helpers shared by the commands.
use vstd::prelude::*;

use crate::text::{decimal, push_decimal};

verus! {

/// `"1 {singular}"` for one, `"{n} {plural}"` otherwise.
pub open spec fn plural_text(n: nat, singular: Seq<char>, plural: Seq<char>) -> Seq<char> {
    if n == 1 {
        "1 "@ + singular
    } else {
        decimal(n) + " "@ + plural
    }
}

/// A count with the word that goes with it.
pub fn plural(n: usize, singular: &str, plural_form: &str) -> (r: String)
    ensures
        r@ == plural_text(n as nat, singular@, plural_form@),
{
    if n == 1 {
        let mut s = String::new();
        s.append("1 ");
        s.append(singular);
        assert(s@ =~= plural_text(n as nat, singular@, plural_form@));
        s
    } else {
        let mut s = String::new();
        push_decimal(&mut s, n as u64);
        s.append(" ");
        s.append(plural_form);
        assert(s@ =~= plural_text(n as nat, singular@, plural_form@));
        s
    }
}

} // verus!
