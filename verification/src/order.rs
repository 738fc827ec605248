//! The dictionary order as a three-way comparison.

use crate::text::{lemma_lex_lt_irreflexive, lemma_lex_lt_total, lex_lt, str_lt};
use std::cmp::Ordering;
use vstd::prelude::*;

verus! {

/// Compares two names in dictionary order by code point.
pub fn compare_names(a: &String, b: &String) -> (r: Ordering)
    ensures
        r == Ordering::Less <==> lex_lt(a@, b@),
        r == Ordering::Greater <==> lex_lt(b@, a@),
        r == Ordering::Equal <==> a@ == b@,
{
    proof {
        lemma_lex_lt_total(a@, b@);
        lemma_lex_lt_irreflexive(a@);
        if lex_lt(a@, b@) && lex_lt(b@, a@) {
            crate::text::lemma_lex_lt_transitive(a@, b@, a@);
        }
    }
    if str_lt(a.as_str(), b.as_str()) {
        Ordering::Less
    } else if str_lt(b.as_str(), a.as_str()) {
        Ordering::Greater
    } else {
        Ordering::Equal
    }
}

} // verus!
