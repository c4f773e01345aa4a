//! Edit distance between phoneme strings.
use vstd::prelude::*;

verus! {

/// The Damerau–Levenshtein distance between two character sequences.
pub uninterp spec fn dl_distance(a: Seq<char>, b: Seq<char>) -> nat;

/// Relies on `strsim::damerau_levenshtein`: the unrestricted
/// Damerau–Levenshtein distance over the characters of both strings. It is a
/// metric, so it does not depend on the order of its arguments and is zero
/// exactly on equal strings.
#[verifier::external_body]
pub(crate) fn edit_distance(a: &str, b: &str) -> (r: usize)
    ensures
        r as nat == dl_distance(a@, b@),
        r as nat == dl_distance(b@, a@),
        (r == 0) == (a@ == b@),
{
    strsim::damerau_levenshtein(a, b)
}

} // verus!
