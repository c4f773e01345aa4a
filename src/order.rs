//! Lexicographic order on words.
use vstd::prelude::*;
use crate::rank::words_view;

verus! {

/// Ascending lexicographic order on character sequences, by character code.
pub open spec fn chars_le(a: Seq<char>, b: Seq<char>) -> bool
    decreases a.len(),
{
    if a.len() == 0 {
        true
    } else if b.len() == 0 {
        false
    } else if a[0] != b[0] {
        (a[0] as u32) < (b[0] as u32)
    } else {
        chars_le(a.drop_first(), b.drop_first())
    }
}

/// Relies on `slice::sort` for `String`: the same strings, in ascending
/// order, which `str`'s `Ord` defines as lexicographic by bytes and so by
/// character code.
#[verifier::external_body]
pub(crate) fn sort_strings(v: &mut Vec<String>)
    ensures
        words_view(final(v)@).to_multiset() == words_view(old(v)@).to_multiset(),
        forall|i: int, j: int| 0 <= i < j < final(v)@.len() ==> chars_le(final(v)@[i]@, final(v)@[j]@),
{
    v.sort()
}

/// Two words each ordered before the other are equal.
pub proof fn lemma_chars_le_antisymmetric(a: Seq<char>, b: Seq<char>)
    requires
        chars_le(a, b),
        chars_le(b, a),
    ensures
        a == b,
    decreases a.len(),
{
    if a.len() > 0 && b.len() > 0 && a[0] == b[0] {
        lemma_chars_le_antisymmetric(a.drop_first(), b.drop_first());
        assert(a =~= seq![a[0]] + a.drop_first());
        assert(b =~= seq![b[0]] + b.drop_first());
    }
}

/// A sorted list whose neighbours differ holds no word twice.
pub proof fn lemma_sorted_neighbours_distinct(v: Seq<Seq<char>>)
    requires
        forall|i: int, j: int| 0 <= i < j < v.len() ==> chars_le(v[i], v[j]),
        forall|i: int| 0 < i < v.len() ==> #[trigger] v[i] != v[i - 1],
    ensures
        v.no_duplicates(),
{
    assert forall|i: int, j: int| 0 <= i < v.len() && 0 <= j < v.len() && i != j implies v[i] != v[j] by {
        if v[i] == v[j] {
            let (lo, hi) = if i < j { (i, j) } else { (j, i) };
            assert(chars_le(v[lo], v[lo + 1]));
            if lo + 1 < hi {
                assert(chars_le(v[lo + 1], v[hi]));
            }
            lemma_chars_le_antisymmetric(v[lo], v[lo + 1]);
            assert(v[lo + 1] != v[lo + 1 - 1]);
        }
    }
}

} // verus!
