//! Phoneme strings: stress digits, rhyme suffixes and substring matching.
use vstd::prelude::*;
use vstd::string::*;

verus! {

/// A stress marker: the ASCII digits `0` to `9`.
pub open spec fn is_digit(c: char) -> bool {
    '0' <= c && c <= '9'
}

/// Index of the first digit at or after `i`, or `s.len()` when there is none.
pub open spec fn digit_from(s: Seq<char>, i: int) -> int
    decreases s.len() - i,
{
    if i < 0 || i >= s.len() {
        s.len() as int
    } else if is_digit(s[i]) {
        i
    } else {
        digit_from(s, i + 1)
    }
}

/// Start of the space-separated token that holds index `j`.
pub open spec fn token_begin(s: Seq<char>, j: int) -> int
    decreases j,
{
    if j <= 0 {
        0
    } else if s[j - 1] == ' ' {
        j
    } else {
        token_begin(s, j - 1)
    }
}

/// Characters that separate tokens: the Unicode white space characters,
/// that is tab, line feed, vertical tab, form feed, carriage return, space,
/// next line, no-break space, ogham space mark, the spaces from en quad to
/// hair space, line and paragraph separators, narrow no-break space, medium
/// mathematical space and ideographic space.
pub open spec fn is_blank(c: char) -> bool {
    c == ' ' || ('\t' <= c && c <= '\r') || c == '\u{85}' || c == '\u{A0}' || c == '\u{1680}'
        || ('\u{2000}' <= c && c <= '\u{200A}') || c == '\u{2028}' || c == '\u{2029}' || c == '\u{202F}'
        || c == '\u{205F}' || c == '\u{3000}'
}

/// Whether `c` separates tokens.
pub fn blank_exec(c: char) -> (r: bool)
    ensures
        r == is_blank(c),
{
    c == ' ' || ('\t' <= c && c <= '\r') || c == '\u{85}' || c == '\u{A0}' || c == '\u{1680}'
        || ('\u{2000}' <= c && c <= '\u{200A}') || c == '\u{2028}' || c == '\u{2029}' || c == '\u{202F}'
        || c == '\u{205F}' || c == '\u{3000}'
}

/// The whitespace-separated tokens of `s`, joined by single spaces.
pub open spec fn squeeze(s: Seq<char>) -> Seq<char>
    decreases s.len(),
{
    if s.len() == 0 {
        seq![]
    } else {
        let p = s.drop_last();
        let c = s.last();
        if is_blank(c) {
            squeeze(p)
        } else if p.len() > 0 && !is_blank(p.last()) {
            squeeze(p).push(c)
        } else if squeeze(p).len() == 0 {
            seq![c]
        } else {
            squeeze(p).push(' ').push(c)
        }
    }
}

/// Tokens separated by single spaces: no other blank, no leading, trailing
/// or doubled space.
pub open spec fn is_squeezed(t: Seq<char>) -> bool {
    &&& forall|i: int| 0 <= i < t.len() ==> #[trigger] t[i] == ' ' || !is_blank(t[i])
    &&& t.len() > 0 ==> t[0] != ' ' && t[t.len() - 1] != ' '
    &&& forall|i: int| 0 < i < t.len() && #[trigger] t[i] == ' ' ==> t[i - 1] != ' '
}

/// The rhyme suffix: the whitespace-separated tokens from the first one that
/// bears a digit onward, joined by single spaces; the string itself when no
/// token bears a digit.
pub open spec fn suffix_of(s: Seq<char>) -> Seq<char> {
    let n = squeeze(s);
    let j = digit_from(n, 0);
    if j >= n.len() {
        s
    } else {
        n.subrange(token_begin(n, j), n.len() as int)
    }
}

/// `needle` occurs in `hay` at position `i`.
pub open spec fn occurs_at(hay: Seq<char>, needle: Seq<char>, i: int) -> bool {
    0 <= i && i + needle.len() <= hay.len() && hay.subrange(i, i + needle.len()) == needle
}

/// `needle` occurs somewhere in `hay`.
pub open spec fn contains(hay: Seq<char>, needle: Seq<char>) -> bool {
    exists|i: int| occurs_at(hay, needle, i)
}

proof fn lemma_digit_from_bounds(s: Seq<char>, i: int)
    requires
        0 <= i <= s.len(),
    ensures
        i <= digit_from(s, i) <= s.len(),
        digit_from(s, i) < s.len() ==> is_digit(s[digit_from(s, i)]),
        forall|m: int| i <= m < digit_from(s, i) ==> !is_digit(#[trigger] s[m]),
    decreases s.len() - i,
{
    if i < s.len() && !is_digit(s[i]) {
        lemma_digit_from_bounds(s, i + 1);
    }
}

proof fn lemma_digit_from_exact(s: Seq<char>, i: int, j: int)
    requires
        0 <= i <= j <= s.len(),
        forall|m: int| i <= m < j ==> !is_digit(#[trigger] s[m]),
        j < s.len() ==> is_digit(s[j]),
    ensures
        digit_from(s, i) == j,
    decreases j - i,
{
    if i < j {
        lemma_digit_from_exact(s, i + 1, j);
    }
}

proof fn lemma_token_begin_bounds(s: Seq<char>, j: int)
    requires
        0 <= j <= s.len(),
    ensures
        0 <= token_begin(s, j) <= j,
        forall|m: int| token_begin(s, j) <= m < j ==> #[trigger] s[m] != ' ',
        token_begin(s, j) == 0 || s[token_begin(s, j) - 1] == ' ',
    decreases j,
{
    if j > 0 && s[j - 1] != ' ' {
        lemma_token_begin_bounds(s, j - 1);
    }
}

proof fn lemma_token_begin_exact(s: Seq<char>, j: int)
    requires
        0 <= j <= s.len(),
        forall|m: int| 0 <= m < j ==> #[trigger] s[m] != ' ',
    ensures
        token_begin(s, j) == 0,
    decreases j,
{
    if j > 0 {
        lemma_token_begin_exact(s, j - 1);
    }
}

/// Squeezing yields tokens separated by single spaces.
pub proof fn lemma_squeeze_squeezed(s: Seq<char>)
    ensures
        is_squeezed(squeeze(s)),
    decreases s.len(),
{
    if s.len() > 0 {
        let p = s.drop_last();
        let c = s.last();
        lemma_squeeze_squeezed(p);
        let q = squeeze(p);
        if is_blank(c) {
        } else if p.len() > 0 && !is_blank(p.last()) {
            let r = q.push(c);
            assert forall|i: int| 0 < i < r.len() && #[trigger] r[i] == ' ' implies r[i - 1] != ' ' by {
                assert(r[i] == q[i]);
                assert(r[i - 1] == q[i - 1]);
            }
            assert forall|i: int| 0 <= i < r.len() implies #[trigger] r[i] == ' ' || !is_blank(r[i]) by {
                if i < q.len() {
                    assert(r[i] == q[i]);
                }
            }
        } else if q.len() == 0 {
        } else {
            let r = q.push(' ').push(c);
            assert forall|i: int| 0 < i < r.len() && #[trigger] r[i] == ' ' implies r[i - 1] != ' ' by {
                if i < q.len() {
                    assert(r[i] == q[i]);
                    assert(r[i - 1] == q[i - 1]);
                } else {
                    assert(r[i - 1] == q[q.len() - 1]);
                }
            }
            assert forall|i: int| 0 <= i < r.len() implies #[trigger] r[i] == ' ' || !is_blank(r[i]) by {
                if i < q.len() {
                    assert(r[i] == q[i]);
                }
            }
        }
    }
}

/// A string of single-space-separated tokens, save perhaps one trailing
/// space, squeezes to itself without that space.
proof fn lemma_squeeze_fixed(t: Seq<char>)
    requires
        forall|i: int| 0 <= i < t.len() ==> #[trigger] t[i] == ' ' || !is_blank(t[i]),
        t.len() > 0 ==> t[0] != ' ',
        forall|i: int| 0 < i < t.len() && #[trigger] t[i] == ' ' ==> t[i - 1] != ' ',
    ensures
        squeeze(t) == (if t.len() > 0 && t.last() == ' ' { t.drop_last() } else { t }),
    decreases t.len(),
{
    if t.len() > 0 {
        let p = t.drop_last();
        let c = t.last();
        assert forall|i: int| 0 <= i < p.len() implies #[trigger] p[i] == ' ' || !is_blank(p[i]) by {
            assert(p[i] == t[i]);
        }
        assert forall|i: int| 0 < i < p.len() && #[trigger] p[i] == ' ' implies p[i - 1] != ' ' by {
            assert(p[i] == t[i]);
            assert(p[i - 1] == t[i - 1]);
        }
        lemma_squeeze_fixed(p);
        if c == ' ' {
            assert(t[t.len() - 1] == ' ');
            assert(p.len() > 0);
            assert(p.last() == t[t.len() - 2]);
        } else if p.len() > 0 && p.last() == ' ' {
            assert(p.len() >= 2);
            assert(p.drop_last().len() > 0);
            assert(p.drop_last().push(' ').push(c) =~= t);
        } else {
            assert(p.push(c) =~= t);
        }
    }
}

/// A string of single-space-separated tokens squeezes to itself.
pub proof fn lemma_squeezed_fixed(t: Seq<char>)
    requires
        is_squeezed(t),
    ensures
        squeeze(t) == t,
{
    lemma_squeeze_fixed(t);
    if t.len() > 0 {
        assert(t.last() == t[t.len() - 1]);
    }
}

/// The tail of such a string from the start of a token is of the same form.
pub proof fn lemma_squeezed_tail(t: Seq<char>, k: int)
    requires
        is_squeezed(t),
        0 <= k <= t.len(),
        k == 0 || t[k - 1] == ' ',
    ensures
        is_squeezed(t.subrange(k, t.len() as int)),
{
    let r = t.subrange(k, t.len() as int);
    assert forall|i: int| 0 <= i < r.len() implies #[trigger] r[i] == ' ' || !is_blank(r[i]) by {
        assert(r[i] == t[i + k]);
    }
    assert forall|i: int| 0 < i < r.len() && #[trigger] r[i] == ' ' implies r[i - 1] != ' ' by {
        assert(r[i] == t[i + k]);
        assert(r[i - 1] == t[i - 1 + k]);
    }
    if r.len() > 0 {
        assert(r[0] == t[k]);
        assert(r[r.len() - 1] == t[t.len() - 1]);
    }
}

/// Taking the rhyme suffix twice gives the same result as taking it once:
/// the suffix is already squeezed and starts with its digit-bearing token.
pub proof fn lemma_suffix_idempotent(s: Seq<char>)
    ensures
        suffix_of(suffix_of(s)) == suffix_of(s),
{
    let n = squeeze(s);
    lemma_digit_from_bounds(n, 0);
    let j = digit_from(n, 0);
    if j < n.len() {
        lemma_token_begin_bounds(n, j);
        let k = token_begin(n, j);
        let t = n.subrange(k, n.len() as int);
        lemma_squeeze_squeezed(s);
        lemma_squeezed_tail(n, k);
        lemma_squeezed_fixed(t);
        assert forall|m: int| 0 <= m < j - k implies !is_digit(#[trigger] t[m]) by {
            assert(t[m] == n[m + k]);
        }
        lemma_digit_from_exact(t, 0, j - k);
        assert forall|m: int| 0 <= m < j - k implies #[trigger] t[m] != ' ' by {
            assert(t[m] == n[m + k]);
        }
        lemma_token_begin_exact(t, j - k);
        assert(t.subrange(0, t.len() as int) =~= t);
    }
}

/// A squeezed string contains its own rhyme suffix.
pub proof fn lemma_contains_own_suffix(s: Seq<char>)
    requires
        is_squeezed(s),
    ensures
        contains(s, suffix_of(s)),
{
    lemma_squeezed_fixed(s);
    lemma_digit_from_bounds(s, 0);
    let j = digit_from(s, 0);
    if j < s.len() {
        lemma_token_begin_bounds(s, j);
        assert(occurs_at(s, suffix_of(s), token_begin(s, j)));
    } else {
        assert(s.subrange(0, s.len() as int) =~= s);
        assert(occurs_at(s, suffix_of(s), 0));
    }
}

/// The characters of `s`, in order.
pub fn chars_of(s: &str) -> (r: Vec<char>)
    ensures
        r@ == s@,
{
    let n = s.unicode_len();
    let mut r: Vec<char> = Vec::new();
    let mut i: usize = 0;
    while i < n
        invariant
            n == s@.len(),
            i <= n,
            r@ == s@.subrange(0, i as int),
        decreases n - i,
    {
        r.push(s.get_char(i));
        i += 1;
    }
    assert(r@ =~= s@);
    r
}

/// Normalises whitespace: tokens joined by single spaces.
pub fn squeeze_exec(s: &Vec<char>) -> (r: Vec<char>)
    ensures
        r@ == squeeze(s@),
{
    let n = s.len();
    let mut r: Vec<char> = Vec::new();
    let mut i: usize = 0;
    while i < n
        invariant
            n == s@.len(),
            i <= n,
            r@ == squeeze(s@.subrange(0, i as int)),
        decreases n - i,
    {
        let c = s[i];
        let ghost p = s@.subrange(0, i as int);
        assert(s@.subrange(0, i + 1).drop_last() =~= p);
        if blank_exec(c) {
        } else if i > 0 && !blank_exec(s[i - 1]) {
            r.push(c);
        } else if r.len() == 0 {
            r.push(c);
        } else {
            r.push(' ');
            r.push(c);
        }
        i += 1;
    }
    assert(s@.subrange(0, n as int) =~= s@);
    r
}

/// The part of `s` from `a` up to `b`.
pub fn slice_of(s: &Vec<char>, a: usize, b: usize) -> (r: Vec<char>)
    requires
        a <= b <= s@.len(),
    ensures
        r@ == s@.subrange(a as int, b as int),
{
    let mut r: Vec<char> = Vec::new();
    let mut i: usize = a;
    while i < b
        invariant
            a <= i <= b <= s@.len(),
            r@ == s@.subrange(a as int, i as int),
        decreases b - i,
    {
        r.push(s[i]);
        i += 1;
    }
    r
}

/// The rhyme suffix of `s`.
pub fn suffix_chars(s: &Vec<char>) -> (r: Vec<char>)
    ensures
        r@ == suffix_of(s@),
{
    let n = squeeze_exec(s);
    let len = n.len();
    let mut j: usize = 0;
    while j < len && !('0' <= n[j] && n[j] <= '9')
        invariant
            j <= len == n@.len(),
            digit_from(n@, 0) == digit_from(n@, j as int),
        decreases len - j,
    {
        j += 1;
    }
    if j >= len {
        proof {
            assert(s@.subrange(0, s@.len() as int) =~= s@);
        }
        return slice_of(s, 0, s.len());
    }
    let mut k: usize = j;
    while k > 0 && n[k - 1] != ' '
        invariant
            k <= j < len == n@.len(),
            digit_from(n@, 0) == j,
            token_begin(n@, j as int) == token_begin(n@, k as int),
        decreases k,
    {
        k -= 1;
    }
    slice_of(&n, k, len)
}

/// Whether `needle` occurs in `hay` at position `i`.
fn occurs_at_exec(hay: &Vec<char>, needle: &Vec<char>, i: usize) -> (r: bool)
    requires
        i + needle@.len() <= hay@.len(),
    ensures
        r == occurs_at(hay@, needle@, i as int),
{
    let m = needle.len();
    let n = hay.len();
    let mut t: usize = 0;
    while t < m
        invariant
            m == needle@.len(),
            n == hay@.len(),
            i + m <= hay@.len(),
            t <= m,
            forall|u: int| 0 <= u < t ==> hay@[i + u] == needle@[u],
        decreases m - t,
    {
        if hay[i + t] != needle[t] {
            assert(hay@.subrange(i as int, i + m)[t as int] != needle@[t as int]);
            return false;
        }
        t += 1;
    }
    assert(hay@.subrange(i as int, i + m) =~= needle@);
    true
}

/// Whether `needle` occurs anywhere in `hay`.
pub fn contains_exec(hay: &Vec<char>, needle: &Vec<char>) -> (r: bool)
    ensures
        r == contains(hay@, needle@),
{
    let n = hay.len();
    let m = needle.len();
    if m > n {
        assert forall|i: int| !occurs_at(hay@, needle@, i) by {}
        return false;
    }
    let mut i: usize = 0;
    while i <= n - m
        invariant
            n == hay@.len(),
            m == needle@.len(),
            m <= n,
            i <= n - m,
            forall|p: int| 0 <= p < i ==> !occurs_at(hay@, needle@, p),
        decreases n - m - i,
    {
        if occurs_at_exec(hay, needle, i) {
            return true;
        }
        if i == n - m {
            assert forall|p: int| !occurs_at(hay@, needle@, p) by {
                if 0 <= p <= i {
                }
            }
            return false;
        }
        i += 1;
    }
    false
}

/// Relies on `String`'s `FromIterator<&char>`: the string holds the
/// characters in order.
#[verifier::external_body]
pub(crate) fn string_of(v: &Vec<char>) -> (r: String)
    ensures
        r@ == v@,
{
    v.iter().collect()
}

} // verus!
