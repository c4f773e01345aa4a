//! The pronunciation lexicon and the set of common words.
use vstd::prelude::*;
use crate::order::{chars_le, lemma_sorted_neighbours_distinct, sort_strings};
use crate::rank::words_view;
use crate::phonemes::{chars_of, is_blank, is_squeezed, slice_of, squeeze, squeeze_exec, string_of, lemma_squeeze_squeezed, lemma_squeezed_tail};

verus! {

/// Index of the first space at or after `i`, or `s.len()` when there is none.
pub open spec fn space_from(s: Seq<char>, i: int) -> int
    decreases s.len() - i,
{
    if i < 0 || i >= s.len() {
        s.len() as int
    } else if s[i] == ' ' {
        i
    } else {
        space_from(s, i + 1)
    }
}

/// The first space at or after `i` bounds a run without spaces.
proof fn lemma_space_from_bounds(s: Seq<char>, i: int)
    requires
        0 <= i <= s.len(),
    ensures
        i <= space_from(s, i) <= s.len(),
        space_from(s, i) < s.len() ==> s[space_from(s, i)] == ' ',
        forall|m: int| i <= m < space_from(s, i) ==> #[trigger] s[m] != ' ',
    decreases s.len() - i,
{
    if i < s.len() && s[i] != ' ' {
        lemma_space_from_bounds(s, i + 1);
    }
}

/// The normal form of a lexicon entry: a non-empty word without blanks, and
/// non-empty phonemes made of tokens joined by single spaces.
pub open spec fn entry_normal(e: (Seq<char>, Seq<char>)) -> bool {
    &&& e.0.len() > 0
    &&& forall|i: int| 0 <= i < e.0.len() ==> !is_blank(#[trigger] e.0[i])
    &&& e.1.len() > 0
    &&& is_squeezed(e.1)
}

/// Every entry is in normal form.
pub open spec fn all_normal(es: Seq<(Seq<char>, Seq<char>)>) -> bool {
    forall|i: int| 0 <= i < es.len() ==> entry_normal(#[trigger] es[i])
}

/// A line that parses yields an entry in normal form.
proof fn lemma_parse_line_normal(l: Seq<char>)
    ensures
        parse_line(l) matches Some(e) ==> entry_normal(e),
{
    let n = squeeze(l);
    lemma_squeeze_squeezed(l);
    lemma_space_from_bounds(n, 0);
    let k = space_from(n, 0);
    if k < n.len() {
        let w = n.subrange(0, k);
        let p = n.subrange(k + 1, n.len() as int);
        assert(n[0] != ' ');
        assert(k > 0);
        assert forall|i: int| 0 <= i < w.len() implies !is_blank(#[trigger] w[i]) by {
            assert(w[i] == n[i]);
        }
        assert(n[n.len() - 1] != ' ');
        assert(k + 1 < n.len());
        lemma_squeezed_tail(n, k + 1);
    }
}

/// A lexicon line: its first token is the word, the remaining tokens joined
/// by single spaces are its phonemes. A line with fewer than two tokens is
/// malformed.
pub open spec fn parse_line(l: Seq<char>) -> Option<(Seq<char>, Seq<char>)> {
    let n = squeeze(l);
    let k = space_from(n, 0);
    if k >= n.len() {
        None
    } else {
        Some((n.subrange(0, k), n.subrange(k + 1, n.len() as int)))
    }
}

/// Whether `w` is the word of one of `es`.
pub open spec fn has_word(es: Seq<(Seq<char>, Seq<char>)>, w: Seq<char>) -> bool {
    exists|i: int| 0 <= i < es.len() && (#[trigger] es[i]).0 == w
}

/// The lexicon that `lines` describe: entries in order of first appearance,
/// a repeated word keeping its first pronunciation, or the index of the
/// first malformed line.
pub open spec fn load(lines: Seq<Seq<char>>) -> Result<Seq<(Seq<char>, Seq<char>)>, nat>
    decreases lines.len(),
{
    if lines.len() == 0 {
        Ok(seq![])
    } else {
        match load(lines.drop_last()) {
            Err(e) => Err(e),
            Ok(es) => match parse_line(lines.last()) {
                None => Err((lines.len() - 1) as nat),
                Some(wp) => if has_word(es, wp.0) {
                    Ok(es)
                } else {
                    Ok(es.push(wp))
                },
            },
        }
    }
}

/// Index of the first space in `s`, or its length.
fn space_index(s: &Vec<char>) -> (k: usize)
    ensures
        k as int == space_from(s@, 0),
{
    let n = s.len();
    let mut k: usize = 0;
    while k < n && s[k] != ' '
        invariant
            k <= n == s@.len(),
            space_from(s@, 0) == space_from(s@, k as int),
        decreases n - k,
    {
        k += 1;
    }
    k
}

/// Splits a lexicon line into its word and its phonemes.
pub fn parse_line_exec(line: &str) -> (r: Option<(Vec<char>, Vec<char>)>)
    ensures
        r matches Some(wp) ==> parse_line(line@) == Some((wp.0@, wp.1@)),
        r is None <==> parse_line(line@) is None,
{
    let cs = chars_of(line);
    let n = squeeze_exec(&cs);
    let k = space_index(&n);
    if k >= n.len() {
        None
    } else {
        Some((slice_of(&n, 0, k), slice_of(&n, k + 1, n.len())))
    }
}

/// The phonemes that `es` gives for `w`, if it holds `w`.
pub open spec fn phonemes_of(es: Seq<(Seq<char>, Seq<char>)>, w: Seq<char>) -> Option<Seq<char>> {
    if has_word(es, w) {
        Some(es[choose|i: int| 0 <= i < es.len() && (#[trigger] es[i]).0 == w].1)
    } else {
        None
    }
}

/// No word appears twice.
pub open spec fn distinct_words(es: Seq<(Seq<char>, Seq<char>)>) -> bool {
    forall|i: int, j: int| 0 <= i < j < es.len() ==> (#[trigger] es[i]).0 != (#[trigger] es[j]).0
}

/// In a table without repeated words, the entry at `i` is the one found for its word.
pub proof fn lemma_phonemes_at(es: Seq<(Seq<char>, Seq<char>)>, i: int)
    requires
        distinct_words(es),
        0 <= i < es.len(),
    ensures
        phonemes_of(es, es[i].0) == Some(es[i].1),
{
    assert(has_word(es, es[i].0));
    let k = choose|k: int| 0 <= k < es.len() && (#[trigger] es[k]).0 == es[i].0;
    if k < i {
        assert(es[k].0 != es[i].0);
    } else if k > i {
        assert(es[i].0 != es[k].0);
    }
}

/// Once a prefix of the lines fails to load, so does every longer run.
proof fn lemma_load_error_sticks(lines: Seq<Seq<char>>, i: int)
    requires
        0 <= i <= lines.len(),
        load(lines.subrange(0, i)) is Err,
    ensures
        load(lines) == load(lines.subrange(0, i)),
    decreases lines.len() - i,
{
    if i < lines.len() {
        assert(lines.subrange(0, i + 1).drop_last() =~= lines.subrange(0, i));
        lemma_load_error_sticks(lines, i + 1);
    } else {
        assert(lines.subrange(0, i) =~= lines);
    }
}

/// When every line of a prefix parses, the prefix loads.
proof fn lemma_load_ok(lines: Seq<Seq<char>>, k: int)
    requires
        0 <= k <= lines.len(),
        forall|j: int| 0 <= j < k ==> parse_line(#[trigger] lines[j]) is Some,
    ensures
        load(lines.subrange(0, k)) is Ok,
    decreases k,
{
    if k > 0 {
        assert(lines.subrange(0, k).drop_last() =~= lines.subrange(0, k - 1));
        assert(lines.subrange(0, k).last() == lines[k - 1]);
        lemma_load_ok(lines, k - 1);
    }
}

/// One pronunciation of the lexicon.
struct Entry {
    word: String,
    phonemes: String,
    sounds: Vec<char>,
}

/// Entries as (word, phonemes) pairs.
spec fn entries_view(es: Seq<Entry>) -> Seq<(Seq<char>, Seq<char>)> {
    es.map_values(|e: Entry| (e.word@, e.phonemes@))
}

/// Each entry's character copy agrees with its phoneme string.
spec fn entries_agree(es: Seq<Entry>) -> bool {
    forall|i: int| 0 <= i < es.len() ==> (#[trigger] es[i]).sounds@ == es[i].phonemes@
}

/// Index of the entry for `w` among `es`, if there is one.
fn find_in(es: &Vec<Entry>, w: &String) -> (r: Option<usize>)
    requires
        distinct_words(entries_view(es@)),
    ensures
        r is None <==> !has_word(entries_view(es@), w@),
        r matches Some(i) ==> i < es@.len() && entries_view(es@)[i as int].0 == w@
            && phonemes_of(entries_view(es@), w@) == Some(entries_view(es@)[i as int].1),
{
    let ghost v = entries_view(es@);
    let n = es.len();
    let mut i: usize = 0;
    while i < n
        invariant
            v == entries_view(es@),
            n == es@.len() == v.len(),
            i <= n,
            distinct_words(v),
            forall|k: int| 0 <= k < i ==> (#[trigger] v[k]).0 != w@,
        decreases n - i,
    {
        if es[i].word == *w {
            proof {
                lemma_phonemes_at(v, i as int);
            }
            return Some(i);
        }
        i += 1;
    }
    None
}

/// Word to phoneme-string table, read-only once built.
pub struct Lexicon {
    entries: Vec<Entry>,
}

/// A line of the pronunciation source that has no phoneme field.
pub struct LoadError {
    pub line: usize,
}

impl Lexicon {
    /// The entries as (word, phonemes) pairs, in order.
    pub closed spec fn view(&self) -> Seq<(Seq<char>, Seq<char>)> {
        entries_view(self.entries@)
    }

    /// The entries' character copies agree with their phoneme strings.
    pub closed spec fn sounds_agree(&self) -> bool {
        entries_agree(self.entries@)
    }

    #[verifier::type_invariant]
    pub open spec fn wf(&self) -> bool {
        &&& distinct_words(self@)
        &&& all_normal(self@)
        &&& self.sounds_agree()
    }

    /// Builds the lexicon from the lines of a pronunciation source. A word
    /// that appears twice keeps its first pronunciation; a line with no
    /// phoneme field fails the whole load. Repeated words are detected by
    /// sorting once; only when there are some is each line looked up.
    pub fn from_lines(lines: &Vec<String>) -> (r: Result<Lexicon, LoadError>)
        ensures
            match r {
                Ok(lex) => load(lines@.map_values(|l: String| l@)) == Result::<Seq<(Seq<char>, Seq<char>)>, nat>::Ok(lex@),
                Err(e) => load(lines@.map_values(|l: String| l@)) == Result::<Seq<(Seq<char>, Seq<char>)>, nat>::Err(e.line as nat),
            },
    {
        let ghost ls = lines@.map_values(|l: String| l@);
        let mut parsed: Vec<(String, Vec<char>)> = Vec::new();
        let mut i: usize = 0;
        while i < lines.len()
            invariant
                ls == lines@.map_values(|l: String| l@),
                i <= lines@.len(),
                parsed@.len() == i,
                forall|j: int| 0 <= j < i ==> parse_line(#[trigger] ls[j]) == Some((parsed@[j].0@, parsed@[j].1@)),
            decreases lines@.len() - i,
        {
            match parse_line_exec(lines[i].as_str()) {
                None => {
                    proof {
                        lemma_load_ok(ls, i as int);
                        assert(ls.subrange(0, i + 1).drop_last() =~= ls.subrange(0, i as int));
                        assert(ls.subrange(0, i + 1).last() == ls[i as int]);
                        lemma_load_error_sticks(ls, i + 1);
                    }
                    return Err(LoadError { line: i });
                },
                Some(wp) => {
                    let w = string_of(&wp.0);
                    parsed.push((w, wp.1));
                },
            }
            i += 1;
        }
        let ghost pv = parsed@.map_values(|p: (String, Vec<char>)| (p.0@, p.1@));
        let ghost pw = pv.map_values(|e: (Seq<char>, Seq<char>)| e.0);
        let n = parsed.len();
        let mut sorted: Vec<String> = Vec::new();
        let mut j: usize = 0;
        while j < n
            invariant
                n == parsed@.len(),
                pv == parsed@.map_values(|p: (String, Vec<char>)| (p.0@, p.1@)),
                pw == pv.map_values(|e: (Seq<char>, Seq<char>)| e.0),
                j <= n,
                words_view(sorted@) == pw.subrange(0, j as int),
            decreases n - j,
        {
            let ghost before = words_view(sorted@);
            let w = parsed[j].0.clone();
            sorted.push(w);
            proof {
                assert(words_view(sorted@) =~= before.push(w@));
                assert(pw.subrange(0, j + 1) =~= pw.subrange(0, j as int).push(pw[j as int]));
            }
            j += 1;
        }
        proof {
            assert(pw.subrange(0, n as int) =~= pw);
        }
        sort_strings(&mut sorted);
        let mut distinct = true;
        let mut k: usize = 1;
        while k < sorted.len()
            invariant
                1 <= k,
                distinct ==> forall|m: int| 0 < m < k && m < sorted@.len() ==> #[trigger] words_view(sorted@)[m] != words_view(sorted@)[m - 1],
            decreases sorted@.len() - k,
        {
            if sorted[k] == sorted[k - 1] {
                distinct = false;
            }
            proof {
                assert(words_view(sorted@)[k as int] == sorted@[k as int]@);
                assert(words_view(sorted@)[k - 1] == sorted@[k - 1]@);
            }
            k += 1;
        }
        proof {
            if distinct {
                let sv = words_view(sorted@);
                assert forall|a: int, b: int| 0 <= a < b < sv.len() implies chars_le(sv[a], sv[b]) by {
                    assert(sv[a] == sorted@[a]@ && sv[b] == sorted@[b]@);
                }
                lemma_sorted_neighbours_distinct(sv);
                sv.lemma_multiset_has_no_duplicates();
                pw.lemma_multiset_has_no_duplicates_conv();
            }
        }
        let mut entries: Vec<Entry> = Vec::new();
        i = 0;
        proof {
            assert(ls.subrange(0, 0) =~= seq![]);
            assert(entries_view(entries@) =~= seq![]);
        }
        while i < n
            invariant
                ls == lines@.map_values(|l: String| l@),
                n == parsed@.len() == ls.len(),
                pv == parsed@.map_values(|p: (String, Vec<char>)| (p.0@, p.1@)),
                pw == pv.map_values(|e: (Seq<char>, Seq<char>)| e.0),
                forall|j: int| 0 <= j < n ==> parse_line(#[trigger] ls[j]) == Some((parsed@[j].0@, parsed@[j].1@)),
                i <= n,
                distinct_words(entries_view(entries@)),
                all_normal(entries_view(entries@)),
                entries_agree(entries@),
                load(ls.subrange(0, i as int)) == Result::<Seq<(Seq<char>, Seq<char>)>, nat>::Ok(entries_view(entries@)),
                distinct ==> pw.no_duplicates(),
                distinct ==> entries_view(entries@) == pv.subrange(0, i as int),
            decreases n - i,
        {
            let ghost ev = entries_view(entries@);
            proof {
                assert(ls.subrange(0, i + 1).drop_last() =~= ls.subrange(0, i as int));
                assert(ls.subrange(0, i + 1).last() == ls[i as int]);
                assert(parse_line(ls[i as int]) == Some(pv[i as int]));
            }
            let seen = if distinct {
                proof {
                    assert forall|m: int| 0 <= m < ev.len() implies (#[trigger] ev[m]).0 != pv[i as int].0 by {
                        assert(ev[m] == pv[m]);
                        assert(pw[m] == pv[m].0 && pw[i as int] == pv[i as int].0);
                    }
                }
                false
            } else {
                match find_in(&entries, &parsed[i].0) {
                    Some(_) => true,
                    None => false,
                }
            };
            if !seen {
                let word = parsed[i].0.clone();
                let phonemes = string_of(&parsed[i].1);
                let sounds = slice_of(&parsed[i].1, 0, parsed[i].1.len());
                let ghost old_entries = entries@;
                entries.push(Entry { word, phonemes, sounds });
                proof {
                    let nv = entries_view(entries@);
                    assert(parsed[i as int].1@.subrange(0, parsed[i as int].1@.len() as int) =~= parsed[i as int].1@);
                    assert(nv =~= ev.push(pv[i as int]));
                    assert forall|a: int, b: int| 0 <= a < b < nv.len() implies (#[trigger] nv[a]).0 != (#[trigger] nv[b]).0 by {
                        if b == nv.len() - 1 {
                            assert(ev[a] == nv[a]);
                        } else {
                            assert(ev[a] == nv[a]);
                            assert(ev[b] == nv[b]);
                        }
                    }
                    lemma_parse_line_normal(ls[i as int]);
                    assert forall|a: int| 0 <= a < nv.len() implies entry_normal(#[trigger] nv[a]) by {
                        if a < ev.len() {
                            assert(ev[a] == nv[a]);
                        }
                    }
                    assert forall|a: int| 0 <= a < entries@.len() implies (#[trigger] entries@[a]).sounds@ == entries@[a].phonemes@ by {
                        if a < old_entries.len() {
                            assert(entries@[a] == old_entries[a]);
                        }
                    }
                    if distinct {
                        assert(pv.subrange(0, i + 1) =~= pv.subrange(0, i as int).push(pv[i as int]));
                    }
                }
            }
            i += 1;
        }
        proof {
            assert(ls.subrange(0, n as int) =~= ls);
        }
        Ok(Lexicon { entries })
    }

    /// Index of the entry for `w`, if there is one.
    pub fn find(&self, w: &String) -> (r: Option<usize>)
        ensures
            r is None <==> !has_word(self@, w@),
            r matches Some(i) ==> i < self@.len() && self@[i as int].0 == w@
                && phonemes_of(self@, w@) == Some(self@[i as int].1),
    {
        proof {
            use_type_invariant(self);
        }
        find_in(&self.entries, w)
    }

    /// The phonemes of `w`, if the lexicon holds it.
    pub fn phonemes(&self, w: &String) -> (r: Option<&String>)
        ensures
            match r {
                Some(p) => phonemes_of(self@, w@) == Some(p@),
                None => phonemes_of(self@, w@) is None,
            },
            r matches Some(p) ==> entry_normal((w@, p@)),
    {
        proof {
            use_type_invariant(self);
        }
        match self.find(w) {
            Some(i) => Some(&self.entries[i].phonemes),
            None => None,
        }
    }

    /// Number of entries.
    pub fn len(&self) -> (r: usize)
        ensures
            r == self@.len(),
    {
        self.entries.len()
    }

    /// The word of entry `i`.
    pub fn word_at(&self, i: usize) -> (r: &String)
        requires
            i < self@.len(),
        ensures
            r@ == self@[i as int].0,
    {
        &self.entries[i].word
    }

    /// The phoneme string of entry `i`.
    pub fn phonemes_at(&self, i: usize) -> (r: &String)
        requires
            i < self@.len(),
        ensures
            r@ == self@[i as int].1,
    {
        &self.entries[i].phonemes
    }

    /// The phonemes of entry `i` as characters.
    pub fn sounds_at(&self, i: usize) -> (r: &Vec<char>)
        requires
            i < self@.len(),
        ensures
            r@ == self@[i as int].1,
    {
        proof {
            use_type_invariant(self);
        }
        &self.entries[i].sounds
    }
}

/// The common words that `lines` list, each once, in order of first appearance.
pub open spec fn load_common(lines: Seq<Seq<char>>) -> Seq<Seq<char>>
    decreases lines.len(),
{
    if lines.len() == 0 {
        seq![]
    } else {
        let ws = load_common(lines.drop_last());
        if ws.contains(lines.last()) {
            ws
        } else {
            ws.push(lines.last())
        }
    }
}

/// A list of words given by `load_common` holds no word twice.
proof fn lemma_load_common_unique(lines: Seq<Seq<char>>)
    ensures
        load_common(lines).no_duplicates(),
    decreases lines.len(),
{
    if lines.len() > 0 {
        lemma_load_common_unique(lines.drop_last());
    }
}

/// Whether `w` is one of `ws`.
fn contains_word(ws: &Vec<String>, w: &String) -> (r: bool)
    ensures
        r == ws@.map_values(|x: String| x@).contains(w@),
{
    let ghost v = ws@.map_values(|x: String| x@);
    let n = ws.len();
    let mut i: usize = 0;
    while i < n
        invariant
            v == ws@.map_values(|x: String| x@),
            n == v.len(),
            i <= n,
            forall|k: int| 0 <= k < i ==> v[k] != w@,
        decreases n - i,
    {
        if ws[i] == *w {
            assert(v[i as int] == w@);
            return true;
        }
        i += 1;
    }
    false
}

/// The set of high-frequency words, read-only once built.
pub struct CommonSet {
    words: Vec<String>,
}

impl CommonSet {
    /// The words, in order of first appearance.
    pub closed spec fn view(&self) -> Seq<Seq<char>> {
        self.words@.map_values(|w: String| w@)
    }

    /// No word appears twice.
    #[verifier::type_invariant]
    pub open spec fn wf(&self) -> bool {
        self@.no_duplicates()
    }

    /// Builds the set from a word list with one word per line.
    pub fn from_lines(lines: &Vec<String>) -> (r: CommonSet)
        ensures
            r@ == load_common(lines@.map_values(|l: String| l@)),
    {
        let ghost ls = lines@.map_values(|l: String| l@);
        let mut words: Vec<String> = Vec::new();
        let mut i: usize = 0;
        proof {
            assert(ls.subrange(0, 0) =~= seq![]);
            assert(words@.map_values(|w: String| w@) =~= seq![]);
        }
        while i < lines.len()
            invariant
                ls == lines@.map_values(|l: String| l@),
                i <= lines@.len(),
                load_common(ls.subrange(0, i as int)) == words@.map_values(|w: String| w@),
            decreases lines@.len() - i,
        {
            proof {
                assert(ls.subrange(0, i + 1).drop_last() =~= ls.subrange(0, i as int));
                assert(ls.subrange(0, i + 1).last() == lines@[i as int]@);
            }
            if !contains_word(&words, &lines[i]) {
                let ghost before = words@.map_values(|w: String| w@);
                words.push(lines[i].clone());
                proof {
                    assert(words@.map_values(|w: String| w@) =~= before.push(lines@[i as int]@));
                }
            }
            i += 1;
        }
        proof {
            assert(ls.subrange(0, i as int) =~= ls);
            lemma_load_common_unique(ls);
        }
        CommonSet { words }
    }

    /// Whether `w` is a common word.
    pub fn contains(&self, w: &String) -> (r: bool)
        ensures
            r == self@.contains(w@),
    {
        contains_word(&self.words, w)
    }

    /// Number of words.
    pub fn len(&self) -> (r: usize)
        ensures
            r == self@.len(),
    {
        self.words.len()
    }

    /// The word at position `i`.
    pub fn word_at(&self, i: usize) -> (r: &String)
        requires
            i < self@.len(),
        ensures
            r@ == self@[i as int],
    {
        &self.words[i]
    }
}

} // verus!
