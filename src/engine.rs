//! The rhyme engine: lexicon lookups, rhyme matching, scoring and filtering.
use vstd::prelude::*;
use vstd::string::*;
use crate::distance::{dl_distance, edit_distance};
use crate::lexicon::{entry_normal, has_word, lemma_phonemes_at, phonemes_of, distinct_words, CommonSet, Lexicon};
use crate::phonemes::{chars_of, contains, contains_exec, lemma_contains_own_suffix, string_of, suffix_chars, suffix_of};
use crate::order::{chars_le, sort_strings};
use crate::rank::{lemma_ranked_from, rank, ranked, scored_view, words_view, ScoredWord};

verus! {

/// Query policy: how many results, from which words, over how many distance tiers.
pub struct DoenamerConfig {
    /// At most this many results; `None` for no bound.
    pub limit: Option<usize>,
    /// Keep only common words.
    pub only_common: bool,
    /// Verbosity of diagnostics printed by callers.
    pub debug_level: u64,
    /// Distance tiers admitted beyond the nearest.
    pub fuzz: u64,
    /// Admit exact homophones.
    pub homophones: bool,
}

impl DoenamerConfig {
    pub fn new(limit: Option<usize>, only_common: bool, debug_level: u64, fuzz: u64, homophones: bool) -> (r: DoenamerConfig)
        ensures
            r.limit == limit,
            r.only_common == only_common,
            r.debug_level == debug_level,
            r.fuzz == fuzz,
            r.homophones == homophones,
    {
        DoenamerConfig { limit, only_common, debug_level, fuzz, homophones }
    }
}

/// The query word is not in the lexicon.
pub struct WordNotFound {
    pub word: String,
}

/// Which operands of a distance query are not in the lexicon.
#[derive(PartialEq, Eq, Structural, Debug, Clone, Copy)]
pub enum LookupError {
    First,
    Second,
    Both,
}

/// Lexicon entries whose phonemes contain the query's rhyme suffix, other
/// than the query word itself, with their distance from the query's
/// phonemes; exact homophones only when `homophones` is set.
pub open spec fn candidates(es: Seq<(Seq<char>, Seq<char>)>, q: Seq<char>, qp: Seq<char>, homophones: bool) -> Seq<(Seq<char>, nat)>
    decreases es.len(),
{
    if es.len() == 0 {
        seq![]
    } else {
        let rest = candidates(es.drop_last(), q, qp, homophones);
        let e = es.last();
        let d = dl_distance(qp, e.1);
        if e.0 != q && contains(e.1, suffix_of(qp)) && (d > 0 || homophones) {
            rest.push((e.0, d))
        } else {
            rest
        }
    }
}

/// The words of `ws` that `cs` holds, in order.
pub open spec fn keep_common(ws: Seq<Seq<char>>, cs: Seq<Seq<char>>) -> Seq<Seq<char>>
    decreases ws.len(),
{
    if ws.len() == 0 {
        seq![]
    } else if cs.contains(ws.last()) {
        keep_common(ws.drop_last(), cs).push(ws.last())
    } else {
        keep_common(ws.drop_last(), cs)
    }
}

/// At most `limit` words from the front of `ws`.
pub open spec fn truncate(ws: Seq<Seq<char>>, limit: Option<usize>) -> Seq<Seq<char>> {
    match limit {
        Some(n) if n < ws.len() => ws.subrange(0, n as int),
        _ => ws,
    }
}

/// The common-word restriction and the limit applied to ranked words.
pub open spec fn compacted(ws: Seq<Seq<char>>, cs: Seq<Seq<char>>, cfg: DoenamerConfig) -> Seq<Seq<char>> {
    truncate(if cfg.only_common { keep_common(ws, cs) } else { ws }, cfg.limit)
}

/// The rhymes of `q` under `cfg`, or `None` when the lexicon lacks `q`.
pub open spec fn rhymes_of(es: Seq<(Seq<char>, Seq<char>)>, cs: Seq<Seq<char>>, cfg: DoenamerConfig, q: Seq<char>) -> Option<Seq<Seq<char>>> {
    match phonemes_of(es, q) {
        None => None,
        Some(qp) => Some(compacted(ranked(candidates(es, q, qp, cfg.homophones), cfg.fuzz as nat, cfg.homophones), cs, cfg)),
    }
}

/// Every candidate is another lexicon word, scored by its own phonemes.
proof fn lemma_candidates_from(es: Seq<(Seq<char>, Seq<char>)>, q: Seq<char>, qp: Seq<char>, homophones: bool)
    requires
        distinct_words(es),
    ensures
        forall|i: int| 0 <= i < candidates(es, q, qp, homophones).len() ==> {
            let c = #[trigger] candidates(es, q, qp, homophones)[i];
            &&& c.0 != q
            &&& phonemes_of(es, c.0) matches Some(p) && c.1 == dl_distance(qp, p)
            &&& (c.1 > 0 || homophones)
        },
    decreases es.len(),
{
    if es.len() > 0 {
        let p = es.drop_last();
        assert(distinct_words(p)) by {
            assert forall|a: int, b: int| 0 <= a < b < p.len() implies (#[trigger] p[a]).0 != (#[trigger] p[b]).0 by {
                assert(p[a] == es[a] && p[b] == es[b]);
            }
        }
        lemma_candidates_from(p, q, qp, homophones);
        lemma_phonemes_at(es, es.len() - 1);
        assert forall|i: int| 0 <= i < candidates(es, q, qp, homophones).len() implies {
            let c = #[trigger] candidates(es, q, qp, homophones)[i];
            &&& c.0 != q
            &&& phonemes_of(es, c.0) matches Some(p) && c.1 == dl_distance(qp, p)
            &&& (c.1 > 0 || homophones)
        } by {
            let cp = candidates(p, q, qp, homophones);
            if i < cp.len() {
                let c = cp[i];
                assert(candidates(es, q, qp, homophones)[i] == c);
                let k = choose|k: int| 0 <= k < p.len() && (#[trigger] p[k]).0 == c.0;
                assert(p[k] == es[k]);
                lemma_phonemes_at(p, k);
                lemma_phonemes_at(es, k);
            }
        }
    }
}

/// Words kept by the common-word restriction come from the input and are common.
proof fn lemma_keep_common(ws: Seq<Seq<char>>, cs: Seq<Seq<char>>)
    ensures
        forall|i: int| 0 <= i < keep_common(ws, cs).len() ==> ws.contains(#[trigger] keep_common(ws, cs)[i]) && cs.contains(keep_common(ws, cs)[i]),
    decreases ws.len(),
{
    if ws.len() > 0 {
        let p = ws.drop_last();
        lemma_keep_common(p, cs);
        assert forall|i: int| 0 <= i < keep_common(ws, cs).len() implies ws.contains(#[trigger] keep_common(ws, cs)[i]) && cs.contains(keep_common(ws, cs)[i]) by {
            if i < keep_common(p, cs).len() {
                let x = keep_common(p, cs)[i];
                assert(keep_common(ws, cs)[i] == x);
                let k = choose|k: int| 0 <= k < p.len() && p[k] == x;
                assert(ws[k] == x);
            } else {
                assert(ws[ws.len() - 1] == ws.last());
            }
        }
    }
}

/// Words that survive compaction come from the input; with the restriction
/// on they are common; with a limit there are at most that many.
proof fn lemma_compacted(ws: Seq<Seq<char>>, cs: Seq<Seq<char>>, cfg: DoenamerConfig)
    ensures
        forall|i: int| 0 <= i < compacted(ws, cs, cfg).len() ==> ws.contains(#[trigger] compacted(ws, cs, cfg)[i]),
        cfg.only_common ==> forall|i: int| 0 <= i < compacted(ws, cs, cfg).len() ==> cs.contains(#[trigger] compacted(ws, cs, cfg)[i]),
        cfg.limit matches Some(n) ==> compacted(ws, cs, cfg).len() <= n,
{
    lemma_keep_common(ws, cs);
    let kept = if cfg.only_common { keep_common(ws, cs) } else { ws };
    let r = compacted(ws, cs, cfg);
    assert forall|i: int| 0 <= i < r.len() implies ws.contains(#[trigger] r[i]) && (cfg.only_common ==> cs.contains(r[i])) by {
        assert(r[i] == kept[i]);
        if !cfg.only_common {
            assert(ws[i] == r[i]);
        }
    }
}

/// Both words are known and `b`'s phonemes contain the rhyme suffix of `a`'s.
pub open spec fn rhyme_holds(es: Seq<(Seq<char>, Seq<char>)>, a: Seq<char>, b: Seq<char>) -> bool {
    phonemes_of(es, a) matches Some(pa) && phonemes_of(es, b) matches Some(pb) && contains(pb, suffix_of(pa))
}

/// Every word of the lexicon rhymes with itself.
pub proof fn lemma_rhymes_reflexive(lex: Lexicon, w: Seq<char>)
    requires
        lex.wf(),
        has_word(lex@, w),
    ensures
        rhyme_holds(lex@, w, w),
{
    let es = lex@;
    let i = choose|i: int| 0 <= i < es.len() && (#[trigger] es[i]).0 == w;
    lemma_phonemes_at(es, i);
    assert(entry_normal(es[i]));
    lemma_contains_own_suffix(es[i].1);
}

/// The rhyme engine over an owned lexicon and common-word set.
pub struct Rhymely {
    pub config: DoenamerConfig,
    pub lexicon: Lexicon,
    pub commons: CommonSet,
}

impl Rhymely {
    pub fn new(config: DoenamerConfig, lexicon: Lexicon, commons: CommonSet) -> (r: Rhymely)
        ensures
            r.config == config,
            r.lexicon@ == lexicon@,
            r.commons@ == commons@,
    {
        Rhymely { config, lexicon, commons }
    }

    /// Every lexicon word, once each, in ascending order.
    pub fn wordlist(&self) -> (r: Vec<String>)
        ensures
            words_view(r@).to_multiset() == self.lexicon@.map_values(|e: (Seq<char>, Seq<char>)| e.0).to_multiset(),
            forall|i: int, j: int| 0 <= i < j < r@.len() ==> chars_le(r@[i]@, r@[j]@),
            words_view(r@).no_duplicates(),
    {
        proof {
            use_type_invariant(&self.lexicon);
        }
        let ghost ws = self.lexicon@.map_values(|e: (Seq<char>, Seq<char>)| e.0);
        let n = self.lexicon.len();
        let mut words: Vec<String> = Vec::new();
        let mut i: usize = 0;
        while i < n
            invariant
                n == self.lexicon@.len(),
                ws == self.lexicon@.map_values(|e: (Seq<char>, Seq<char>)| e.0),
                i <= n,
                words_view(words@) == ws.subrange(0, i as int),
            decreases n - i,
        {
            let ghost before = words_view(words@);
            let wd = self.lexicon.word_at(i).clone();
            words.push(wd);
            proof {
                assert(words_view(words@) =~= before.push(wd@));
                assert(ws.subrange(0, i + 1) =~= ws.subrange(0, i as int).push(ws[i as int]));
            }
            i += 1;
        }
        proof {
            assert(ws.subrange(0, n as int) =~= ws);
            assert(ws.no_duplicates()) by {
                assert forall|x: int, y: int| 0 <= x < ws.len() && 0 <= y < ws.len() && x != y implies ws[x] != ws[y] by {
                    if x < y {
                        assert(self.lexicon@[x].0 != self.lexicon@[y].0);
                    } else {
                        assert(self.lexicon@[y].0 != self.lexicon@[x].0);
                    }
                }
            }
            ws.lemma_multiset_has_no_duplicates();
        }
        sort_strings(&mut words);
        proof {
            words_view(words@).lemma_multiset_has_no_duplicates_conv();
        }
        words
    }

    /// Applies the common-word restriction and the limit to ranked words.
    fn compact(&self, items: Vec<String>) -> (r: Vec<String>)
        ensures
            words_view(r@) == compacted(words_view(items@), self.commons@, self.config),
    {
        let ghost iv = words_view(items@);
        let mut kept: Vec<String> = Vec::new();
        if self.config.only_common {
            let mut i: usize = 0;
            proof {
                assert(words_view(kept@) =~= keep_common(iv.subrange(0, 0), self.commons@));
            }
            while i < items.len()
                invariant
                    iv == words_view(items@),
                    i <= items@.len(),
                    words_view(kept@) == keep_common(iv.subrange(0, i as int), self.commons@),
                decreases items@.len() - i,
            {
                proof {
                    assert(iv.subrange(0, i + 1).drop_last() =~= iv.subrange(0, i as int));
                }
                if self.commons.contains(&items[i]) {
                    let ghost before = words_view(kept@);
                    kept.push(items[i].clone());
                    proof {
                        assert(words_view(kept@) =~= before.push(items@[i as int]@));
                    }
                }
                i += 1;
            }
            proof {
                assert(iv.subrange(0, i as int) =~= iv);
            }
        } else {
            kept = items;
        }
        let ghost kv = words_view(kept@);
        match self.config.limit {
            Some(n) if n < kept.len() => {
                kept.truncate(n);
                proof {
                    assert(words_view(kept@) =~= kv.subrange(0, n as int));
                }
            },
            _ => {},
        }
        kept
    }

    /// Every common word, once each, in ascending order.
    pub fn common(&self) -> (r: Vec<String>)
        ensures
            words_view(r@).to_multiset() == self.commons@.to_multiset(),
            forall|i: int, j: int| 0 <= i < j < r@.len() ==> chars_le(r@[i]@, r@[j]@),
            words_view(r@).no_duplicates(),
    {
        proof {
            use_type_invariant(&self.commons);
        }
        let n = self.commons.len();
        let mut words: Vec<String> = Vec::new();
        let mut i: usize = 0;
        while i < n
            invariant
                n == self.commons@.len(),
                i <= n,
                words_view(words@) == self.commons@.subrange(0, i as int),
            decreases n - i,
        {
            let ghost before = words_view(words@);
            let wd = self.commons.word_at(i).clone();
            words.push(wd);
            proof {
                assert(words_view(words@) =~= before.push(wd@));
                assert(self.commons@.subrange(0, i + 1) =~= self.commons@.subrange(0, i as int).push(self.commons@[i as int]));
            }
            i += 1;
        }
        proof {
            assert(self.commons@.subrange(0, n as int) =~= self.commons@);
            self.commons@.lemma_multiset_has_no_duplicates();
        }
        sort_strings(&mut words);
        proof {
            words_view(words@).lemma_multiset_has_no_duplicates_conv();
        }
        words
    }

    /// The rhyme suffix of a phoneme string: the whitespace-separated tokens
    /// from the first one that carries a stress digit, joined by single
    /// spaces, or the whole string when none does.
    pub fn phoneme_suffix(&self, phoneme: &str) -> (r: String)
        ensures
            r@ == suffix_of(phoneme@),
    {
        string_of(&suffix_chars(&chars_of(phoneme)))
    }

    /// Whether both words are known and `b`'s phonemes contain the rhyme
    /// suffix of `a`'s.
    pub fn rhymes(&self, a: &str, b: &str) -> (r: bool)
        ensures
            r == rhyme_holds(self.lexicon@, a@, b@),
    {
        let wa = String::from_str(a);
        let wb = String::from_str(b);
        match (self.lexicon.find(&wa), self.lexicon.find(&wb)) {
            (Some(i), Some(j)) => {
                let suffix = suffix_chars(self.lexicon.sounds_at(i));
                contains_exec(self.lexicon.sounds_at(j), &suffix)
            },
            _ => false,
        }
    }

    /// Rhymes of `word`, nearest first: see `rhymes_of`.
    pub fn find_rhymes(&self, word: &str) -> (r: Result<Vec<String>, WordNotFound>)
        ensures
            match r {
                Err(e) => e.word@ == word@ && !has_word(self.lexicon@, word@),
                Ok(ws) => rhymes_of(self.lexicon@, self.commons@, self.config, word@) == Some(words_view(ws@)),
            },
            r matches Ok(ws) ==> forall|i: int| 0 <= i < ws@.len() ==> (#[trigger] ws@[i])@ != word@,
            r matches Ok(ws) ==> !self.config.homophones ==> forall|i: int| 0 <= i < ws@.len() ==>
                (phonemes_of(self.lexicon@, word@) matches Some(qp)
                && phonemes_of(self.lexicon@, (#[trigger] ws@[i])@) matches Some(p) && dl_distance(qp, p) > 0),
            r matches Ok(ws) ==> self.config.only_common ==> forall|i: int| 0 <= i < ws@.len() ==> self.commons@.contains((#[trigger] ws@[i])@),
            r matches Ok(ws) ==> self.config.limit matches Some(n) ==> ws@.len() <= n,
    {
        let w = String::from_str(word);
        let qi = match self.lexicon.find(&w) {
            Some(i) => i,
            None => return Err(WordNotFound { word: w }),
        };
        proof {
            use_type_invariant(&self.lexicon);
        }
        let ghost es = self.lexicon@;
        let ghost q = word@;
        let ghost h = self.config.homophones;
        let qp = self.lexicon.phonemes_at(qi);
        let qs = self.lexicon.sounds_at(qi);
        let suffix = suffix_chars(qs);
        let n = self.lexicon.len();
        let mut scored: Vec<ScoredWord> = Vec::new();
        let mut i: usize = 0;
        proof {
            assert(scored_view(scored@) =~= candidates(es.subrange(0, 0), q, qp@, h));
        }
        while i < n
            invariant
                es == self.lexicon@,
                n == es.len(),
                i <= n,
                q == word@,
                h == self.config.homophones,
                w@ == q,
                qp@ == es[qi as int].1,
                suffix@ == suffix_of(qp@),
                scored_view(scored@) == candidates(es.subrange(0, i as int), q, qp@, h),
            decreases n - i,
        {
            proof {
                assert(es.subrange(0, i + 1).drop_last() =~= es.subrange(0, i as int));
                assert(es.subrange(0, i + 1).last() == es[i as int]);
            }
            let key = self.lexicon.word_at(i);
            if *key != w && contains_exec(self.lexicon.sounds_at(i), &suffix) {
                let score = edit_distance(qp.as_str(), self.lexicon.phonemes_at(i).as_str());
                if score > 0 || self.config.homophones {
                    let ghost before = scored_view(scored@);
                    scored.push(ScoredWord { word: key.clone(), score });
                    proof {
                        assert(scored_view(scored@) =~= before.push((key@, score as nat)));
                    }
                }
            }
            i += 1;
        }
        proof {
            assert(es.subrange(0, n as int) =~= es);
        }
        let ranked_words = rank(&scored, self.config.fuzz, self.config.homophones);
        let result = self.compact(ranked_words);
        proof {
            let cands = candidates(es, q, qp@, h);
            let rk = ranked(cands, self.config.fuzz as nat, h);
            let out = words_view(result@);
            lemma_candidates_from(es, q, qp@, h);
            lemma_ranked_from(cands, self.config.fuzz as nat, h);
            lemma_compacted(rk, self.commons@, self.config);
            assert forall|x: int| 0 <= x < result@.len() implies {
                &&& (#[trigger] result@[x])@ != word@
                &&& (!h ==> (phonemes_of(es, word@) matches Some(qq) && phonemes_of(es, result@[x]@) matches Some(p) && dl_distance(qq, p) > 0))
            } by {
                assert(out[x] == result@[x]@);
                assert(rk.contains(out[x]));
                let y = choose|y: int| 0 <= y < rk.len() && rk[y] == out[x];
                let c = choose|c: int| 0 <= c < cands.len() && (#[trigger] cands[c]).0 == rk[y];
                assert(cands[c].0 != q);
            }
            assert forall|x: int| 0 <= x < result@.len() && self.config.only_common implies self.commons@.contains((#[trigger] result@[x])@) by {
                assert(out[x] == result@[x]@);
            }
        }
        Ok(result)
    }

    /// The phonemes of `word`, if the lexicon holds it.
    /// A word found is non-empty and free of blanks; its phonemes are
    /// non-empty tokens joined by single spaces.
    pub fn find_phoneme(&self, word: &str) -> (r: Option<&str>)
        ensures
            match r {
                Some(p) => phonemes_of(self.lexicon@, word@) == Some(p@),
                None => phonemes_of(self.lexicon@, word@) is None,
            },
            r matches Some(p) ==> entry_normal((word@, p@)),
    {
        let w = String::from_str(word);
        match self.lexicon.phonemes(&w) {
            Some(p) => Some(p.as_str()),
            None => None,
        }
    }

    /// Edit distance between the phoneme strings of `a` and `b`, or which of
    /// them the lexicon lacks. The distance does not depend on the order of
    /// the two words and is zero exactly for equal phoneme strings.
    pub fn phoneme_distance(&self, a: &str, b: &str) -> (r: Result<usize, LookupError>)
        ensures
            match (phonemes_of(self.lexicon@, a@), phonemes_of(self.lexicon@, b@)) {
                (Some(pa), Some(pb)) => r matches Ok(d) && d == dl_distance(pa, pb),
                (None, None) => r == Err::<usize, LookupError>(LookupError::Both),
                (None, Some(_)) => r == Err::<usize, LookupError>(LookupError::First),
                (Some(_), None) => r == Err::<usize, LookupError>(LookupError::Second),
            },
            r matches Ok(d) ==> phonemes_of(self.lexicon@, a@) matches Some(pa) && phonemes_of(self.lexicon@, b@) matches Some(pb)
                && d == dl_distance(pb, pa) && (d == 0 <==> pa == pb),
            r matches Ok(d) ==> a@ == b@ ==> d == 0,
    {
        match (self.find_phoneme(a), self.find_phoneme(b)) {
            (Some(x), Some(y)) => Ok(edit_distance(x, y)),
            (None, None) => Err(LookupError::Both),
            (None, _) => Err(LookupError::First),
            (_, None) => Err(LookupError::Second),
        }
    }
}

} // verus!
