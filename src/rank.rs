//! Tiered ranking of scored rhyme candidates.
use vstd::prelude::*;

verus! {

/// A candidate word and its distance from the query.
pub struct ScoredWord {
    pub word: String,
    pub score: usize,
}

/// The candidates as (word, distance) pairs.
pub open spec fn scored_view(s: Seq<ScoredWord>) -> Seq<(Seq<char>, nat)> {
    s.map_values(|c: ScoredWord| (c.word@, c.score as nat))
}

/// The words of a list of strings.
pub open spec fn words_view(v: Seq<String>) -> Seq<Seq<char>> {
    v.map_values(|w: String| w@)
}

/// The smallest distance above `lo` among the candidates, if any.
pub open spec fn next_above(s: Seq<(Seq<char>, nat)>, lo: int) -> Option<nat>
    decreases s.len(),
{
    if s.len() == 0 {
        None
    } else {
        let r = next_above(s.drop_last(), lo);
        let d = s.last().1;
        if d > lo {
            match r {
                None => Some(d),
                Some(e) => if d < e {
                    Some(d)
                } else {
                    Some(e)
                },
            }
        } else {
            r
        }
    }
}

/// The words of the candidates at distance `d`, in candidate order.
pub open spec fn with_distance(s: Seq<(Seq<char>, nat)>, d: nat) -> Seq<Seq<char>>
    decreases s.len(),
{
    if s.len() == 0 {
        seq![]
    } else if s.last().1 == d {
        with_distance(s.drop_last(), d).push(s.last().0)
    } else {
        with_distance(s.drop_last(), d)
    }
}

/// The candidates of the next `k` distinct distances above `lo`, nearest first.
pub open spec fn tiers(s: Seq<(Seq<char>, nat)>, lo: int, k: nat) -> Seq<Seq<char>>
    decreases k,
{
    if k == 0 {
        seq![]
    } else {
        match next_above(s, lo) {
            None => seq![],
            Some(d) => with_distance(s, d) + tiers(s, d as int, (k - 1) as nat),
        }
    }
}

/// How many distinct distances the ranked result spans: `fuzz + 2`, or
/// `fuzz + 3` when exact homophones are admitted.
pub open spec fn tier_count(fuzz: nat, homophones: bool) -> nat {
    if homophones {
        fuzz + 3
    } else {
        fuzz + 2
    }
}

/// The ranked result: the candidates whose distance is among the
/// `tier_count` smallest distinct distances, nearest first.
pub open spec fn ranked(s: Seq<(Seq<char>, nat)>, fuzz: nat, homophones: bool) -> Seq<Seq<char>> {
    tiers(s, -1, tier_count(fuzz, homophones))
}

/// Every word that `with_distance` yields is a candidate's word at that distance.
pub proof fn lemma_with_distance_from(s: Seq<(Seq<char>, nat)>, d: nat)
    ensures
        forall|x: int| 0 <= x < with_distance(s, d).len() ==> exists|i: int|
            0 <= i < s.len() && (#[trigger] s[i]).0 == #[trigger] with_distance(s, d)[x] && s[i].1 == d,
    decreases s.len(),
{
    if s.len() > 0 {
        let p = s.drop_last();
        lemma_with_distance_from(p, d);
        assert forall|x: int| 0 <= x < with_distance(s, d).len() implies exists|i: int|
            0 <= i < s.len() && (#[trigger] s[i]).0 == #[trigger] with_distance(s, d)[x] && s[i].1 == d by {
            if x < with_distance(p, d).len() {
                let i = choose|i: int| 0 <= i < p.len() && (#[trigger] p[i]).0 == with_distance(p, d)[x] && p[i].1 == d;
                assert(s[i] == p[i]);
            } else {
                assert(s[s.len() - 1] == s.last());
            }
        }
    }
}

/// Every word that `tiers` yields is the word of some candidate.
pub proof fn lemma_tiers_from(s: Seq<(Seq<char>, nat)>, lo: int, k: nat)
    ensures
        forall|x: int| 0 <= x < tiers(s, lo, k).len() ==> exists|i: int|
            0 <= i < s.len() && (#[trigger] s[i]).0 == #[trigger] tiers(s, lo, k)[x],
    decreases k,
{
    if k > 0 {
        if let Some(d) = next_above(s, lo) {
            lemma_with_distance_from(s, d);
            lemma_tiers_from(s, d as int, (k - 1) as nat);
            let a = with_distance(s, d);
            let b = tiers(s, d as int, (k - 1) as nat);
            assert forall|x: int| 0 <= x < tiers(s, lo, k).len() implies exists|i: int|
                0 <= i < s.len() && (#[trigger] s[i]).0 == #[trigger] tiers(s, lo, k)[x] by {
                if x < a.len() {
                    assert(tiers(s, lo, k)[x] == a[x]);
                } else {
                    assert(tiers(s, lo, k)[x] == b[x - a.len()]);
                }
            }
        }
    }
}

/// Every ranked word is the word of some candidate.
pub proof fn lemma_ranked_from(s: Seq<(Seq<char>, nat)>, fuzz: nat, homophones: bool)
    ensures
        forall|x: int| 0 <= x < ranked(s, fuzz, homophones).len() ==> exists|i: int|
            0 <= i < s.len() && (#[trigger] s[i]).0 == #[trigger] ranked(s, fuzz, homophones)[x],
{
    lemma_tiers_from(s, -1, tier_count(fuzz, homophones));
}

/// The smallest distance above `lo` among the candidates.
fn next_above_exec(s: &Vec<ScoredWord>, lo: i128) -> (r: Option<usize>)
    ensures
        match r {
            None => next_above(scored_view(s@), lo as int) is None,
            Some(d) => next_above(scored_view(s@), lo as int) == Some(d as nat),
        },
{
    let ghost v = scored_view(s@);
    let mut best: Option<usize> = None;
    let mut i: usize = 0;
    while i < s.len()
        invariant
            v == scored_view(s@),
            i <= s@.len(),
            match best {
                None => next_above(v.subrange(0, i as int), lo as int) is None,
                Some(d) => next_above(v.subrange(0, i as int), lo as int) == Some(d as nat),
            },
        decreases s@.len() - i,
    {
        proof {
            assert(v.subrange(0, i + 1).drop_last() =~= v.subrange(0, i as int));
        }
        let d = s[i].score;
        if d as i128 > lo {
            best = match best {
                None => Some(d),
                Some(e) => if d < e {
                    Some(d)
                } else {
                    Some(e)
                },
            };
        }
        i += 1;
    }
    proof {
        assert(v.subrange(0, i as int) =~= v);
    }
    best
}

/// Appends the words of the candidates at distance `d`, in candidate order.
fn push_with_distance(s: &Vec<ScoredWord>, d: usize, out: &mut Vec<String>)
    ensures
        words_view(final(out)@) == words_view(old(out)@) + with_distance(scored_view(s@), d as nat),
{
    let ghost v = scored_view(s@);
    let ghost start = words_view(out@);
    let mut i: usize = 0;
    proof {
        assert(start + with_distance(v.subrange(0, 0), d as nat) =~= start);
    }
    while i < s.len()
        invariant
            v == scored_view(s@),
            i <= s@.len(),
            words_view(out@) == start + with_distance(v.subrange(0, i as int), d as nat),
        decreases s@.len() - i,
    {
        proof {
            assert(v.subrange(0, i + 1).drop_last() =~= v.subrange(0, i as int));
        }
        if s[i].score == d {
            let ghost before = words_view(out@);
            out.push(s[i].word.clone());
            proof {
                assert(words_view(out@) =~= before.push(s@[i as int].word@));
            }
        }
        i += 1;
    }
    proof {
        assert(v.subrange(0, i as int) =~= v);
    }
}

/// Walks the distinct distances upward from `lo` and collects up to `k` tiers.
fn collect_tiers(s: &Vec<ScoredWord>, lo: i128, k: u128, out: &mut Vec<String>)
    ensures
        words_view(final(out)@) == words_view(old(out)@) + tiers(scored_view(s@), lo as int, k as nat),
{
    let ghost v = scored_view(s@);
    let ghost goal = words_view(out@) + tiers(v, lo as int, k as nat);
    let mut cur: i128 = lo;
    let mut left: u128 = k;
    while left > 0
        invariant
            v == scored_view(s@),
            words_view(out@) + tiers(v, cur as int, left as nat) == goal,
            goal == words_view(old(out)@) + tiers(v, lo as int, k as nat),
        decreases left,
    {
        match next_above_exec(s, cur) {
            None => {
                proof {
                    assert(tiers(v, cur as int, left as nat) == Seq::<Seq<char>>::empty());
                    assert(words_view(out@) + Seq::<Seq<char>>::empty() =~= words_view(out@));
                }
                return;
            },
            Some(d) => {
                let ghost before = words_view(out@);
                push_with_distance(s, d, out);
                proof {
                    let w = with_distance(v, d as nat);
                    let t = tiers(v, d as int, (left - 1) as nat);
                    assert(tiers(v, cur as int, left as nat) == w + t);
                    assert(before + (w + t) =~= (before + w) + t);
                }
                cur = d as i128;
                left = left - 1;
            },
        }
    }
    proof {
        assert(words_view(out@) + seq![] =~= words_view(out@));
    }
}

/// Ranks scored candidates: those whose distance is among the `fuzz + 2`
/// smallest distinct distances (`fuzz + 3` when exact homophones are
/// admitted), nearest first, each tier in candidate order.
pub fn rank(s: &Vec<ScoredWord>, fuzz: u64, homophones: bool) -> (r: Vec<String>)
    ensures
        words_view(r@) == ranked(scored_view(s@), fuzz as nat, homophones),
{
    let mut out: Vec<String> = Vec::new();
    let k: u128 = if homophones {
        fuzz as u128 + 3
    } else {
        fuzz as u128 + 2
    };
    collect_tiers(s, -1, k, &mut out);
    proof {
        let t = tiers(scored_view(s@), -1, k as nat);
        assert(seq![] + t =~= t);
    }
    out
}

} // verus!
