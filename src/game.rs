//! State of the word-chain rhyming game.
use vstd::prelude::*;
use vstd::string::*;
use crate::lexicon::CommonSet;

verus! {

/// Relies on `rand::Rng::gen_range` over `thread_rng`: a value drawn from
/// `0..n`, which panics only on an empty range.
#[verifier::external_body]
fn random_index(n: usize) -> (r: usize)
    requires
        n > 0,
    ensures
        r < n,
{
    rand::Rng::gen_range(&mut rand::thread_rng(), 0..n)
}

/// The words played so far, oldest first.
pub struct Game {
    pub guesses: Vec<String>,
}

impl Game {
    pub fn new() -> (r: Game)
        ensures
            r.guesses@.len() == 0,
    {
        Game { guesses: Vec::new() }
    }

    /// Accepts a player's word as it stands.
    pub fn guess(&self, word: &str) -> (r: Result<String, String>)
        ensures
            r matches Ok(w) && w@ == word@,
    {
        Ok(String::from_str(word))
    }

    /// Plays common word number `i` as the opening word.
    pub fn push_start(&mut self, commons: &CommonSet, i: usize)
        requires
            i < commons@.len(),
        ensures
            final(self).guesses@.len() == old(self).guesses@.len() + 1,
            final(self).guesses@.subrange(0, old(self).guesses@.len() as int) == old(self).guesses@,
            final(self).guesses@.last()@ == commons@[i as int],
    {
        let w = commons.word_at(i).clone();
        self.guesses.push(w);
        assert(self.guesses@.subrange(0, old(self).guesses@.len() as int) =~= old(self).guesses@);
    }

    /// Plays a common word drawn at random as the opening word.
    pub fn set_start_word(&mut self, commons: &CommonSet)
        requires
            commons@.len() > 0,
        ensures
            final(self).guesses@.len() == old(self).guesses@.len() + 1,
            final(self).guesses@.subrange(0, old(self).guesses@.len() as int) == old(self).guesses@,
            commons@.contains(final(self).guesses@.last()@),
    {
        let i = random_index(commons.len());
        self.push_start(commons, i);
    }
}

} // verus!
