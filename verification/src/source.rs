//! A sequential source of words, shared by the neurons that are read from it.

use vstd::prelude::*;

verus! {

/// Words that are handed out one by one, each at most once.
#[derive(Debug)]
pub struct WeightSource {
    words: Vec<u32>,
    at: usize,
}

impl View for WeightSource {
    type V = Seq<u32>;

    /// The words that have not been handed out yet, the next one first.
    closed spec fn view(&self) -> Seq<u32> {
        self.words@.skip(self.at as int)
    }
}

impl WeightSource {
    #[verifier::type_invariant]
    spec fn in_bounds(self) -> bool {
        self.at <= self.words.len()
    }

    /// A source that hands out `words` from the first to the last.
    pub fn new(words: Vec<u32>) -> (source: WeightSource)
        ensures
            source@ == words@,
    {
        assert(words@.skip(0) =~= words@);
        WeightSource { words, at: 0 }
    }

    /// The number of words that are left.
    pub fn remaining(&self) -> (n: usize)
        ensures
            n == self@.len(),
    {
        proof {
            use_type_invariant(self);
        }
        self.words.len() - self.at
    }

    /// Hands out the next word, or `None` when none is left.
    pub fn next(&mut self) -> (word: Option<u32>)
        ensures
            match word {
                Some(w) => old(self)@.len() > 0 && w == old(self)@[0] && final(self)@ == old(
                    self,
                )@.skip(1),
                None => old(self)@.len() == 0 && final(self)@ == old(self)@,
            },
    {
        proof {
            use_type_invariant(&*self);
        }
        if self.at < self.words.len() {
            let w: u32 = self.words[self.at];
            self.at = self.at + 1;
            assert(self@ =~= old(self)@.skip(1));
            Some(w)
        } else {
            None
        }
    }
}

} // verus!
