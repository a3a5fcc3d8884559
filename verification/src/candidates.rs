//! The working set of a game: the words that may still be the secret.

use crate::dictionary::{words_view, Dictionary};
use crate::error::EngineError;
use crate::feedback::Mask;
use crate::history::{
    agreeing, agrees, agrees_with, consistent, history_view, is_consistent, lemma_filter_contains,
    lemma_filter_shrinks, survivors, Clue, Guess,
};
use crate::word::Word;
use vstd::prelude::*;

verus! {

/// The words still possible as the secret. It starts as the answer vocabulary
/// and only ever shrinks.
pub struct CandidateSet {
    words: Vec<Word>,
}

impl View for CandidateSet {
    type V = Seq<Seq<u8>>;

    closed spec fn view(&self) -> Seq<Seq<u8>> {
        words_view(self.words@)
    }
}

impl CandidateSet {
    /// A set holding every answer of the dictionary.
    pub fn new(dictionary: &Dictionary) -> (set: CandidateSet)
        ensures
            set@ == dictionary.answer_words(),
    {
        let mut set = CandidateSet { words: Vec::new() };
        set.reset(dictionary);
        set
    }

    /// Starts over: the candidates are again all answers of the dictionary.
    pub fn reset(&mut self, dictionary: &Dictionary)
        ensures
            final(self)@ == dictionary.answer_words(),
    {
        let answers = dictionary.answers();
        self.words.clear();
        let mut i: usize = 0;
        while i < answers.len()
            invariant
                i <= answers.len(),
                self.words@ == answers@.subrange(0, i as int),
            decreases answers.len() - i,
        {
            self.words.push(answers[i]);
            assert(self.words@ =~= answers@.subrange(0, i as int + 1));
            i += 1;
        }
        assert(self.words@ =~= answers@);
    }

    /// Removes every candidate that, as the secret, would not have earned
    /// `guess` the mask `observed`.
    ///
    /// If that would leave no candidate, the set is left as it was and
    /// `NoCandidates` is returned. Otherwise exactly the agreeing candidates
    /// stay, in their order: the set never grows, and it shrinks exactly when
    /// some candidate disagrees with the observation.
    pub fn narrow(&mut self, guess: &Word, observed: &Mask) -> (r: Result<(), EngineError>)
        ensures
            agreeing(old(self)@, Clue { word: guess@, mask: observed@ }).len() == 0 ==> r == Err::<
                (),
                EngineError,
            >(EngineError::NoCandidates) && final(self)@ == old(self)@,
            agreeing(old(self)@, Clue { word: guess@, mask: observed@ }).len() > 0 ==> r is Ok
                && final(self)@ == agreeing(old(self)@, Clue { word: guess@, mask: observed@ }),
            final(self)@.len() <= old(self)@.len(),
            final(self)@.len() < old(self)@.len() <==> r is Ok && exists|i: int|
                0 <= i < old(self)@.len() && !agrees(
                    #[trigger] old(self)@[i],
                    Clue { word: guess@, mask: observed@ },
                ),
    {
        let entry = Guess { word: *guess, mask: *observed };
        let ghost clue = Clue { word: guess@, mask: observed@ };
        assert(entry@ == clue);
        proof {
            lemma_filter_shrinks(self@, |w: Seq<u8>| agrees(w, clue));
        }
        if !any_agrees(&self.words, &entry) {
            return Err(EngineError::NoCandidates);
        }
        keep_agreeing(&mut self.words, &entry);
        Ok(())
    }

    /// How many candidates are left.
    pub fn len(&self) -> (n: usize)
        ensures
            n == self@.len(),
    {
        self.words.len()
    }

    /// Whether no candidate is left.
    pub fn is_empty(&self) -> (r: bool)
        ensures
            r == (self@.len() == 0),
    {
        self.words.len() == 0
    }

    /// The candidates, in dictionary order.
    pub fn iter(&self) -> (r: &[Word])
        ensures
            words_view(r@) == self@,
    {
        self.words.as_slice()
    }

    /// The candidate at place `i`, if there is one.
    pub fn get(&self, i: usize) -> (r: Option<Word>)
        ensures
            i < self@.len() ==> r is Some && r->Some_0@ == self@[i as int],
            i >= self@.len() ==> r is None,
    {
        if i < self.words.len() {
            Some(self.words[i])
        } else {
            None
        }
    }

    /// Whether exactly one candidate is left.
    pub fn is_singleton(&self) -> (r: bool)
        ensures
            r == (self@.len() == 1),
    {
        self.words.len() == 1
    }

    /// Whether the set pins the secret down: one candidate is left, which
    /// must then be the answer.
    pub fn contains_unique_answer(&self) -> (r: bool)
        ensures
            r == (self@.len() == 1),
    {
        self.is_singleton()
    }
}

/// Whether some word of the list agrees with `entry`.
fn any_agrees(words: &Vec<Word>, entry: &Guess) -> (r: bool)
    ensures
        r == (agreeing(words_view(words@), entry@).len() > 0),
{
    let ghost keep = |w: Seq<u8>| agrees(w, entry@);
    let ghost all = words_view(words@);
    let mut i: usize = 0;
    while i < words.len()
        invariant
            i <= words.len(),
            all == words_view(words@),
            keep == (|w: Seq<u8>| agrees(w, entry@)),
            forall|j: int| 0 <= j < i ==> !keep(#[trigger] all[j]),
        decreases words.len() - i,
    {
        if agrees_with(&words[i], entry) {
            proof {
                assert(keep(all[i as int]));
                assert(all.contains(all[i as int]));
                lemma_filter_contains(all, keep, all[i as int]);
            }
            return true;
        }
        i += 1;
    }
    proof {
        if all.filter(keep).len() > 0 {
            let w = all.filter(keep)[0];
            assert(all.filter(keep).contains(w));
            lemma_filter_contains(all, keep, w);
            let k = choose|k: int| 0 <= k < all.len() && all[k] == w;
            assert(!keep(all[k]));
        }
    }
    false
}

/// Drops from the list, in place, every word that disagrees with `entry`.
pub fn keep_agreeing(words: &mut Vec<Word>, entry: &Guess)
    ensures
        words_view(final(words)@) == agreeing(words_view(old(words)@), entry@),
{
    let ghost keep = |w: Seq<u8>| agrees(w, entry@);
    let ghost all = words_view(old(words)@);
    let n = words.len();
    let mut kept: usize = 0;
    let mut i: usize = 0;
    proof {
        reveal(Seq::filter);
        assert(all.subrange(0, 0) =~= Seq::<Seq<u8>>::empty());
    }
    while i < n
        invariant
            kept <= i <= n,
            n == words@.len(),
            n == all.len(),
            keep == (|w: Seq<u8>| agrees(w, entry@)),
            words_view(words@).subrange(0, kept as int) == all.subrange(0, i as int).filter(keep),
            forall|j: int| i <= j < n ==> #[trigger] words_view(words@)[j] == all[j],
        decreases n - i,
    {
        let w = words[i];
        let ghost before = words_view(words@);
        proof {
            reveal(Seq::filter);
            assert(all.subrange(0, i as int + 1).drop_last() =~= all.subrange(0, i as int));
            assert(all.subrange(0, i as int + 1).last() == all[i as int]);
            assert(before[i as int] == w@);
        }
        if agrees_with(&w, entry) {
            words[kept] = w;
            proof {
                let after = words_view(words@);
                assert(after.subrange(0, kept as int + 1) =~= before.subrange(0, kept as int).push(
                    w@,
                ));
                assert forall|j: int| i < j < n implies #[trigger] after[j] == all[j] by {
                    assert(before[j] == all[j]);
                }
            }
            kept += 1;
        }
        i += 1;
    }
    words.truncate(kept);
    proof {
        assert(all.subrange(0, n as int) =~= all);
        assert(words_view(words@) =~= words_view(old(words)@).filter(keep)) by {
            assert(words_view(words@).len() == kept);
        }
    }
}

/// A fresh list of the words that are consistent with a history, in their order.
pub fn consistent_words(words: &Vec<Word>, history: &[Guess]) -> (out: Vec<Word>)
    ensures
        words_view(out@) == survivors(words_view(words@), history_view(history@)),
{
    let mut out: Vec<Word> = Vec::new();
    collect_consistent(words, history, &mut out);
    out
}

/// Refills `out` with the words that are consistent with a history, in their
/// order, reusing its storage.
pub fn collect_consistent(words: &Vec<Word>, history: &[Guess], out: &mut Vec<Word>)
    ensures
        words_view(final(out)@) == survivors(words_view(words@), history_view(history@)),
{
    let ghost keep = |w: Seq<u8>| consistent(w, history_view(history@));
    let ghost all = words_view(words@);
    out.clear();
    let mut i: usize = 0;
    proof {
        reveal(Seq::filter);
        assert(all.subrange(0, 0) =~= Seq::<Seq<u8>>::empty());
        assert(words_view(out@) =~= all.subrange(0, 0).filter(keep));
    }
    while i < words.len()
        invariant
            i <= words.len(),
            all == words_view(words@),
            keep == (|w: Seq<u8>| consistent(w, history_view(history@))),
            words_view(out@) == all.subrange(0, i as int).filter(keep),
        decreases words.len() - i,
    {
        let w = words[i];
        let ghost before = words_view(out@);
        proof {
            reveal(Seq::filter);
            assert(all.subrange(0, i as int + 1).drop_last() =~= all.subrange(0, i as int));
            assert(all.subrange(0, i as int + 1).last() == w@);
        }
        if is_consistent(&w, history) {
            out.push(w);
            assert(words_view(out@) =~= before.push(w@));
        }
        i += 1;
    }
    assert(all.subrange(0, i as int) =~= all);
}

} // verus!
