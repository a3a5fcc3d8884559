//! The record of a game: each guess with the feedback it received.

use crate::feedback::{code_of, lemma_code_injective, mask_of, Correctness, FeedbackCodec, Mask};
use crate::word::Word;
use vstd::prelude::*;

verus! {

/// One turn of a game: the word that was guessed and the mask that comparing it
/// with the secret produced.
#[derive(Clone, Copy, Debug, PartialEq, Eq)]
pub struct Guess {
    pub word: Word,
    pub mask: Mask,
}

/// What a turn says about the secret: a guessed word and the mask it received.
pub struct Clue {
    pub word: Seq<u8>,
    pub mask: Seq<Correctness>,
}

impl View for Guess {
    type V = Clue;

    open spec fn view(&self) -> Clue {
        Clue { word: self.word@, mask: self.mask@ }
    }
}

/// The clues of a recorded history, in order.
pub open spec fn history_view(h: Seq<Guess>) -> Seq<Clue> {
    Seq::new(h.len(), |i: int| h[i]@)
}

/// Whether `w`, were it the secret, would have earned the guess of `clue` its mask.
pub open spec fn agrees(w: Seq<u8>, clue: Clue) -> bool {
    mask_of(clue.word, w) == clue.mask
}

/// Whether `w` agrees with every clue of a history.
pub open spec fn consistent(w: Seq<u8>, history: Seq<Clue>) -> bool {
    forall|i: int| 0 <= i < history.len() ==> agrees(w, #[trigger] history[i])
}

/// The words of a list that agree with `clue`, in their order.
pub open spec fn agreeing(words: Seq<Seq<u8>>, clue: Clue) -> Seq<Seq<u8>> {
    words.filter(|w: Seq<u8>| agrees(w, clue))
}

/// The words of a list that are consistent with a history, in their order.
pub open spec fn survivors(words: Seq<Seq<u8>>, history: Seq<Clue>) -> Seq<Seq<u8>> {
    words.filter(|w: Seq<u8>| consistent(w, history))
}

/// Whether every clue of a history is the feedback that `answer` gives.
pub open spec fn played_against(history: Seq<Clue>, answer: Seq<u8>) -> bool {
    forall|i: int| 0 <= i < history.len() ==> agrees(answer, #[trigger] history[i])
}

/// Filtering keeps an element exactly when the list has it and the test accepts it.
pub proof fn lemma_filter_contains(
    words: Seq<Seq<u8>>,
    keep: spec_fn(Seq<u8>) -> bool,
    w: Seq<u8>,
)
    ensures
        words.filter(keep).contains(w) <==> words.contains(w) && keep(w),
    decreases words.len(),
{
    reveal(Seq::filter);
    if words.len() > 0 {
        let init = words.drop_last();
        lemma_filter_contains(init, keep, w);
        let f = words.filter(keep);
        let fi = init.filter(keep);
        if words.contains(w) && keep(w) {
            let k = choose|k: int| 0 <= k < words.len() && words[k] == w;
            if k < init.len() {
                assert(init[k] == w);
                assert(init.contains(w));
                let m = choose|m: int| 0 <= m < fi.len() && fi[m] == w;
                assert(f[m] == w);
            } else {
                assert(f[f.len() - 1] == w);
            }
        }
        if f.contains(w) {
            let k = choose|k: int| 0 <= k < f.len() && f[k] == w;
            if k < fi.len() {
                assert(fi[k] == w);
                assert(fi.contains(w));
                let m = choose|m: int| 0 <= m < init.len() && init[m] == w;
                assert(words[m] == w);
            } else {
                assert(words[words.len() - 1] == w);
            }
        }
    }
}

/// Filtering loses an element exactly when the test rejects some element of the list.
pub proof fn lemma_filter_shrinks(words: Seq<Seq<u8>>, keep: spec_fn(Seq<u8>) -> bool)
    ensures
        words.filter(keep).len() <= words.len(),
        words.filter(keep).len() < words.len() <==> exists|i: int|
            0 <= i < words.len() && !keep(#[trigger] words[i]),
        words.filter(keep).len() == words.len() ==> words.filter(keep) == words,
    decreases words.len(),
{
    reveal(Seq::filter);
    if words.len() > 0 {
        let init = words.drop_last();
        lemma_filter_shrinks(init, keep);
        if exists|i: int| 0 <= i < words.len() && !keep(#[trigger] words[i]) {
            let k = choose|k: int| 0 <= k < words.len() && !keep(#[trigger] words[k]);
            if k < init.len() {
                assert(!keep(init[k]));
            }
        }
        if words.filter(keep).len() < words.len() {
            if init.filter(keep).len() < init.len() {
                let k = choose|k: int| 0 <= k < init.len() && !keep(#[trigger] init[k]);
                assert(!keep(words[k]));
            } else {
                assert(!keep(words[words.len() - 1]));
            }
        }
        if words.filter(keep).len() == words.len() {
            assert(init.filter(keep) == init);
            assert(words.filter(keep) =~= words);
        }
    }
}

/// Narrowing by a clue never adds a word, and it removes one exactly when
/// some word of the list disagrees with the clue.
pub proof fn lemma_narrowing_shrinks(words: Seq<Seq<u8>>, clue: Clue)
    ensures
        agreeing(words, clue).len() <= words.len(),
        agreeing(words, clue).len() < words.len() <==> exists|i: int|
            0 <= i < words.len() && !agrees(#[trigger] words[i], clue),
{
    lemma_filter_shrinks(words, |w: Seq<u8>| agrees(w, clue));
}

/// The longer the history, the fewer the survivors.
pub proof fn lemma_survivors_shrink(words: Seq<Seq<u8>>, history: Seq<Clue>, clue: Clue)
    ensures
        survivors(words, history.push(clue)).len() <= survivors(words, history).len(),
        survivors(words, history).len() <= words.len(),
{
    lemma_survivors_step(words, history, clue);
    lemma_narrowing_shrinks(survivors(words, history), clue);
    lemma_filter_shrinks(words, |w: Seq<u8>| consistent(w, history));
}

/// Narrowing by one more clue is the same as starting over with the longer history.
pub proof fn lemma_survivors_step(words: Seq<Seq<u8>>, history: Seq<Clue>, clue: Clue)
    ensures
        survivors(words, history.push(clue)) == agreeing(survivors(words, history), clue),
    decreases words.len(),
{
    reveal(Seq::filter);
    let longer = history.push(clue);
    if words.len() > 0 {
        let init = words.drop_last();
        let w = words.last();
        lemma_survivors_step(init, history, clue);
        assert(consistent(w, longer) <==> consistent(w, history) && agrees(w, clue)) by {
            if consistent(w, longer) {
                assert forall|i: int| 0 <= i < history.len() implies agrees(
                    w,
                    #[trigger] history[i],
                ) by {
                    assert(longer[i] == history[i]);
                }
                assert(longer[history.len() as int] == clue);
            }
            if consistent(w, history) && agrees(w, clue) {
                assert forall|i: int| 0 <= i < longer.len() implies agrees(
                    w,
                    #[trigger] longer[i],
                ) by {
                    if i < history.len() {
                        assert(longer[i] == history[i]);
                    }
                }
            }
        }
        let s = survivors(init, history);
        if consistent(w, history) {
            assert(survivors(words, history) == s.push(w));
            assert(s.push(w).drop_last() =~= s);
        }
    }
}

/// No clue at all leaves every word standing.
pub proof fn lemma_survivors_start(words: Seq<Seq<u8>>)
    ensures
        survivors(words, Seq::<Clue>::empty()) == words,
{
    let keep = |w: Seq<u8>| consistent(w, Seq::<Clue>::empty());
    lemma_filter_shrinks(words, keep);
}

/// The true answer is never narrowed away: it agrees with every clue that
/// playing against it produced, so it survives any such history.
pub proof fn lemma_answer_survives(words: Seq<Seq<u8>>, answer: Seq<u8>, history: Seq<Clue>)
    requires
        words.contains(answer),
        played_against(history, answer),
    ensures
        survivors(words, history).contains(answer),
{
    lemma_filter_contains(words, |w: Seq<u8>| consistent(w, history), answer);
}

/// Every survivor is a word of the list that is consistent with the history, and
/// every such word survives.
pub proof fn lemma_survivors_exact(words: Seq<Seq<u8>>, history: Seq<Clue>, w: Seq<u8>)
    ensures
        survivors(words, history).contains(w) <==> words.contains(w) && consistent(w, history),
{
    lemma_filter_contains(words, |w: Seq<u8>| consistent(w, history), w);
}

/// Whether `w`, were it the secret, would have earned `entry` its mask.
pub fn agrees_with(w: &Word, entry: &Guess) -> (r: bool)
    ensures
        r == agrees(w@, entry@),
{
    let seen = FeedbackCodec::encode(&entry.mask);
    let mine = FeedbackCodec::code(&entry.word, w);
    proof {
        if seen == mine {
            lemma_code_injective(mask_of(entry.word@, w@), entry.mask@);
        }
        assert(mine == code_of(mask_of(entry.word@, w@)));
    }
    seen == mine
}

/// Whether `w` agrees with every entry of a history.
pub fn is_consistent(w: &Word, history: &[Guess]) -> (r: bool)
    ensures
        r == consistent(w@, history_view(history@)),
{
    let mut i: usize = 0;
    while i < history.len()
        invariant
            i <= history.len(),
            forall|j: int| 0 <= j < i ==> agrees(w@, #[trigger] history_view(history@)[j]),
        decreases history.len() - i,
    {
        if !agrees_with(w, &history[i]) {
            assert(!agrees(w@, history_view(history@)[i as int]));
            return false;
        }
        i += 1;
    }
    true
}

} // verus!
