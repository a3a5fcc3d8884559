//! The fixed vocabulary of a run: the words that may be guessed and the words
//! that may be the secret.

use crate::error::EngineError;
use crate::word::{is_word, is_word_text, text_bytes, Word};
use vstd::prelude::*;

verus! {

/// The letters of each word of a list.
pub open spec fn words_view(v: Seq<Word>) -> Seq<Seq<u8>> {
    Seq::new(v.len(), |i: int| v[i]@)
}

/// The letters of each text of a list.
pub open spec fn texts_view(list: Seq<&str>) -> Seq<Seq<u8>> {
    Seq::new(list.len(), |i: int| text_bytes(list[i]@))
}

/// Whether every text of a list spells a legal word.
pub open spec fn all_word_texts(list: Seq<&str>) -> bool {
    forall|i: int| 0 <= i < list.len() ==> is_word_text(#[trigger] list[i]@)
}

/// The distinct elements of `s`, each at the place of its first occurrence.
pub open spec fn first_seen(s: Seq<Seq<u8>>) -> Seq<Seq<u8>>
    decreases s.len(),
{
    if s.len() == 0 {
        Seq::empty()
    } else {
        let earlier = first_seen(s.drop_last());
        if earlier.contains(s.last()) {
            earlier
        } else {
            earlier.push(s.last())
        }
    }
}

/// Whether `a` occurs in `s` before any occurrence of `b`.
pub open spec fn occurs_before(s: Seq<Seq<u8>>, a: Seq<u8>, b: Seq<u8>) -> bool {
    exists|p: int| 0 <= p < s.len() && s[p] == a && forall|q: int| 0 <= q <= p ==> s[q] != b
}

/// Whether a list is a vocabulary: legal words, none of them twice.
pub open spec fn is_vocabulary(s: Seq<Seq<u8>>) -> bool {
    &&& forall|i: int| 0 <= i < s.len() ==> is_word(#[trigger] s[i])
    &&& forall|i: int, j: int| 0 <= i < j < s.len() ==> s[i] != s[j]
}

/// Whether every element of `part` occurs in `whole`.
pub open spec fn is_sublist(part: Seq<Seq<u8>>, whole: Seq<Seq<u8>>) -> bool {
    forall|i: int| 0 <= i < part.len() ==> whole.contains(#[trigger] part[i])
}

/// What `first_seen` keeps: exactly the elements of the list, none twice, and in
/// the order in which they first occur.
pub proof fn lemma_first_seen(s: Seq<Seq<u8>>)
    ensures
        first_seen(s).len() <= s.len(),
        forall|w: Seq<u8>| first_seen(s).contains(w) <==> s.contains(w),
        forall|i: int, j: int|
            0 <= i < j < first_seen(s).len() ==> first_seen(s)[i] != first_seen(s)[j],
        forall|i: int, j: int|
            0 <= i < j < first_seen(s).len() ==> occurs_before(
                s,
                #[trigger] first_seen(s)[i],
                #[trigger] first_seen(s)[j],
            ),
    decreases s.len(),
{
    let d = first_seen(s);
    if s.len() == 0 {
        assert forall|w: Seq<u8>| d.contains(w) <==> s.contains(w) by {}
    } else {
        let init = s.drop_last();
        let e = first_seen(init);
        lemma_first_seen(init);
        assert forall|w: Seq<u8>| d.contains(w) <==> s.contains(w) by {
            if s.contains(w) {
                let k = choose|k: int| 0 <= k < s.len() && s[k] == w;
                if k < init.len() {
                    assert(init[k] == w);
                    assert(init.contains(w));
                    assert(e.contains(w));
                    let m = e.index_of(w);
                    assert(d[m] == w);
                } else {
                    assert(w == s.last());
                    if e.contains(w) {
                    } else {
                        assert(d[d.len() - 1] == w);
                    }
                }
            }
            if d.contains(w) {
                let k = choose|k: int| 0 <= k < d.len() && d[k] == w;
                if k < e.len() {
                    assert(e[k] == w);
                    assert(e.contains(w));
                    assert(init.contains(w));
                    let m = init.index_of(w);
                    assert(s[m] == w);
                } else {
                    assert(w == s.last());
                    assert(s[s.len() - 1] == w);
                }
            }
        }
        assert forall|i: int, j: int| 0 <= i < j < d.len() implies d[i] != d[j] by {
            if j < e.len() {
            } else {
                assert(e[i] == d[i]);
                assert(e.contains(d[i]));
            }
        }
        assert forall|i: int, j: int| 0 <= i < j < d.len() implies occurs_before(
            s,
            #[trigger] d[i],
            #[trigger] d[j],
        ) by {
            assert(e[i] == d[i]);
            if j < e.len() {
                assert(e[j] == d[j]);
                assert(occurs_before(init, e[i], e[j]));
                let p = choose|p: int|
                    0 <= p < init.len() && init[p] == e[i] && forall|q: int|
                        0 <= q <= p ==> init[q] != e[j];
                assert(s[p] == d[i]);
                assert forall|q: int| 0 <= q <= p implies s[q] != d[j] by {
                    assert(init[q] != e[j]);
                }
            } else {
                assert(e.contains(d[i]));
                assert(init.contains(d[i]));
                let p = choose|p: int| 0 <= p < init.len() && init[p] == d[i];
                assert(s[p] == d[i]);
                assert(d[j] == s.last());
                assert(!e.contains(s.last()));
                assert(!init.contains(s.last()));
                assert forall|q: int| 0 <= q <= p implies s[q] != d[j] by {
                    assert(init[q] == s[q]);
                }
            }
        }
    }
}

/// The vocabulary of a run. Fixed once loaded.
pub struct Dictionary {
    guesses: Vec<Word>,
    answers: Vec<Word>,
}

impl Dictionary {
    /// Both lists are vocabularies, and every answer may also be guessed.
    #[verifier::type_invariant]
    closed spec fn well_formed(&self) -> bool {
        &&& is_vocabulary(words_view(self.guesses@))
        &&& is_vocabulary(words_view(self.answers@))
        &&& is_sublist(words_view(self.answers@), words_view(self.guesses@))
    }

    /// The words that may be guessed, in the order in which they were first listed.
    pub closed spec fn guess_words(&self) -> Seq<Seq<u8>> {
        words_view(self.guesses@)
    }

    /// The words that may be the secret, in the order in which they were first listed.
    pub closed spec fn answer_words(&self) -> Seq<Seq<u8>> {
        words_view(self.answers@)
    }

    /// Builds the vocabulary from a list of accepted guesses and a list of
    /// possible answers.
    ///
    /// Fails with `InvalidWord` if any token of either list is not a legal
    /// word. Otherwise repeated words are dropped, each word staying where it
    /// was first seen. Every answer is also an accepted guess: answers missing
    /// from the guess list follow it in the vocabulary of guesses.
    pub fn load(guess_list: &[&str], answer_list: &[&str]) -> (r: Result<Dictionary, EngineError>)
        ensures
            !(all_word_texts(guess_list@) && all_word_texts(answer_list@)) ==> r == Err::<
                Dictionary,
                EngineError,
            >(EngineError::InvalidWord),
            all_word_texts(guess_list@) && all_word_texts(answer_list@) ==> r is Ok && r->Ok_0.answer_words()
                == first_seen(texts_view(answer_list@)) && r->Ok_0.guess_words() == first_seen(
                texts_view(guess_list@) + texts_view(answer_list@),
            ),
    {
        let listed = match parse_all(guess_list) {
            Ok(v) => v,
            Err(e) => {
                return Err(e);
            },
        };
        let secret = match parse_all(answer_list) {
            Ok(v) => v,
            Err(e) => {
                return Err(e);
            },
        };
        let mut all: Vec<Word> = Vec::new();
        let mut i: usize = 0;
        while i < listed.len()
            invariant
                i <= listed.len(),
                all@ == listed@.subrange(0, i as int),
            decreases listed.len() - i,
        {
            all.push(listed[i]);
            assert(all@ =~= listed@.subrange(0, i as int + 1));
            i += 1;
        }
        assert(all@ =~= listed@);
        i = 0;
        while i < secret.len()
            invariant
                i <= secret.len(),
                all@ == listed@ + secret@.subrange(0, i as int),
            decreases secret.len() - i,
        {
            all.push(secret[i]);
            assert(all@ =~= listed@ + secret@.subrange(0, i as int + 1));
            i += 1;
        }
        assert(all@ =~= listed@ + secret@);
        let guesses = unique_in_order(&all);
        let answers = unique_in_order(&secret);
        proof {
            assert(words_view(all@) =~= texts_view(guess_list@) + texts_view(answer_list@));
            lemma_first_seen(words_view(all@));
            lemma_first_seen(words_view(secret@));
            let gs = words_view(guesses@);
            let ans = words_view(answers@);
            assert forall|k: int| 0 <= k < ans.len() implies gs.contains(#[trigger] ans[k]) by {
                assert(ans.contains(ans[k]));
                assert(words_view(secret@).contains(ans[k]));
                let m = words_view(secret@).index_of(ans[k]);
                assert(words_view(all@)[listed@.len() + m] == ans[k]);
                assert(words_view(all@).contains(ans[k]));
            }
        }
        Ok(Dictionary { guesses, answers })
    }

    /// The words that may be the secret.
    pub fn answers(&self) -> (r: &Vec<Word>)
        ensures
            words_view(r@) == self.answer_words(),
            is_vocabulary(self.answer_words()),
            is_sublist(self.answer_words(), self.guess_words()),
    {
        proof {
            use_type_invariant(self);
        }
        &self.answers
    }

    /// The words that may be guessed.
    pub fn guesses(&self) -> (r: &Vec<Word>)
        ensures
            words_view(r@) == self.guess_words(),
            is_vocabulary(self.guess_words()),
            is_sublist(self.answer_words(), self.guess_words()),
    {
        proof {
            use_type_invariant(self);
        }
        &self.guesses
    }
}

/// Parses every token of a list, refusing the list on the first token that is no word.
fn parse_all(list: &[&str]) -> (r: Result<Vec<Word>, EngineError>)
    ensures
        !all_word_texts(list@) ==> r == Err::<Vec<Word>, EngineError>(EngineError::InvalidWord),
        all_word_texts(list@) ==> r is Ok && words_view(r->Ok_0@) == texts_view(list@),
{
    let mut out: Vec<Word> = Vec::new();
    let mut i: usize = 0;
    while i < list.len()
        invariant
            i <= list.len(),
            out@.len() == i,
            forall|j: int| 0 <= j < i ==> is_word_text(#[trigger] list@[j]@),
            forall|j: int| 0 <= j < i ==> (#[trigger] out@[j])@ == text_bytes(list@[j]@),
        decreases list.len() - i,
    {
        match Word::new(list[i]) {
            Ok(w) => {
                out.push(w);
            },
            Err(_) => {
                assert(!is_word_text(list@[i as int]@));
                return Err(EngineError::InvalidWord);
            },
        }
        i += 1;
    }
    assert(words_view(out@) =~= texts_view(list@));
    Ok(out)
}

/// Whether `w` is among the words of `v`.
pub fn contains_word(v: &[Word], w: &Word) -> (r: bool)
    ensures
        r == words_view(v@).contains(w@),
{
    let mut i: usize = 0;
    while i < v.len()
        invariant
            i <= v.len(),
            forall|j: int| 0 <= j < i ==> words_view(v@)[j] != w@,
        decreases v.len() - i,
    {
        if v[i].same(w) {
            assert(words_view(v@)[i as int] == w@);
            return true;
        }
        i += 1;
    }
    false
}

/// The distinct words of a list, each at the place of its first occurrence.
fn unique_in_order(words: &Vec<Word>) -> (out: Vec<Word>)
    ensures
        words_view(out@) == first_seen(words_view(words@)),
        forall|i: int| 0 <= i < out@.len() ==> is_word(#[trigger] words_view(out@)[i]),
{
    let mut out: Vec<Word> = Vec::new();
    let mut i: usize = 0;
    assert(words_view(words@).subrange(0, 0) =~= Seq::<Seq<u8>>::empty());
    assert(words_view(out@) =~= first_seen(words_view(words@).subrange(0, 0)));
    while i < words.len()
        invariant
            i <= words.len(),
            words_view(out@) == first_seen(words_view(words@).subrange(0, i as int)),
            forall|j: int| 0 <= j < out@.len() ==> is_word(#[trigger] words_view(out@)[j]),
        decreases words.len() - i,
    {
        let w = words[i];
        let ghost before = words_view(out@);
        let ghost upto = words_view(words@).subrange(0, i as int + 1);
        assert(upto.drop_last() =~= words_view(words@).subrange(0, i as int));
        assert(upto.last() == w@);
        let seen = contains_word(out.as_slice(), &w);
        if !seen {
            let _ = w.bytes();
            out.push(w);
            assert(words_view(out@) =~= before.push(w@));
        }
        i += 1;
    }
    assert(words_view(words@).subrange(0, i as int) =~= words_view(words@));
    out
}

} // verus!
