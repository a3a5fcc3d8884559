//! Choosing the next guess: one contract, five strategies.
//!
//! Every strategy narrows the answers down to the candidates that the history
//! allows, returns the candidate if only one is left, and otherwise returns
//! the guess that ranks best against the candidates. The strategies differ in
//! how they keep their books, and `Prune` also in where it looks for a guess
//! on the last turn.

use crate::candidates::{collect_consistent, consistent_words, CandidateSet};
use crate::dictionary::{is_sublist, words_view, Dictionary};
use crate::error::EngineError;
use crate::feedback::{lemma_code_injective, FeedbackCodec};
use crate::history::{
    agrees, history_view, lemma_survivors_exact, lemma_survivors_start, lemma_survivors_step,
    survivors, Clue, Guess,
};
use crate::ranking::{
    best_index, is_best, pick_best, ranks_before, Direct, MaskCache, MaskSource,
};
use crate::word::Word;
use vstd::prelude::*;

verus! {

/// What a strategy goes by: the two vocabularies, and the turn budget if the
/// strategy takes it into account.
pub struct Policy {
    pub answers: Seq<Seq<u8>>,
    pub guesses: Seq<Seq<u8>>,
    pub budget: Option<nat>,
}

/// The policy of a strategy that always looks for its guess in the whole vocabulary.
pub open spec fn unrestricted(dictionary: &Dictionary) -> Policy {
    Policy {
        answers: dictionary.answer_words(),
        guesses: dictionary.guess_words(),
        budget: None,
    }
}

/// The policy of a strategy that knows the game ends after `max_turns` turns.
pub open spec fn pruned(dictionary: &Dictionary, max_turns: nat) -> Policy {
    Policy {
        answers: dictionary.answer_words(),
        guesses: dictionary.guess_words(),
        budget: Some(max_turns),
    }
}

/// Whether the guess that follows `history` is the last that the budget allows.
pub open spec fn on_last_turn(policy: Policy, history: Seq<Clue>) -> bool {
    policy.budget matches Some(b) && history.len() + 1 >= b
}

/// The words among which the next guess is looked for: the whole vocabulary,
/// but only the candidates on the last turn under a budget, when no other
/// word could win.
pub open spec fn universe_of(policy: Policy, history: Seq<Clue>) -> Seq<Seq<u8>> {
    if on_last_turn(policy, history) {
        survivors(policy.answers, history)
    } else {
        policy.guesses
    }
}

/// The guess for a set of candidates and a universe of guesses.
pub open spec fn settle(candidates: Seq<Seq<u8>>, universe: Seq<Seq<u8>>) -> Result<
    Seq<u8>,
    EngineError,
> {
    if candidates.len() == 0 {
        Err(EngineError::NoCandidates)
    } else if candidates.len() == 1 {
        Ok(candidates[0])
    } else {
        Ok(universe[best_index(universe, candidates)])
    }
}

/// The guess that a policy makes after a history.
pub open spec fn choice(policy: Policy, history: Seq<Clue>) -> Result<Seq<u8>, EngineError> {
    settle(survivors(policy.answers, history), universe_of(policy, history))
}

/// A guess as letters.
pub open spec fn outcome_view(r: Result<Word, EngineError>) -> Result<Seq<u8>, EngineError> {
    match r {
        Ok(w) => Ok(w@),
        Err(e) => Err(e),
    }
}

/// Once a single candidate is left, it is the next guess, whatever the
/// vocabulary and the budget.
pub proof fn lemma_singleton_is_guessed(policy: Policy, history: Seq<Clue>)
    requires
        survivors(policy.answers, history).len() == 1,
    ensures
        choice(policy, history) == Ok::<Seq<u8>, EngineError>(
            survivors(policy.answers, history)[0],
        ),
{
}

/// A strategy that ignores the budget makes the guess that its dictionary alone
/// determines: any two such strategies on one dictionary agree after every
/// history.
pub proof fn lemma_unrestricted_agree(first: Policy, second: Policy, history: Seq<Clue>)
    requires
        first.answers == second.answers,
        first.guesses == second.guesses,
        first.budget is None,
        second.budget is None,
    ensures
        choice(first, history) == choice(second, history),
{
}

/// `Naive`, `Allocs`, `Vecrem` and `OnceInit` over one dictionary make the
/// same guess after every history.
pub proof fn lemma_strategies_agree(
    naive: Naive,
    allocs: Allocs,
    vecrem: Vecrem,
    once_init: OnceInit,
    dictionary: &Dictionary,
    history: Seq<Clue>,
)
    requires
        naive.policy() == unrestricted(dictionary),
        allocs.policy() == unrestricted(dictionary),
        vecrem.policy() == unrestricted(dictionary),
        once_init.policy() == unrestricted(dictionary),
    ensures
        choice(allocs.policy(), history) == choice(naive.policy(), history),
        choice(vecrem.policy(), history) == choice(naive.policy(), history),
        choice(once_init.policy(), history) == choice(naive.policy(), history),
{
}

/// A strategy with a budget departs from the others at most on the last turn,
/// and then only while more than one candidate is left.
pub proof fn lemma_pruned_agrees(dictionary: &Dictionary, max_turns: nat, history: Seq<Clue>)
    requires
        history.len() + 1 < max_turns || survivors(dictionary.answer_words(), history).len() <= 1,
    ensures
        choice(pruned(dictionary, max_turns), history) == choice(
            unrestricted(dictionary),
            history,
        ),
{
}

/// On the last turn a strategy with a budget guesses a word that can still win.
pub proof fn lemma_pruned_last_guess_viable(
    dictionary: &Dictionary,
    max_turns: nat,
    history: Seq<Clue>,
)
    requires
        history.len() + 1 >= max_turns,
        survivors(dictionary.answer_words(), history).len() > 0,
    ensures
        choice(pruned(dictionary, max_turns), history) is Ok,
        survivors(dictionary.answer_words(), history).contains(
            choice(pruned(dictionary, max_turns), history)->Ok_0,
        ),
{
    let c = survivors(dictionary.answer_words(), history);
    if c.len() == 1 {
        assert(c[0] == c[0]);
    } else {
        lemma_best_exists(c, c);
        let b = best_index(c, c);
        assert(c[b] == c[b]);
    }
}

/// Every universe that is not empty has a best guess.
pub proof fn lemma_best_exists(universe: Seq<Seq<u8>>, candidates: Seq<Seq<u8>>)
    requires
        universe.len() > 0,
    ensures
        is_best(universe, candidates, best_index(universe, candidates)),
{
    let b = lemma_best_upto(universe, candidates, universe.len() as int);
    assert(is_best(universe, candidates, b));
}

proof fn lemma_best_upto(universe: Seq<Seq<u8>>, candidates: Seq<Seq<u8>>, n: int) -> (b: int)
    requires
        0 < n <= universe.len(),
    ensures
        0 <= b < n,
        forall|j: int|
            0 <= j < n && j != b ==> #[trigger] ranks_before(
                universe,
                candidates,
                b,
                j,
            ),
    decreases n,
{
    if n == 1 {
        0
    } else {
        let prev = lemma_best_upto(universe, candidates, n - 1);
        if ranks_before(universe, candidates, n - 1, prev) {
            assert forall|j: int| 0 <= j < n && j != n - 1 implies #[trigger] ranks_before(
                universe,
                candidates,
                n - 1,
                j,
            ) by {
                if j != prev {
                    assert(ranks_before(universe, candidates, prev, j));
                }
            }
            n - 1
        } else {
            assert(ranks_before(universe, candidates, prev, n - 1));
            prev
        }
    }
}

/// If a beginning of a history leaves no candidate, neither does the history.
pub proof fn lemma_no_way_back(words: Seq<Seq<u8>>, history: Seq<Clue>, k: int)
    requires
        0 <= k <= history.len(),
        survivors(words, history.subrange(0, k)).len() == 0,
    ensures
        survivors(words, history).len() == 0,
{
    let s = survivors(words, history);
    if s.len() > 0 {
        let w = s[0];
        assert(s.contains(w));
        lemma_survivors_exact(words, history, w);
        let part = history.subrange(0, k);
        assert forall|i: int| 0 <= i < part.len() implies agrees(
            w,
            #[trigger] part[i],
        ) by {
            assert(part[i] == history[i]);
        }
        lemma_survivors_exact(words, part, w);
        assert(survivors(words, part).contains(w));
    }
}

/// The shared contract of the strategies.
pub trait Guesser {
    /// Whether the strategy's books are in order.
    spec fn ready(&self) -> bool;

    /// What the strategy goes by. It never changes.
    spec fn policy(&self) -> Policy;

    /// The next guess after `history`, the turns played so far in this game.
    ///
    /// Fails with `NoCandidates` exactly when no answer of the dictionary is
    /// consistent with the history.
    fn guess(&mut self, history: &[Guess]) -> (r: Result<Word, EngineError>)
        requires
            old(self).ready(),
        ensures
            final(self).ready(),
            final(self).policy() == old(self).policy(),
            outcome_view(r) == choice(old(self).policy(), history_view(history@)),
    ;
}

/// Makes the guess for given candidates and a given universe.
pub fn settle_on<M: MaskSource>(
    source: &mut M,
    universe: &[Word],
    candidates: &[Word],
    counts: &mut Vec<usize>,
) -> (r: Result<Word, EngineError>)
    requires
        old(source).valid(),
        candidates@.len() >= 2 ==> universe@.len() > 0,
    ensures
        final(source).valid(),
        final(source).extends(old(source)),
        outcome_view(r) == settle(words_view(candidates@), words_view(universe@)),
{
    proof {
        source.lemma_extends_itself();
    }
    if candidates.len() == 0 {
        return Err(EngineError::NoCandidates);
    }
    if candidates.len() == 1 {
        return Ok(candidates[0]);
    }
    let best = pick_best(source, universe, candidates, counts);
    Ok(universe[best])
}

/// Whether two recorded turns say the same.
fn same_entry(a: &Guess, b: &Guess) -> (r: bool)
    ensures
        r == (a@ == b@),
{
    let same_word = a.word.same(&b.word);
    let ca = FeedbackCodec::encode(&a.mask);
    let cb = FeedbackCodec::encode(&b.mask);
    proof {
        if ca == cb {
            lemma_code_injective(a.mask@, b.mask@);
        }
    }
    same_word && ca == cb
}

/// Whether `seen` is a beginning of `history`.
fn is_beginning(seen: &Vec<Guess>, history: &[Guess]) -> (r: bool)
    ensures
        r == (seen@.len() <= history@.len() && history_view(history@).subrange(
            0,
            seen@.len() as int,
        ) == history_view(seen@)),
{
    if seen.len() > history.len() {
        return false;
    }
    let ghost h = history_view(history@);
    let ghost s = history_view(seen@);
    let mut i: usize = 0;
    while i < seen.len()
        invariant
            i <= seen.len(),
            seen.len() <= history.len(),
            h == history_view(history@),
            s == history_view(seen@),
            forall|j: int| 0 <= j < i ==> #[trigger] h[j] == s[j],
        decreases seen.len() - i,
    {
        if !same_entry(&seen[i], &history[i]) {
            assert(h.subrange(0, seen@.len() as int)[i as int] != s[i as int]);
            return false;
        }
        i += 1;
    }
    assert(h.subrange(0, seen@.len() as int) =~= s);
    true
}

/// Brings a maintained candidate set up to date with `history`.
///
/// `seen` holds the turns by which `remaining` has been narrowed so far. If
/// the history continues them, only the new turns are applied; otherwise the
/// set starts over from the dictionary.
fn catch_up(
    remaining: &mut CandidateSet,
    seen: &mut Vec<Guess>,
    dictionary: &Dictionary,
    history: &[Guess],
) -> (r: Result<(), EngineError>)
    requires
        old(remaining)@ == survivors(dictionary.answer_words(), history_view(old(seen)@)),
    ensures
        final(remaining)@ == survivors(dictionary.answer_words(), history_view(final(seen)@)),
        r is Ok ==> history_view(final(seen)@) == history_view(history@),
        r is Err ==> r == Err::<(), EngineError>(EngineError::NoCandidates) && survivors(
            dictionary.answer_words(),
            history_view(history@),
        ).len() == 0,
{
    let ghost answers = dictionary.answer_words();
    let ghost h = history_view(history@);
    if !is_beginning(seen, history) {
        remaining.reset(dictionary);
        seen.clear();
        proof {
            lemma_survivors_start(answers);
            assert(history_view(seen@) =~= Seq::<Clue>::empty());
        }
    }
    assert(h.subrange(0, seen@.len() as int) =~= history_view(seen@));
    let mut i: usize = seen.len();
    while i < history.len()
        invariant
            i <= history.len(),
            i == seen@.len(),
            answers == dictionary.answer_words(),
            h == history_view(history@),
            history_view(seen@) == h.subrange(0, i as int),
            remaining@ == survivors(answers, history_view(seen@)),
        decreases history.len() - i,
    {
        let entry = history[i];
        let ghost before = history_view(seen@);
        proof {
            lemma_survivors_step(answers, before, entry@);
            assert(h.subrange(0, i as int + 1) =~= before.push(entry@));
        }
        match remaining.narrow(&entry.word, &entry.mask) {
            Ok(()) => {
                seen.push(entry);
                assert(history_view(seen@) =~= before.push(entry@));
            },
            Err(_) => {
                proof {
                    assert(entry@ == Clue { word: entry.word@, mask: entry.mask@ });
                    lemma_no_way_back(answers, h, i as int + 1);
                }
                return Err(EngineError::NoCandidates);
            },
        }
        i += 1;
    }
    assert(h.subrange(0, i as int) =~= h);
    Ok(())
}

/// Rebuilds the candidates from the whole answer vocabulary on every turn and
/// computes every mask afresh.
pub struct Naive<'a> {
    dictionary: &'a Dictionary,
}

impl<'a> Naive<'a> {
    /// A strategy over `dictionary`.
    pub fn new(dictionary: &'a Dictionary) -> (s: Self)
        ensures
            s.ready(),
            s.policy() == unrestricted(dictionary),
    {
        Naive { dictionary }
    }
}

impl<'a> Guesser for Naive<'a> {
    closed spec fn ready(&self) -> bool {
        true
    }

    closed spec fn policy(&self) -> Policy {
        unrestricted(self.dictionary)
    }

    fn guess(&mut self, history: &[Guess]) -> (r: Result<Word, EngineError>) {
        let candidates = consistent_words(self.dictionary.answers(), history);
        let guesses = self.dictionary.guesses();
        let mut counts: Vec<usize> = Vec::new();
        let mut source = Direct;
        proof {
            lemma_candidates_can_be_guessed(self.dictionary, history_view(history@));
        }
        settle_on(&mut source, guesses.as_slice(), candidates.as_slice(), &mut counts)
    }
}

/// As `Naive`, but with one list of candidates and one table of counts that
/// are refilled on every turn instead of being allocated anew.
pub struct Allocs<'a> {
    dictionary: &'a Dictionary,
    candidates: Vec<Word>,
    counts: Vec<usize>,
}

impl<'a> Allocs<'a> {
    /// A strategy over `dictionary`.
    pub fn new(dictionary: &'a Dictionary) -> (s: Self)
        ensures
            s.ready(),
            s.policy() == unrestricted(dictionary),
    {
        let n = dictionary.answers().len();
        Allocs { dictionary, candidates: Vec::with_capacity(n), counts: Vec::with_capacity(243) }
    }
}

impl<'a> Guesser for Allocs<'a> {
    closed spec fn ready(&self) -> bool {
        true
    }

    closed spec fn policy(&self) -> Policy {
        unrestricted(self.dictionary)
    }

    fn guess(&mut self, history: &[Guess]) -> (r: Result<Word, EngineError>) {
        collect_consistent(self.dictionary.answers(), history, &mut self.candidates);
        let guesses = self.dictionary.guesses();
        let mut source = Direct;
        proof {
            lemma_candidates_can_be_guessed(self.dictionary, history_view(history@));
        }
        settle_on(&mut source, guesses.as_slice(), self.candidates.as_slice(), &mut self.counts)
    }
}

/// Keeps one set of candidates for the whole game and narrows it in place,
/// turn by turn.
pub struct Vecrem<'a> {
    dictionary: &'a Dictionary,
    remaining: CandidateSet,
    seen: Vec<Guess>,
    counts: Vec<usize>,
}

impl<'a> Vecrem<'a> {
    /// A strategy over `dictionary`.
    pub fn new(dictionary: &'a Dictionary) -> (s: Self)
        ensures
            s.ready(),
            s.policy() == unrestricted(dictionary),
    {
        let remaining = CandidateSet::new(dictionary);
        let seen: Vec<Guess> = Vec::new();
        proof {
            lemma_survivors_start(dictionary.answer_words());
            assert(history_view(seen@) =~= Seq::<Clue>::empty());
        }
        Vecrem { dictionary, remaining, seen, counts: Vec::new() }
    }
}

impl<'a> Guesser for Vecrem<'a> {
    closed spec fn ready(&self) -> bool {
        self.remaining@ == survivors(self.dictionary.answer_words(), history_view(self.seen@))
    }

    closed spec fn policy(&self) -> Policy {
        unrestricted(self.dictionary)
    }

    fn guess(&mut self, history: &[Guess]) -> (r: Result<Word, EngineError>) {
        match catch_up(&mut self.remaining, &mut self.seen, self.dictionary, history) {
            Ok(()) => {},
            Err(e) => {
                return Err(e);
            },
        }
        let guesses = self.dictionary.guesses();
        let mut source = Direct;
        proof {
            lemma_candidates_can_be_guessed(self.dictionary, history_view(history@));
        }
        settle_on(&mut source, guesses.as_slice(), self.remaining.iter(), &mut self.counts)
    }
}

/// As `Vecrem`, and remembers every mask it has computed in a table that
/// outlives the turn and, if its owner passes it on, the game.
pub struct OnceInit<'a> {
    dictionary: &'a Dictionary,
    remaining: CandidateSet,
    seen: Vec<Guess>,
    counts: Vec<usize>,
    cache: MaskCache,
}

impl<'a> OnceInit<'a> {
    /// The table in which the strategy remembers its masks.
    pub closed spec fn table(&self) -> MaskCache {
        self.cache
    }

    /// A strategy over `dictionary` that remembers its masks in `cache`.
    pub fn new(dictionary: &'a Dictionary, cache: MaskCache) -> (s: Self)
        requires
            cache.valid(),
        ensures
            s.ready(),
            s.policy() == unrestricted(dictionary),
            s.table() == cache,
    {
        let remaining = CandidateSet::new(dictionary);
        let seen: Vec<Guess> = Vec::new();
        proof {
            lemma_survivors_start(dictionary.answer_words());
            assert(history_view(seen@) =~= Seq::<Clue>::empty());
        }
        OnceInit { dictionary, remaining, seen, counts: Vec::new(), cache }
    }

    /// Ends the strategy and hands its table of masks back, for a later
    /// game: the table that the strategy was given, with all that its guesses
    /// have added.
    pub fn into_cache(self) -> (cache: MaskCache)
        requires
            self.ready(),
        ensures
            cache == self.table(),
            cache.valid(),
    {
        self.cache
    }
}

impl<'a> Guesser for OnceInit<'a> {
    closed spec fn ready(&self) -> bool {
        &&& self.cache.valid()
        &&& self.remaining@ == survivors(
            self.dictionary.answer_words(),
            history_view(self.seen@),
        )
    }

    closed spec fn policy(&self) -> Policy {
        unrestricted(self.dictionary)
    }

    /// The table only grows: what it remembered before the guess, it
    /// remembers after.
    fn guess(&mut self, history: &[Guess]) -> (r: Result<Word, EngineError>)
        ensures
            final(self).table().extends(&old(self).table()),
    {
        proof {
            self.cache.lemma_extends_itself();
        }
        match catch_up(&mut self.remaining, &mut self.seen, self.dictionary, history) {
            Ok(()) => {},
            Err(e) => {
                return Err(e);
            },
        }
        let guesses = self.dictionary.guesses();
        proof {
            lemma_candidates_can_be_guessed(self.dictionary, history_view(history@));
        }
        settle_on(&mut self.cache, guesses.as_slice(), self.remaining.iter(), &mut self.counts)
    }
}

/// As `OnceInit`, and aware of the turn budget: on the last turn it looks for
/// its guess among the candidates only, since no other word could win.
pub struct Prune<'a> {
    dictionary: &'a Dictionary,
    remaining: CandidateSet,
    seen: Vec<Guess>,
    counts: Vec<usize>,
    cache: MaskCache,
    max_turns: usize,
}

impl<'a> Prune<'a> {
    /// The table in which the strategy remembers its masks.
    pub closed spec fn table(&self) -> MaskCache {
        self.cache
    }

    /// A strategy over `dictionary` for games of at most `max_turns` turns,
    /// that remembers its masks in `cache`.
    pub fn new(dictionary: &'a Dictionary, cache: MaskCache, max_turns: usize) -> (s: Self)
        requires
            cache.valid(),
        ensures
            s.ready(),
            s.policy() == pruned(dictionary, max_turns as nat),
            s.table() == cache,
    {
        let remaining = CandidateSet::new(dictionary);
        let seen: Vec<Guess> = Vec::new();
        proof {
            lemma_survivors_start(dictionary.answer_words());
            assert(history_view(seen@) =~= Seq::<Clue>::empty());
        }
        Prune { dictionary, remaining, seen, counts: Vec::new(), cache, max_turns }
    }

    /// Ends the strategy and hands its table of masks back, for a later
    /// game: the table that the strategy was given, with all that its guesses
    /// have added.
    pub fn into_cache(self) -> (cache: MaskCache)
        requires
            self.ready(),
        ensures
            cache == self.table(),
            cache.valid(),
    {
        self.cache
    }
}

impl<'a> Guesser for Prune<'a> {
    closed spec fn ready(&self) -> bool {
        &&& self.cache.valid()
        &&& self.remaining@ == survivors(
            self.dictionary.answer_words(),
            history_view(self.seen@),
        )
    }

    closed spec fn policy(&self) -> Policy {
        pruned(self.dictionary, self.max_turns as nat)
    }

    /// The table only grows: what it remembered before the guess, it
    /// remembers after.
    fn guess(&mut self, history: &[Guess]) -> (r: Result<Word, EngineError>)
        ensures
            final(self).table().extends(&old(self).table()),
    {
        proof {
            self.cache.lemma_extends_itself();
        }
        match catch_up(&mut self.remaining, &mut self.seen, self.dictionary, history) {
            Ok(()) => {},
            Err(e) => {
                return Err(e);
            },
        }
        let last_turn = self.max_turns == 0 || history.len() >= self.max_turns - 1;
        let guesses = self.dictionary.guesses();
        proof {
            lemma_candidates_can_be_guessed(self.dictionary, history_view(history@));
        }
        if last_turn {
            settle_on(
                &mut self.cache,
                self.remaining.iter(),
                self.remaining.iter(),
                &mut self.counts,
            )
        } else {
            settle_on(&mut self.cache, guesses.as_slice(), self.remaining.iter(), &mut self.counts)
        }
    }
}

/// While a candidate is left, the vocabulary of guesses is not empty: every
/// candidate is an answer, and every answer may be guessed.
proof fn lemma_candidates_can_be_guessed(dictionary: &Dictionary, history: Seq<Clue>)
    requires
        is_sublist(dictionary.answer_words(), dictionary.guess_words()),
    ensures
        survivors(dictionary.answer_words(), history).len() > 0
            ==> dictionary.guess_words().len() > 0,
{
    let c = survivors(dictionary.answer_words(), history);
    if c.len() > 0 {
        assert(c.contains(c[0]));
        lemma_survivors_exact(dictionary.answer_words(), history, c[0]);
        let answers = dictionary.answer_words();
        let k = choose|k: int| 0 <= k < answers.len() && answers[k] == c[0];
        assert(dictionary.guess_words().contains(answers[k]));
    }
}

} // verus!
