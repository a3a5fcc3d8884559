//! One game from the first guess to the end.

use crate::error::EngineError;
use crate::feedback::{lemma_same_word_all_correct, mask_of, Correctness, FeedbackCodec};
use crate::history::{
    agrees, history_view, lemma_answer_survives, played_against, survivors, Clue, Guess,
};
use crate::selector::{choice, Guesser, Policy};
use crate::word::{is_word_text, text_bytes, Word};
use vstd::prelude::*;

verus! {

/// The number of turns a game gets unless its caller says otherwise.
pub const DEFAULT_MAX_TURNS: usize = 32;

/// Where a game stands.
#[derive(Clone, Copy, Debug, PartialEq, Eq, Structural)]
pub enum GameState {
    /// Guesses are still being made.
    Playing,
    /// The secret was guessed.
    Solved,
    /// The turns ran out before the secret was guessed.
    Exhausted,
}

/// How a game ended.
#[derive(Clone, Debug, PartialEq, Eq)]
pub struct GameReport {
    /// `Solved` or `Exhausted`.
    pub state: GameState,
    /// The number of guesses it took, counting the winning one, if the secret was guessed.
    pub score: Option<usize>,
    /// Every guess of the game with its mask, in order.
    pub history: Vec<Guess>,
}

/// The course of a game: its score, if any, and its turns.
pub struct Trace {
    pub score: Option<nat>,
    pub history: Seq<Clue>,
}

/// The turn that guessing `word` against `answer` records.
pub open spec fn turn_of(word: Seq<u8>, answer: Seq<u8>) -> Clue {
    Clue { word, mask: mask_of(word, answer) }
}

/// The course that a game takes from `history` on, with `turns_left` turns to
/// go, when the guesses follow `policy` and the secret is `answer`.
pub open spec fn run(policy: Policy, answer: Seq<u8>, history: Seq<Clue>, turns_left: nat) -> Result<
    Trace,
    EngineError,
>
    decreases turns_left,
{
    if turns_left == 0 {
        Ok(Trace { score: None, history })
    } else {
        match choice(policy, history) {
            Err(e) => Err(e),
            Ok(word) => {
                let longer = history.push(turn_of(word, answer));
                if word == answer {
                    Ok(Trace { score: Some(longer.len()), history: longer })
                } else {
                    run(policy, answer, longer, (turns_left - 1) as nat)
                }
            },
        }
    }
}

/// The course of a whole game of at most `max_turns` turns.
pub open spec fn game(policy: Policy, answer: Seq<u8>, max_turns: nat) -> Result<
    Trace,
    EngineError,
> {
    run(policy, answer, Seq::<Clue>::empty(), max_turns)
}

/// What a report says, as a course of a game.
pub open spec fn report_view(r: Result<GameReport, EngineError>) -> Result<Trace, EngineError> {
    match r {
        Ok(report) => Ok(
            Trace {
                score: match report.score {
                    Some(n) => Some(n as nat),
                    None => None,
                },
                history: history_view(report.history@),
            },
        ),
        Err(e) => Err(e),
    }
}

/// A game without turns ends at once, unsolved and with nothing recorded.
pub proof fn lemma_no_turns_no_score(policy: Policy, answer: Seq<u8>)
    ensures
        game(policy, answer, 0) == Ok::<Trace, EngineError>(
            Trace { score: None, history: Seq::<Clue>::empty() },
        ),
{
}

/// What holds of every game that ends without an error.
///
/// Its turns are the feedback of the secret and extend the turns it started
/// from by at most the turns it had left. If it has a score, the score is the
/// number of its turns, its last guess is the secret, and the mask of that
/// guess is all `Correct`.
pub proof fn lemma_course_of_game(
    policy: Policy,
    answer: Seq<u8>,
    history: Seq<Clue>,
    turns_left: nat,
)
    requires
        answer.len() == 5,
        played_against(history, answer),
        run(policy, answer, history, turns_left) is Ok,
    ensures
        ({
            let trace = run(policy, answer, history, turns_left)->Ok_0;
            &&& played_against(trace.history, answer)
            &&& history.len() <= trace.history.len() <= history.len() + turns_left
            &&& trace.score matches Some(n) ==> {
                &&& n == trace.history.len()
                &&& n > history.len()
                &&& trace.history.last().word == answer
                &&& forall|i: int|
                    0 <= i < 5 ==> #[trigger] trace.history.last().mask[i] == Correctness::Correct
            }
            &&& trace.score is None ==> trace.history.len() == history.len() + turns_left
        }),
    decreases turns_left,
{
    if turns_left > 0 {
        let word = choice(policy, history)->Ok_0;
        let longer = history.push(turn_of(word, answer));
        assert forall|i: int| 0 <= i < longer.len() implies agrees(answer, #[trigger] longer[i]) by {
            if i < history.len() {
                assert(longer[i] == history[i]);
            }
        }
        if word == answer {
            lemma_same_word_all_correct(answer);
            assert(longer.last() == turn_of(word, answer));
        } else {
            lemma_course_of_game(policy, answer, longer, (turns_left - 1) as nat);
        }
    }
}

/// A game whose secret is an answer of the dictionary is never stuck: the
/// secret survives every narrowing, so a guess can always be made.
pub proof fn lemma_game_never_stuck(
    policy: Policy,
    answer: Seq<u8>,
    history: Seq<Clue>,
    turns_left: nat,
)
    requires
        policy.answers.contains(answer),
        played_against(history, answer),
    ensures
        run(policy, answer, history, turns_left) is Ok,
    decreases turns_left,
{
    if turns_left > 0 {
        lemma_answer_survives(policy.answers, answer, history);
        let c = survivors(policy.answers, history);
        assert(c.len() > 0);
        let word = choice(policy, history)->Ok_0;
        let longer = history.push(turn_of(word, answer));
        assert forall|i: int| 0 <= i < longer.len() implies agrees(answer, #[trigger] longer[i]) by {
            if i < history.len() {
                assert(longer[i] == history[i]);
            }
        }
        if word != answer {
            lemma_game_never_stuck(policy, answer, longer, (turns_left - 1) as nat);
        }
    }
}

/// Runs games.
pub struct GameDriver;

impl GameDriver {
    /// Plays one game against the secret `answer`, asking `selector` for each
    /// guess, for at most `max_turns` turns.
    ///
    /// Fails with `InvalidAnswer` if `answer` is not a legal word; the selector
    /// is then not consulted. An error of the selector ends the game and is
    /// handed on. With no turns the game ends at once, without a score, and
    /// the selector is not consulted either.
    pub fn play<G: Guesser>(answer: &str, selector: &mut G, max_turns: usize) -> (r: Result<
        GameReport,
        EngineError,
    >)
        requires
            old(selector).ready(),
        ensures
            final(selector).ready(),
            final(selector).policy() == old(selector).policy(),
            !is_word_text(answer@) ==> r == Err::<GameReport, EngineError>(
                EngineError::InvalidAnswer,
            ),
            !is_word_text(answer@) || max_turns == 0 ==> *final(selector) == *old(selector),
            is_word_text(answer@) ==> report_view(r) == game(
                old(selector).policy(),
                text_bytes(answer@),
                max_turns as nat,
            ),
            r matches Ok(report) ==> report.state == (if report.score is Some {
                GameState::Solved
            } else {
                GameState::Exhausted
            }),
    {
        let secret = match Word::new(answer) {
            Ok(w) => w,
            Err(_) => {
                return Err(EngineError::InvalidAnswer);
            },
        };
        let ghost policy = selector.policy();
        let mut history: Vec<Guess> = Vec::new();
        let mut turn: usize = 0;
        assert(history_view(history@) =~= Seq::<Clue>::empty());
        while turn < max_turns
            invariant
                turn <= max_turns,
                turn == history@.len(),
                selector.ready(),
                selector.policy() == policy,
                policy == old(selector).policy(),
                is_word_text(answer@),
                secret@ == text_bytes(answer@),
                turn == 0 ==> *selector == *old(selector),
                game(policy, secret@, max_turns as nat) == run(
                    policy,
                    secret@,
                    history_view(history@),
                    (max_turns - turn) as nat,
                ),
            decreases max_turns - turn,
        {
            let ghost before = history_view(history@);
            let word = match selector.guess(history.as_slice()) {
                Ok(w) => w,
                Err(e) => {
                    return Err(e);
                },
            };
            let mask = FeedbackCodec::compute_words(&word, &secret);
            history.push(Guess { word, mask });
            turn += 1;
            assert(history_view(history@) =~= before.push(turn_of(word@, secret@)));
            if word.same(&secret) {
                return Ok(GameReport { state: GameState::Solved, score: Some(turn), history });
            }
        }
        Ok(GameReport { state: GameState::Exhausted, score: None, history })
    }
}

} // verus!
