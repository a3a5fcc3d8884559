//! Feedback for a guess: one mark per letter, and its compact base-3 code.

use crate::error::EngineError;
use crate::word::{is_word, is_word_text, text_bytes, Word};
use vstd::prelude::*;
use vstd::string::*;

verus! {

/// The mark given to one letter of a guess.
#[derive(Clone, Copy, Debug, PartialEq, Eq, Hash, Structural)]
pub enum Correctness {
    /// The answer holds this letter at this position.
    Correct,
    /// The answer holds this letter at another position that no other mark has used up.
    Misplaced,
    /// The answer has no occurrence of this letter left.
    Wrong,
}

/// The marks of the five letters of a guess, in order.
pub type Mask = [Correctness; 5];

/// Number of masks, and the exclusive upper bound of their codes: three to the fifth.
pub const MASK_COUNT: u8 = 243;

/// Code of the mask whose marks are all `Correct`.
pub const ALL_CORRECT: u8 = 242;

/// How many of the first `n` positions of the answer hold `c` without being matched
/// exactly by the guess: the occurrences of `c` that a `Misplaced` mark may use up.
pub open spec fn spare_in_answer(guess: Seq<u8>, answer: Seq<u8>, c: u8, n: int) -> nat
    decreases n,
{
    if n <= 0 {
        0
    } else {
        let here: nat = if answer[n - 1] == c && guess[n - 1] != answer[n - 1] {
            1
        } else {
            0
        };
        spare_in_answer(guess, answer, c, n - 1) + here
    }
}

/// How many of the first `n` positions of the guess hold `c` without matching the
/// answer exactly: the occurrences of `c` that ask for a `Misplaced` mark.
pub open spec fn claims_in_guess(guess: Seq<u8>, answer: Seq<u8>, c: u8, n: int) -> nat
    decreases n,
{
    if n <= 0 {
        0
    } else {
        let here: nat = if guess[n - 1] == c && guess[n - 1] != answer[n - 1] {
            1
        } else {
            0
        };
        claims_in_guess(guess, answer, c, n - 1) + here
    }
}

/// The mark of position `i` of the guess.
///
/// An exact match is `Correct`. Otherwise the letter is `Misplaced` as long as
/// the answer still has an unmatched occurrence of it that no earlier position
/// of the guess has claimed, and `Wrong` after that.
pub open spec fn mark_at(guess: Seq<u8>, answer: Seq<u8>, i: int) -> Correctness {
    if guess[i] == answer[i] {
        Correctness::Correct
    } else if claims_in_guess(guess, answer, guess[i], i) < spare_in_answer(
        guess,
        answer,
        guess[i],
        5,
    ) {
        Correctness::Misplaced
    } else {
        Correctness::Wrong
    }
}

/// The mask that comparing `guess` with `answer` produces.
pub open spec fn mask_of(guess: Seq<u8>, answer: Seq<u8>) -> Seq<Correctness> {
    Seq::new(5, |i: int| mark_at(guess, answer, i))
}

/// The base-3 digit of a mark.
pub open spec fn digit_of(m: Correctness) -> int {
    match m {
        Correctness::Wrong => 0,
        Correctness::Misplaced => 1,
        Correctness::Correct => 2,
    }
}

/// The mark of a base-3 digit.
pub open spec fn mark_of(d: int) -> Correctness {
    if d == 0 {
        Correctness::Wrong
    } else if d == 1 {
        Correctness::Misplaced
    } else {
        Correctness::Correct
    }
}

/// The code of a mask: its marks read as base-3 digits, position 0 least significant.
pub open spec fn code_of(m: Seq<Correctness>) -> int {
    digit_of(m[0]) + 3 * digit_of(m[1]) + 9 * digit_of(m[2]) + 27 * digit_of(m[3]) + 81
        * digit_of(m[4])
}

/// The mask of a code below 243: its base-3 digits, read off by dividing by three
/// again and again.
pub open spec fn marks_of(code: int) -> Seq<Correctness> {
    let q1 = code / 3;
    let q2 = q1 / 3;
    let q3 = q2 / 3;
    let q4 = q3 / 3;
    seq![
        mark_of(code % 3),
        mark_of(q1 % 3),
        mark_of(q2 % 3),
        mark_of(q3 % 3),
        mark_of(q4 % 3),
    ]
}

/// The code of the mask that comparing `guess` with `answer` produces.
pub open spec fn feedback_code(guess: Seq<u8>, answer: Seq<u8>) -> int {
    code_of(mask_of(guess, answer))
}

/// How many of the first `n` positions of the guess hold `c` and are marked `Misplaced`.
pub open spec fn misplaced_count(guess: Seq<u8>, answer: Seq<u8>, c: u8, n: int) -> nat
    decreases n,
{
    if n <= 0 {
        0
    } else {
        let here: nat = if guess[n - 1] == c && mark_at(guess, answer, n - 1)
            == Correctness::Misplaced {
            1
        } else {
            0
        };
        misplaced_count(guess, answer, c, n - 1) + here
    }
}

/// Comparing a word with itself marks every letter `Correct`.
pub proof fn lemma_same_word_all_correct(w: Seq<u8>)
    ensures
        forall|i: int| 0 <= i < 5 ==> #[trigger] mask_of(w, w)[i] == Correctness::Correct,
        feedback_code(w, w) == ALL_CORRECT,
{
}

/// A mask is all `Correct` exactly when guess and answer are the same word.
pub proof fn lemma_all_correct_means_same(guess: Seq<u8>, answer: Seq<u8>)
    requires
        guess.len() == 5,
        answer.len() == 5,
    ensures
        feedback_code(guess, answer) == ALL_CORRECT <==> guess == answer,
{
    if guess == answer {
        lemma_same_word_all_correct(guess);
    }
    if feedback_code(guess, answer) == ALL_CORRECT {
        let m = mask_of(guess, answer);
        assert(forall|i: int| 0 <= i < 5 ==> 0 <= digit_of(#[trigger] m[i]) <= 2);
        assert(digit_of(m[0]) == 2 && digit_of(m[1]) == 2 && digit_of(m[2]) == 2 && digit_of(m[3])
            == 2 && digit_of(m[4]) == 2);
        assert forall|i: int| 0 <= i < 5 implies guess[i] == answer[i] by {
            assert(digit_of(m[i]) == 2);
            assert(m[i] == mark_at(guess, answer, i));
        }
        assert(guess =~= answer);
    }
}

/// A digit below three plus a multiple of three can be read apart again.
proof fn lemma_digit_and_rest(d: int, rest: int)
    requires
        0 <= d < 3,
    ensures
        (d + 3 * rest) % 3 == d,
        (d + 3 * rest) / 3 == rest,
{
}

/// Decoding the code of a mask gives the mask back, and every code is below 243.
pub proof fn lemma_decode_encode(m: Seq<Correctness>)
    requires
        m.len() == 5,
    ensures
        0 <= code_of(m) < 243,
        marks_of(code_of(m)) == m,
{
    assert(forall|i: int| 0 <= i < 5 ==> 0 <= digit_of(#[trigger] m[i]) <= 2);
    assert(forall|i: int| 0 <= i < 5 ==> mark_of(digit_of(#[trigger] m[i])) == m[i]);
    let d0 = digit_of(m[0]);
    let d1 = digit_of(m[1]);
    let d2 = digit_of(m[2]);
    let d3 = digit_of(m[3]);
    let d4 = digit_of(m[4]);
    let c = code_of(m);
    let r3 = d4;
    let r2 = d3 + 3 * r3;
    let r1 = d2 + 3 * r2;
    let r0 = d1 + 3 * r1;
    assert(c == d0 + 3 * r0);
    lemma_digit_and_rest(d0, r0);
    lemma_digit_and_rest(d1, r1);
    lemma_digit_and_rest(d2, r2);
    lemma_digit_and_rest(d3, r3);
    lemma_digit_and_rest(d4, 0);
    assert(c / 3 == r0);
    assert(r0 / 3 == r1);
    assert(r1 / 3 == r2);
    assert(r2 / 3 == r3);
    assert(marks_of(c) =~= m);
}

/// Encoding the mask of a code below 243 gives the code back.
pub proof fn lemma_encode_decode(code: int)
    requires
        0 <= code < 243,
    ensures
        marks_of(code).len() == 5,
        code_of(marks_of(code)) == code,
{
    let m = marks_of(code);
    let q1 = code / 3;
    let q2 = q1 / 3;
    let q3 = q2 / 3;
    let q4 = q3 / 3;
    assert(code == 3 * q1 + code % 3);
    assert(q1 == 3 * q2 + q1 % 3);
    assert(q2 == 3 * q3 + q2 % 3);
    assert(q3 == 3 * q4 + q3 % 3);
    assert(0 <= q4 < 3);
    assert(q4 % 3 == q4);
    assert(digit_of(mark_of(code % 3)) == code % 3);
    assert(digit_of(mark_of(q1 % 3)) == q1 % 3);
    assert(digit_of(mark_of(q2 % 3)) == q2 % 3);
    assert(digit_of(mark_of(q3 % 3)) == q3 % 3);
    assert(digit_of(mark_of(q4 % 3)) == q4 % 3);
    assert(m[0] == mark_of(code % 3));
    assert(m[1] == mark_of(q1 % 3));
    assert(m[2] == mark_of(q2 % 3));
    assert(m[3] == mark_of(q3 % 3));
    assert(m[4] == mark_of(q4 % 3));
}

/// Two masks with the same code are the same mask.
pub proof fn lemma_code_injective(m1: Seq<Correctness>, m2: Seq<Correctness>)
    requires
        m1.len() == 5,
        m2.len() == 5,
        code_of(m1) == code_of(m2),
    ensures
        m1 == m2,
{
    lemma_decode_encode(m1);
    lemma_decode_encode(m2);
}

/// For every letter, the guess gets exactly as many `Misplaced` marks as the
/// answer has unmatched occurrences of it, or as the guess asks for if that is
/// fewer: an occurrence in the answer is never counted twice.
pub proof fn lemma_misplaced_capped(guess: Seq<u8>, answer: Seq<u8>, c: u8, n: int)
    requires
        0 <= n <= 5,
    ensures
        misplaced_count(guess, answer, c, n) == if claims_in_guess(guess, answer, c, n)
            < spare_in_answer(guess, answer, c, 5) {
            claims_in_guess(guess, answer, c, n)
        } else {
            spare_in_answer(guess, answer, c, 5)
        },
        misplaced_count(guess, answer, c, n) <= spare_in_answer(guess, answer, c, 5),
    decreases n,
{
    if n > 0 {
        lemma_misplaced_capped(guess, answer, c, n - 1);
    }
}

/// Computes feedback and translates it to and from its code.
pub struct FeedbackCodec;

impl FeedbackCodec {
    /// Compares a guess with an answer, both given as text.
    ///
    /// Fails with `InvalidLength` if either text is not five characters long,
    /// and with `InvalidWord` if both are but one holds a character outside `a`-`z`.
    pub fn compute(guess: &str, answer: &str) -> (r: Result<Mask, EngineError>)
        ensures
            guess@.len() != 5 || answer@.len() != 5 ==> r == Err::<Mask, EngineError>(
                EngineError::InvalidLength,
            ),
            guess@.len() == 5 && answer@.len() == 5 && !(is_word_text(guess@) && is_word_text(
                answer@,
            )) ==> r == Err::<Mask, EngineError>(EngineError::InvalidWord),
            is_word_text(guess@) && is_word_text(answer@) ==> r is Ok && r->Ok_0@ == mask_of(
                text_bytes(guess@),
                text_bytes(answer@),
            ),
    {
        if guess.unicode_len() != 5 || answer.unicode_len() != 5 {
            return Err(EngineError::InvalidLength);
        }
        let g = match Word::new(guess) {
            Ok(w) => w,
            Err(e) => {
                return Err(e);
            },
        };
        let a = match Word::new(answer) {
            Ok(w) => w,
            Err(e) => {
                return Err(e);
            },
        };
        Ok(Self::compute_words(&g, &a))
    }

    /// Compares a guess with an answer.
    ///
    /// Works in two passes over a table of the answer's letters: the first
    /// marks exact matches and takes their letters out of the table, the
    /// second hands the remaining letters to the other positions from left to
    /// right.
    pub fn compute_words(guess: &Word, answer: &Word) -> (m: Mask)
        ensures
            m@ == mask_of(guess@, answer@),
    {
        let g = guess.bytes();
        let a = answer.bytes();
        let mut avail: [u8; 26] = [
            0, 0, 0, 0, 0, 0, 0, 0, 0, 0, 0, 0, 0, 0, 0, 0, 0, 0, 0, 0, 0, 0, 0, 0, 0, 0,
        ];
        let mut marks: Mask = [Correctness::Wrong; 5];
        let mut i: usize = 0;
        while i < 5
            invariant
                i <= 5,
                is_word(g@),
                is_word(a@),
                forall|c: u8|
                    97 <= c <= 122 ==> #[trigger] avail@[c - 97] == letter_count(a@, c, i as int),
            decreases 5 - i,
        {
            let k = (a[i] - 97) as usize;
            proof {
                lemma_letter_count_bound(a@, a@[i as int], i as int);
            }
            avail[k] = avail[k] + 1;
            i += 1;
        }
        i = 0;
        while i < 5
            invariant
                i <= 5,
                is_word(g@),
                is_word(a@),
                forall|c: u8|
                    97 <= c <= 122 ==> #[trigger] avail@[c - 97] == letter_count(a@, c, 5)
                        - exact_count(g@, a@, c, i as int),
                forall|j: int| 0 <= j < i && g@[j] == a@[j] ==> #[trigger] marks@[j] == Correctness::Correct,
            decreases 5 - i,
        {
            if g[i] == a[i] {
                let k = (a[i] - 97) as usize;
                proof {
                    lemma_counts_split(g@, a@, a@[i as int], 5);
                    lemma_counts_split(g@, a@, a@[i as int], i as int);
                    lemma_spare_monotone(g@, a@, a@[i as int], i as int + 1, 5);
                    lemma_counts_split(g@, a@, a@[i as int], i as int + 1);
                }
                marks[i] = Correctness::Correct;
                avail[k] = avail[k] - 1;
            }
            i += 1;
        }
        proof {
            assert forall|c: u8| 97 <= c <= 122 implies #[trigger] avail@[c - 97]
                == spare_in_answer(g@, a@, c, 5) by {
                lemma_counts_split(g@, a@, c, 5);
            }
        }
        i = 0;
        while i < 5
            invariant
                i <= 5,
                is_word(g@),
                is_word(a@),
                forall|c: u8|
                    97 <= c <= 122 ==> #[trigger] avail@[c - 97] == left_over(
                        g@,
                        a@,
                        c,
                        i as int,
                    ),
                forall|j: int| 0 <= j < 5 && g@[j] == a@[j] ==> #[trigger] marks@[j] == Correctness::Correct,
                forall|j: int| 0 <= j < i ==> #[trigger] marks@[j] == mark_at(g@, a@, j),
            decreases 5 - i,
        {
            if g[i] != a[i] {
                let k = (g[i] - 97) as usize;
                if avail[k] > 0 {
                    marks[i] = Correctness::Misplaced;
                    avail[k] = avail[k] - 1;
                } else {
                    marks[i] = Correctness::Wrong;
                }
            }
            i += 1;
        }
        assert(marks@ =~= mask_of(g@, a@));
        marks
    }

    /// The code of a mask, below 243.
    pub fn encode(mask: &Mask) -> (code: u8)
        ensures
            code == code_of(mask@),
            code < 243,
    {
        proof {
            lemma_decode_encode(mask@);
        }
        let mut code: u8 = 0;
        let mut i: usize = 5;
        let ghost m = mask@;
        while i > 0
            invariant
                i <= 5,
                m == mask@,
                m.len() == 5,
                i == 5 ==> code == 0,
                i == 4 ==> code == digit_of(m[4]),
                i == 3 ==> code == digit_of(m[3]) + 3 * digit_of(m[4]),
                i == 2 ==> code == digit_of(m[2]) + 3 * digit_of(m[3]) + 9 * digit_of(m[4]),
                i == 1 ==> code == digit_of(m[1]) + 3 * digit_of(m[2]) + 9 * digit_of(m[3]) + 27
                    * digit_of(m[4]),
                i == 0 ==> code == code_of(m),
            decreases i,
        {
            i -= 1;
            let d: u8 = match mask[i] {
                Correctness::Wrong => 0,
                Correctness::Misplaced => 1,
                Correctness::Correct => 2,
            };
            code = code * 3 + d;
        }
        code
    }

    /// The mask of a code, or `None` for a number that is no code (243 and above).
    pub fn decode(code: u8) -> (r: Option<Mask>)
        ensures
            code >= 243 ==> r is None,
            code < 243 ==> r is Some && r->Some_0@ == marks_of(code as int),
    {
        if code >= 243 {
            return None;
        }
        let mut marks: Mask = [Correctness::Wrong; 5];
        let mut rest: u8 = code;
        let mut i: usize = 0;
        while i < 5
            invariant
                i <= 5,
                code < 243,
                i == 0 ==> rest == code,
                i == 1 ==> rest == code / 3,
                i == 2 ==> rest == code / 3 / 3,
                i == 3 ==> rest == code / 3 / 3 / 3,
                i == 4 ==> rest == code / 3 / 3 / 3 / 3,
                i >= 1 ==> marks@[0] == mark_of(code as int % 3),
                i >= 2 ==> marks@[1] == mark_of((code as int / 3) % 3),
                i >= 3 ==> marks@[2] == mark_of((code as int / 3 / 3) % 3),
                i >= 4 ==> marks@[3] == mark_of((code as int / 3 / 3 / 3) % 3),
                i >= 5 ==> marks@[4] == mark_of((code as int / 3 / 3 / 3 / 3) % 3),
            decreases 5 - i,
        {
            let d = rest % 3;
            marks[i] = if d == 0 {
                Correctness::Wrong
            } else if d == 1 {
                Correctness::Misplaced
            } else {
                Correctness::Correct
            };
            rest = rest / 3;
            i += 1;
        }
        assert(marks@ =~= marks_of(code as int));
        Some(marks)
    }

    /// The code of the mask that comparing `guess` with `answer` produces.
    pub fn code(guess: &Word, answer: &Word) -> (code: u8)
        ensures
            code == feedback_code(guess@, answer@),
            code < 243,
    {
        let m = Self::compute_words(guess, answer);
        Self::encode(&m)
    }
}

/// How many of the first `n` positions of `word` hold `c`.
pub open spec fn letter_count(word: Seq<u8>, c: u8, n: int) -> nat
    decreases n,
{
    if n <= 0 {
        0
    } else {
        let here: nat = if word[n - 1] == c {
            1
        } else {
            0
        };
        letter_count(word, c, n - 1) + here
    }
}

/// How many of the first `n` positions hold `c` in the answer and match the guess exactly.
pub open spec fn exact_count(guess: Seq<u8>, answer: Seq<u8>, c: u8, n: int) -> nat
    decreases n,
{
    if n <= 0 {
        0
    } else {
        let here: nat = if answer[n - 1] == c && guess[n - 1] == answer[n - 1] {
            1
        } else {
            0
        };
        exact_count(guess, answer, c, n - 1) + here
    }
}

/// What is left of the answer's unmatched occurrences of `c` once the first
/// `n` positions of the guess have been marked.
pub open spec fn left_over(guess: Seq<u8>, answer: Seq<u8>, c: u8, n: int) -> int {
    let spare = spare_in_answer(guess, answer, c, 5);
    let claims = claims_in_guess(guess, answer, c, n);
    if claims < spare {
        spare - claims
    } else {
        0
    }
}

proof fn lemma_letter_count_bound(word: Seq<u8>, c: u8, n: int)
    requires
        0 <= n,
    ensures
        letter_count(word, c, n) <= n,
    decreases n,
{
    if n > 0 {
        lemma_letter_count_bound(word, c, n - 1);
    }
}

proof fn lemma_counts_split(guess: Seq<u8>, answer: Seq<u8>, c: u8, n: int)
    requires
        0 <= n,
    ensures
        letter_count(answer, c, n) == exact_count(guess, answer, c, n) + spare_in_answer(
            guess,
            answer,
            c,
            n,
        ),
    decreases n,
{
    if n > 0 {
        lemma_counts_split(guess, answer, c, n - 1);
    }
}

proof fn lemma_spare_monotone(guess: Seq<u8>, answer: Seq<u8>, c: u8, lo: int, hi: int)
    requires
        0 <= lo <= hi,
    ensures
        spare_in_answer(guess, answer, c, lo) <= spare_in_answer(guess, answer, c, hi),
        exact_count(guess, answer, c, lo) <= exact_count(guess, answer, c, hi),
    decreases hi - lo,
{
    if lo < hi {
        lemma_spare_monotone(guess, answer, c, lo, hi - 1);
    }
}

} // verus!
