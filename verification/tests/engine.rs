use wordguess::candidates::CandidateSet;
use wordguess::dictionary::Dictionary;
use wordguess::error::EngineError;
use wordguess::feedback::{Correctness, FeedbackCodec, Mask, ALL_CORRECT, MASK_COUNT};
use wordguess::game::{GameDriver, GameReport, GameState, DEFAULT_MAX_TURNS};
use wordguess::history::Guess;
use wordguess::natural::{Comparison, Natural};
use wordguess::ranking::{crowding_of, tally_into, Direct, MaskCache, MaskSource};
use wordguess::selector::{Allocs, Guesser, Naive, OnceInit, Prune, Vecrem};
use wordguess::word::Word;

use wordguess::feedback::Correctness::{Correct as C, Misplaced as M, Wrong as W};

fn word(s: &str) -> Word {
    Word::new(s).unwrap()
}

fn small_dictionary() -> Dictionary {
    Dictionary::load(&["abide", "sheep", "could"], &["abide", "sheep", "could"]).unwrap()
}

const WORDS: [&str; 40] = [
    "abide", "sheep", "could", "crane", "slate", "trace", "crate", "react", "caret", "cater",
    "stare", "tears", "rates", "aster", "least", "steal", "stale", "tales", "batch", "catch",
    "hatch", "latch", "match", "patch", "watch", "witch", "pitch", "ditch", "hitch", "bitch",
    "eerie", "geese", "tepee", "melee", "emcee", "llama", "mamma", "poppy", "puppy", "fuzzy",
];

fn larger_dictionary() -> Dictionary {
    let mut guesses: Vec<&str> = WORDS.to_vec();
    guesses.extend(["bccll", "qqqqq", "aeiou", "rstln"]);
    Dictionary::load(&guesses, &WORDS).unwrap()
}

// ---- feedback ----

#[test]
fn a_word_compared_with_itself_is_all_correct() {
    for w in WORDS {
        assert_eq!(FeedbackCodec::compute(w, w), Ok([C; 5]));
        assert_eq!(FeedbackCodec::code(&word(w), &word(w)), ALL_CORRECT);
    }
}

#[test]
fn every_code_round_trips() {
    for code in 0..MASK_COUNT {
        let mask = FeedbackCodec::decode(code).unwrap();
        assert_eq!(FeedbackCodec::encode(&mask), code);
    }
    let marks = [W, M, C];
    for a in marks {
        for b in marks {
            for c in marks {
                for d in marks {
                    for e in marks {
                        let mask: Mask = [a, b, c, d, e];
                        let code = FeedbackCodec::encode(&mask);
                        assert!(code < 243);
                        assert_eq!(FeedbackCodec::decode(code), Some(mask));
                    }
                }
            }
        }
    }
}

#[test]
fn numbers_that_are_no_code_decode_to_nothing() {
    assert_eq!(FeedbackCodec::decode(243), None);
    assert_eq!(FeedbackCodec::decode(255), None);
    assert!(FeedbackCodec::decode(242).is_some());
}

#[test]
fn codes_are_base_three_with_the_first_letter_least_significant() {
    assert_eq!(FeedbackCodec::encode(&[W; 5]), 0);
    assert_eq!(FeedbackCodec::encode(&[C; 5]), 242);
    assert_eq!(FeedbackCodec::encode(&[M, W, W, W, W]), 1);
    assert_eq!(FeedbackCodec::encode(&[C, W, W, W, W]), 2);
    assert_eq!(FeedbackCodec::encode(&[W, M, W, W, W]), 3);
    assert_eq!(FeedbackCodec::encode(&[W, W, W, W, C]), 162);
    assert_eq!(FeedbackCodec::encode(&[C, M, W, C, M]), 2 + 3 + 54 + 81);
    assert_eq!(FeedbackCodec::decode(140), Some([C, M, W, C, M]));
    assert_eq!(ALL_CORRECT, 242);
    assert_eq!(MASK_COUNT, 243);
}

#[test]
fn repeated_letter_is_marked_once() {
    // The answer has one `e`; of the two in the guess only the first is misplaced.
    assert_eq!(FeedbackCodec::compute("sheep", "abide"), Ok([W, W, M, W, W]));
    let mask = FeedbackCodec::compute("sheep", "abide").unwrap();
    assert_eq!(mask.iter().filter(|m| **m == Correctness::Misplaced).count(), 1);
}

#[test]
fn repeated_letters_in_other_arrangements() {
    assert_eq!(FeedbackCodec::compute("abide", "sheep"), Ok([W, W, W, W, M]));
    assert_eq!(FeedbackCodec::compute("eerie", "sheep"), Ok([M, M, W, W, W]));
    assert_eq!(FeedbackCodec::compute("geese", "sheep"), Ok([W, M, C, M, W]));
    assert_eq!(FeedbackCodec::compute("sheep", "geese"), Ok([M, W, C, M, W]));
    // An exact match uses the letter up before an earlier position can claim it.
    assert_eq!(FeedbackCodec::compute("llama", "hello"), Ok([M, M, W, W, W]));
    assert_eq!(FeedbackCodec::compute("lolly", "hello"), Ok([W, M, C, C, W]));
    assert_eq!(FeedbackCodec::compute("allay", "hello"), Ok([W, M, C, W, W]));
    assert_eq!(FeedbackCodec::compute("catch", "batch"), Ok([W, C, C, C, C]));
    assert_eq!(FeedbackCodec::compute("bccll", "catch"), Ok([W, M, M, W, W]));
    assert_eq!(FeedbackCodec::compute("bccll", "latch"), Ok([W, M, W, M, W]));
    assert_eq!(FeedbackCodec::compute("could", "abide"), Ok([W, W, W, W, M]));
    assert_eq!(FeedbackCodec::compute("qqqqq", "abide"), Ok([W; 5]));
}

#[test]
fn compute_on_words_agrees_with_compute_on_text() {
    for g in WORDS {
        for a in WORDS {
            let mask = FeedbackCodec::compute(g, a).unwrap();
            assert_eq!(FeedbackCodec::compute_words(&word(g), &word(a)), mask);
            assert_eq!(FeedbackCodec::code(&word(g), &word(a)), FeedbackCodec::encode(&mask));
            assert_eq!(mask == [C; 5], g == a);
        }
    }
}

#[test]
fn compute_rejects_texts_of_the_wrong_length() {
    assert_eq!(FeedbackCodec::compute("abc", "abide"), Err(EngineError::InvalidLength));
    assert_eq!(FeedbackCodec::compute("abide", "abides"), Err(EngineError::InvalidLength));
    assert_eq!(FeedbackCodec::compute("", ""), Err(EngineError::InvalidLength));
    // The length decides before the letters do.
    assert_eq!(FeedbackCodec::compute("ABIDE", "abc"), Err(EngineError::InvalidLength));
}

#[test]
fn compute_rejects_texts_with_other_characters() {
    assert_eq!(FeedbackCodec::compute("ABIDE", "abide"), Err(EngineError::InvalidWord));
    assert_eq!(FeedbackCodec::compute("abide", "ab1de"), Err(EngineError::InvalidWord));
    assert_eq!(FeedbackCodec::compute("abide", "ab de"), Err(EngineError::InvalidWord));
    // Five characters, though more than five bytes.
    assert_eq!(FeedbackCodec::compute("héllo", "abide"), Err(EngineError::InvalidWord));
}

#[test]
fn words_are_five_lowercase_letters() {
    assert!(Word::new("abide").is_ok());
    assert!(Word::new("zzzzz").is_ok());
    assert_eq!(Word::new("abid"), Err(EngineError::InvalidLength));
    assert_eq!(Word::new("smørbrød"), Err(EngineError::InvalidLength));
    assert_eq!(Word::new("abid{"), Err(EngineError::InvalidWord));
    assert_eq!(Word::new("abid`"), Err(EngineError::InvalidWord));
    assert_eq!(Word::new("Abide"), Err(EngineError::InvalidWord));
    let w = word("could");
    assert_eq!(w.bytes(), *b"could");
    assert_eq!(w.letter(0), b'c');
    assert_eq!(w.letter(4), b'd');
    assert!(w.same(&word("could")));
    assert!(!w.same(&word("could".replace('d', "t").as_str())));
    assert_eq!(w, word("could"));
}

// ---- dictionary ----

fn texts(words: &[Word]) -> Vec<String> {
    words.iter().map(|w| String::from_utf8(w.bytes().to_vec()).unwrap()).collect()
}

#[test]
fn loading_drops_repeats_and_keeps_the_first_place() {
    let d = Dictionary::load(
        &["sheep", "abide", "sheep", "could", "abide"],
        &["could", "could", "abide"],
    )
    .unwrap();
    assert_eq!(texts(d.guesses()), vec!["sheep", "abide", "could"]);
    assert_eq!(texts(d.answers()), vec!["could", "abide"]);
}

#[test]
fn answers_that_are_not_listed_as_guesses_follow_them() {
    let d = Dictionary::load(&["sheep", "abide"], &["could", "abide", "crane"]).unwrap();
    assert_eq!(texts(d.guesses()), vec!["sheep", "abide", "could", "crane"]);
    assert_eq!(texts(d.answers()), vec!["could", "abide", "crane"]);
    let d = Dictionary::load(&[], &[]).unwrap();
    assert!(d.guesses().is_empty());
    assert!(d.answers().is_empty());
}

#[test]
fn loading_fails_on_any_token_that_is_no_word() {
    assert_eq!(
        Dictionary::load(&["sheep", "abid"], &["sheep"]).err(),
        Some(EngineError::InvalidWord)
    );
    assert_eq!(
        Dictionary::load(&["sheep"], &["sheep", "Sheep"]).err(),
        Some(EngineError::InvalidWord)
    );
    assert_eq!(
        Dictionary::load(&["sheep", ""], &[]).err(),
        Some(EngineError::InvalidWord)
    );
    assert_eq!(
        Dictionary::load(&["sheeps"], &["abide"]).err(),
        Some(EngineError::InvalidWord)
    );
}

// ---- candidates ----

#[test]
fn narrowing_keeps_exactly_the_agreeing_words() {
    let d = larger_dictionary();
    let mut set = CandidateSet::new(&d);
    assert_eq!(set.len(), 40);
    let guess = word("batch");
    let observed = FeedbackCodec::compute("batch", "latch").unwrap();
    assert_eq!(set.narrow(&guess, &observed), Ok(()));
    assert_eq!(texts(set.iter()), vec!["catch", "hatch", "latch", "match", "patch", "watch"]);
    let guess = word("bccll");
    let observed = FeedbackCodec::compute("bccll", "latch").unwrap();
    assert_eq!(set.narrow(&guess, &observed), Ok(()));
    assert_eq!(texts(set.iter()), vec!["latch"]);
    assert!(set.is_singleton());
    assert!(set.contains_unique_answer());
    assert_eq!(set.get(0), Some(word("latch")));
    assert_eq!(set.get(1), None);
    set.reset(&d);
    assert_eq!(set.len(), 40);
    assert!(!set.is_singleton());
    assert!(!set.is_empty());
}

#[test]
fn the_answer_survives_every_narrowing() {
    let d = larger_dictionary();
    for answer in WORDS {
        let mut set = CandidateSet::new(&d);
        let mut before = set.len();
        for guess in ["crane", "aeiou", "bccll", "puppy", "stale", answer] {
            let observed = FeedbackCodec::compute(guess, answer).unwrap();
            assert_eq!(set.narrow(&word(guess), &observed), Ok(()));
            assert!(set.iter().contains(&word(answer)));
            assert!(set.len() <= before);
            before = set.len();
        }
        assert_eq!(texts(set.iter()), vec![answer]);
    }
}

#[test]
fn narrowing_shrinks_exactly_when_a_candidate_disagrees() {
    let d = small_dictionary();
    let mut set = CandidateSet::new(&d);
    // No word of the set has a `q`: all agree with all-Wrong, and nothing is removed.
    assert_eq!(set.narrow(&word("qqqqq"), &[W; 5]), Ok(()));
    assert_eq!(set.len(), 3);
    // "sheep" against "abide": only "abide" agrees.
    assert_eq!(set.narrow(&word("sheep"), &[W, W, M, W, W]), Ok(()));
    assert_eq!(texts(set.iter()), vec!["abide"]);
    assert_eq!(set.narrow(&word("sheep"), &[W, W, M, W, W]), Ok(()));
    assert_eq!(set.len(), 1);
}

#[test]
fn narrowing_to_nothing_fails_and_leaves_the_set_alone() {
    let d = small_dictionary();
    let mut set = CandidateSet::new(&d);
    assert_eq!(set.narrow(&word("abide"), &[M; 5]), Err(EngineError::NoCandidates));
    assert_eq!(texts(set.iter()), vec!["abide", "sheep", "could"]);
    let empty = Dictionary::load(&["abide"], &[]).unwrap();
    let mut set = CandidateSet::new(&empty);
    assert!(set.is_empty());
    assert_eq!(set.narrow(&word("abide"), &[C; 5]), Err(EngineError::NoCandidates));
    assert_eq!(set.len(), 0);
}

// ---- ranking ----

#[test]
fn naturals_multiply_and_compare() {
    let one = Natural::one();
    assert_eq!(one.compare(&Natural::one()), Comparison::Equal);
    let six = Natural::one().times(2).times(3);
    let eight = Natural::one().times(2).times(2).times(2);
    assert_eq!(six.compare(&eight), Comparison::Less);
    assert_eq!(eight.compare(&six), Comparison::Greater);
    assert_eq!(Natural::one().times(6).compare(&six), Comparison::Equal);
    // Across the boundary of a machine word.
    let big = Natural::one().times(u64::MAX).times(u64::MAX);
    let bigger = Natural::one().times(u64::MAX).times(u64::MAX).times(2);
    let same = Natural::one().times(u64::MAX).times(2).times(u64::MAX);
    assert_eq!(big.compare(&bigger), Comparison::Less);
    assert_eq!(bigger.compare(&same), Comparison::Equal);
    assert_eq!(bigger.compare(&Natural::one().times(u64::MAX)), Comparison::Greater);
    let p = Natural::one().times(1 << 32).times(1 << 32);
    let q = Natural::one().times(u64::MAX).times(1);
    assert_eq!(p.compare(&q), Comparison::Greater);
    assert_eq!(p.compare(&Natural::one().times(u64::MAX).times(2)), Comparison::Less);
    let zero = Natural::one().times(0);
    assert_eq!(zero.compare(&Natural::one()), Comparison::Less);
    assert_eq!(zero.compare(&Natural::one().times(5).times(0)), Comparison::Equal);
}

#[test]
fn tally_counts_the_candidates_of_each_mask() {
    let candidates = [word("batch"), word("catch"), word("hatch"), word("latch")];
    let mut counts = Vec::new();
    tally_into(&mut Direct, &word("batch"), &candidates, &mut counts);
    assert_eq!(counts.len(), 243);
    assert_eq!(counts[242], 1);
    assert_eq!(counts[FeedbackCodec::encode(&[W, C, C, C, C]) as usize], 3);
    assert_eq!(counts.iter().sum::<usize>(), 4);
    // Three to the third, times one to the first.
    let twenty_seven = Natural::one().times(27);
    assert_eq!(crowding_of(&counts).compare(&twenty_seven), Comparison::Equal);
    tally_into(&mut Direct, &word("bccll"), &candidates, &mut counts);
    assert_eq!(counts.iter().filter(|c| **c == 1).count(), 4);
    assert_eq!(crowding_of(&counts).compare(&Natural::one()), Comparison::Equal);
    // Two buckets of two: two squared, twice.
    let pairs = [word("batch"), word("catch"), word("witch"), word("pitch")];
    tally_into(&mut Direct, &word("aaaah"), &pairs, &mut counts);
    assert_eq!(crowding_of(&counts).compare(&Natural::one().times(16)), Comparison::Equal);
}

#[test]
fn the_cache_remembers_what_it_computed() {
    let mut cache = MaskCache::new();
    assert_eq!(cache.len(), 0);
    for g in WORDS {
        for a in WORDS {
            assert_eq!(cache.code(&word(g), &word(a)), Direct.code(&word(g), &word(a)));
        }
    }
    assert_eq!(cache.len(), 1600);
    for g in WORDS {
        for a in WORDS {
            assert_eq!(cache.code(&word(g), &word(a)), FeedbackCodec::code(&word(g), &word(a)));
        }
    }
    assert_eq!(cache.len(), 1600);
    assert_eq!(cache.code(&word("sheep"), &word("abide")), 9);
    assert_eq!(cache.code(&word("abide"), &word("sheep")), 81);
}

// ---- selection ----

fn entry(guess: &str, answer: &str) -> Guess {
    Guess { word: word(guess), mask: FeedbackCodec::compute(guess, answer).unwrap() }
}

#[test]
fn a_single_candidate_is_the_next_guess() {
    let d = larger_dictionary();
    let history = vec![entry("batch", "latch"), entry("bccll", "latch")];
    assert_eq!(Naive::new(&d).guess(&history), Ok(word("latch")));
    assert_eq!(Allocs::new(&d).guess(&history), Ok(word("latch")));
    assert_eq!(Vecrem::new(&d).guess(&history), Ok(word("latch")));
    assert_eq!(OnceInit::new(&d, MaskCache::new()).guess(&history), Ok(word("latch")));
    assert_eq!(Prune::new(&d, MaskCache::new(), 6).guess(&history), Ok(word("latch")));
    // No mask had to be looked up for it.
    let mut once = OnceInit::new(&d, MaskCache::new());
    assert_eq!(once.guess(&history), Ok(word("latch")));
    assert_eq!(once.into_cache().len(), 0);
    let single = Dictionary::load(&["crane", "slate"], &["slate"]).unwrap();
    assert_eq!(Naive::new(&single).guess(&[]), Ok(word("slate")));
}

#[test]
fn a_history_that_rules_everything_out_is_an_error() {
    let d = small_dictionary();
    let history = vec![
        Guess { word: word("abide"), mask: [W; 5] },
        Guess { word: word("abide"), mask: [C; 5] },
    ];
    assert_eq!(Naive::new(&d).guess(&history), Err(EngineError::NoCandidates));
    assert_eq!(Allocs::new(&d).guess(&history), Err(EngineError::NoCandidates));
    assert_eq!(Vecrem::new(&d).guess(&history), Err(EngineError::NoCandidates));
    assert_eq!(
        OnceInit::new(&d, MaskCache::new()).guess(&history),
        Err(EngineError::NoCandidates)
    );
    assert_eq!(
        Prune::new(&d, MaskCache::new(), 6).guess(&history),
        Err(EngineError::NoCandidates)
    );
    let empty = Dictionary::load(&["abide"], &[]).unwrap();
    assert_eq!(Naive::new(&empty).guess(&[]), Err(EngineError::NoCandidates));
    // The error is the same when asked again, and a sound history still works afterwards.
    let mut v = Vecrem::new(&d);
    assert_eq!(v.guess(&history), Err(EngineError::NoCandidates));
    assert_eq!(v.guess(&history), Err(EngineError::NoCandidates));
    assert_eq!(v.guess(&[entry("sheep", "abide")]), Ok(word("abide")));
}

#[test]
fn the_guess_of_least_crowding_wins() {
    let d = Dictionary::load(
        &["batch", "catch", "hatch", "latch", "bccll"],
        &["batch", "catch", "hatch", "latch"],
    )
    .unwrap();
    // "bccll" tells all four answers apart; each answer only itself from the rest.
    assert_eq!(Naive::new(&d).guess(&[]), Ok(word("bccll")));
    assert_eq!(Allocs::new(&d).guess(&[]), Ok(word("bccll")));
    assert_eq!(Vecrem::new(&d).guess(&[]), Ok(word("bccll")));
    assert_eq!(OnceInit::new(&d, MaskCache::new()).guess(&[]), Ok(word("bccll")));
}

#[test]
fn ties_go_to_candidates_and_then_to_the_earlier_word() {
    // Every word splits the three answers three ways; the first listed wins.
    let d = small_dictionary();
    assert_eq!(Naive::new(&d).guess(&[]), Ok(word("abide")));
    let d = Dictionary::load(&["could", "sheep", "abide"], &["abide", "sheep", "could"]).unwrap();
    assert_eq!(Naive::new(&d).guess(&[]), Ok(word("could")));
    // "bccll" and "xccll" split the answers as well as each other, and as
    // well as no candidate does; neither is a candidate, so the earlier wins.
    let d = Dictionary::load(
        &["batch", "xcchh", "bccll", "latch"],
        &["batch", "catch", "hatch", "latch"],
    )
    .unwrap();
    assert_eq!(Naive::new(&d).guess(&[]), Ok(word("bccll")));
    // Two answers: each of them, and "qbxxx", splits them one and one. A
    // candidate is preferred though "qbxxx" comes first.
    let d = Dictionary::load(&["qbxxx", "catch", "batch"], &["batch", "catch"]).unwrap();
    assert_eq!(Naive::new(&d).guess(&[]), Ok(word("catch")));
    assert_eq!(Vecrem::new(&d).guess(&[]), Ok(word("catch")));
}

#[test]
fn prune_looks_only_at_candidates_on_the_last_turn() {
    let d = Dictionary::load(
        &["batch", "catch", "hatch", "latch", "bccll"],
        &["batch", "catch", "hatch", "latch"],
    )
    .unwrap();
    assert_eq!(Prune::new(&d, MaskCache::new(), 6).guess(&[]), Ok(word("bccll")));
    assert_eq!(Prune::new(&d, MaskCache::new(), 2).guess(&[]), Ok(word("bccll")));
    assert_eq!(Prune::new(&d, MaskCache::new(), 1).guess(&[]), Ok(word("batch")));
    assert_eq!(Prune::new(&d, MaskCache::new(), 0).guess(&[]), Ok(word("batch")));
    // One turn played, two allowed: the second is the last.
    let history = vec![entry("qqqqq", "latch")];
    assert_eq!(Naive::new(&d).guess(&history), Ok(word("bccll")));
    assert_eq!(Prune::new(&d, MaskCache::new(), 3).guess(&history), Ok(word("bccll")));
    assert_eq!(Prune::new(&d, MaskCache::new(), 2).guess(&history), Ok(word("batch")));
}

fn play_all(d: &Dictionary, answer: &str, max_turns: usize) -> Vec<Result<GameReport, EngineError>> {
    vec![
        GameDriver::play(answer, &mut Naive::new(d), max_turns),
        GameDriver::play(answer, &mut Allocs::new(d), max_turns),
        GameDriver::play(answer, &mut Vecrem::new(d), max_turns),
        GameDriver::play(answer, &mut OnceInit::new(d, MaskCache::new()), max_turns),
    ]
}

#[test]
fn the_strategies_play_the_same_games() {
    let d = larger_dictionary();
    for answer in WORDS {
        let games = play_all(&d, answer, DEFAULT_MAX_TURNS);
        let first = games[0].clone().unwrap();
        assert_eq!(first.state, GameState::Solved);
        assert_eq!(first.score, Some(first.history.len()));
        assert_eq!(first.history.last().unwrap().word, word(answer));
        assert_eq!(first.history.last().unwrap().mask, [C; 5]);
        for entry in &first.history {
            let text = String::from_utf8(entry.word.bytes().to_vec()).unwrap();
            assert_eq!(FeedbackCodec::compute(&text, answer), Ok(entry.mask));
        }
        for game in &games[1..] {
            assert_eq!(game.as_ref(), Ok(&first));
        }
        // With turns to spare, the budget changes nothing until the last turn.
        let mut prune = Prune::new(&d, MaskCache::new(), first.history.len() + 1);
        assert_eq!(
            GameDriver::play(answer, &mut prune, first.history.len() + 1).as_ref(),
            Ok(&first)
        );
    }
}

#[test]
fn strategies_agree_turn_by_turn_and_when_reused() {
    let d = larger_dictionary();
    let mut naive = Naive::new(&d);
    let mut allocs = Allocs::new(&d);
    let mut vecrem = Vecrem::new(&d);
    let mut once = OnceInit::new(&d, MaskCache::new());
    // The same selectors serve several games in a row, and histories that do
    // not continue the one before.
    for answer in ["witch", "llama", "tales", "witch"] {
        let mut history: Vec<Guess> = Vec::new();
        loop {
            let g = naive.guess(&history).unwrap();
            assert_eq!(allocs.guess(&history), Ok(g));
            assert_eq!(vecrem.guess(&history), Ok(g));
            assert_eq!(once.guess(&history), Ok(g));
            if history.len() >= 1 {
                let shorter = &history[..history.len() - 1];
                assert_eq!(vecrem.guess(shorter), naive.guess(shorter));
                assert_eq!(vecrem.guess(&history), Ok(g));
            }
            let mask = FeedbackCodec::compute_words(&g, &word(answer));
            history.push(Guess { word: g, mask });
            if g == word(answer) {
                break;
            }
            assert!(history.len() < 10);
        }
    }
    assert!(once.into_cache().len() > 0);
}

#[test]
fn a_cache_can_be_passed_from_game_to_game() {
    let d = larger_dictionary();
    let mut once = OnceInit::new(&d, MaskCache::new());
    let first = GameDriver::play("pitch", &mut once, 32).unwrap();
    let cache = once.into_cache();
    let filled = cache.len();
    assert!(filled > 0);
    let mut again = Prune::new(&d, cache, 32);
    assert_eq!(GameDriver::play("pitch", &mut again, 32), Ok(first));
    assert_eq!(again.into_cache().len(), filled);
}

#[test]
fn a_strategy_hands_back_the_table_it_was_given() {
    let d = larger_dictionary();
    let mut cache = MaskCache::new();
    assert_eq!(cache.code(&word("sheep"), &word("abide")), 9);
    assert_eq!(cache.code(&word("abide"), &word("sheep")), 81);
    // Without a guess the table comes back as it went in.
    let cache = OnceInit::new(&d, cache).into_cache();
    assert_eq!(cache.len(), 2);
    let cache = Prune::new(&d, cache, 6).into_cache();
    assert_eq!(cache.len(), 2);
    // A guess adds to it and takes nothing away.
    let mut once = OnceInit::new(&d, cache);
    assert!(once.guess(&[]).is_ok());
    let mut cache = once.into_cache();
    let filled = cache.len();
    assert!(filled > 2);
    assert_eq!(cache.code(&word("sheep"), &word("abide")), 9);
    assert_eq!(cache.len(), filled);
    let mut prune = Prune::new(&d, cache, 6);
    assert!(prune.guess(&[entry("crane", "witch")]).is_ok());
    assert!(prune.into_cache().len() >= filled);
}

// ---- games ----

#[test]
fn three_word_game_is_solved_by_every_strategy() {
    let d = small_dictionary();
    for game in play_all(&d, "abide", 32) {
        let report = game.unwrap();
        assert_eq!(report.state, GameState::Solved);
        assert!(report.score.unwrap() <= 3);
        assert_eq!(report.score, Some(1));
        assert_eq!(report.history.len(), 1);
        assert_eq!(report.history.last().unwrap().word, word("abide"));
        assert_eq!(report.history.last().unwrap().mask, [C; 5]);
    }
    for answer in ["sheep", "could"] {
        for game in play_all(&d, answer, 32) {
            let report = game.unwrap();
            assert_eq!(report.state, GameState::Solved);
            assert_eq!(report.score, Some(2));
            assert_eq!(report.history[0].word, word("abide"));
            assert_eq!(report.history[1], Guess { word: word(answer), mask: [C; 5] });
        }
    }
}

#[test]
fn a_game_without_turns_ends_at_once() {
    let d = larger_dictionary();
    for game in play_all(&d, "abide", 0) {
        assert_eq!(
            game,
            Ok(GameReport { state: GameState::Exhausted, score: None, history: vec![] })
        );
    }
    // The selector was not asked: its table of masks is still empty.
    let mut once = OnceInit::new(&d, MaskCache::new());
    assert!(GameDriver::play("abide", &mut once, 0).is_ok());
    assert_eq!(once.into_cache().len(), 0);
    let mut once = OnceInit::new(&d, MaskCache::new());
    assert!(GameDriver::play("abide", &mut once, 1).is_ok());
    assert!(once.into_cache().len() > 0);
}

#[test]
fn a_game_that_runs_out_of_turns_has_no_score() {
    let d = Dictionary::load(
        &["batch", "catch", "hatch", "latch", "bccll"],
        &["batch", "catch", "hatch", "latch"],
    )
    .unwrap();
    let report = GameDriver::play("latch", &mut Naive::new(&d), 1).unwrap();
    assert_eq!(report.state, GameState::Exhausted);
    assert_eq!(report.score, None);
    assert_eq!(report.history, vec![entry("bccll", "latch")]);
    let report = GameDriver::play("latch", &mut Naive::new(&d), 2).unwrap();
    assert_eq!(report.state, GameState::Solved);
    assert_eq!(report.score, Some(2));
    assert_eq!(report.history, vec![entry("bccll", "latch"), entry("latch", "latch")]);
    // With a single turn, `Prune` tries a word that could win, and does for "batch".
    let report = GameDriver::play("batch", &mut Prune::new(&d, MaskCache::new(), 1), 1).unwrap();
    assert_eq!(report.score, Some(1));
    let report = GameDriver::play("batch", &mut Naive::new(&d), 1).unwrap();
    assert_eq!(report.score, None);
    let report = GameDriver::play("latch", &mut Prune::new(&d, MaskCache::new(), 1), 1).unwrap();
    assert_eq!(report.score, None);
    assert_eq!(report.history, vec![entry("batch", "latch")]);
}

#[test]
fn a_secret_that_is_no_word_is_refused() {
    let d = small_dictionary();
    for secret in ["abid", "abides", "ABIDE", "ab-de", ""] {
        for game in play_all(&d, secret, 32) {
            assert_eq!(game, Err(EngineError::InvalidAnswer));
        }
        assert_eq!(
            GameDriver::play(secret, &mut Naive::new(&d), 0),
            Err(EngineError::InvalidAnswer)
        );
    }
}

#[test]
fn a_secret_outside_the_dictionary_surfaces_no_candidates() {
    let d = small_dictionary();
    for game in play_all(&d, "zzzzz", 32) {
        assert_eq!(game, Err(EngineError::NoCandidates));
    }
}
