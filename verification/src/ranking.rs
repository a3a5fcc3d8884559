//! Ranking of guesses by the information they are expected to yield.
//!
//! A guess splits the candidates into buckets, one per mask that it could
//! receive. With every candidate equally likely, the Shannon entropy of that
//! split is `log2 n - (1/n) * log2 P`, where `n` is the number of candidates
//! and `P` the product of `c` to the power `c` over the bucket sizes `c`. So
//! the guess of highest entropy is the guess of smallest `P`. `P` is a whole
//! number, and the ranking here is decided on it exactly.

use crate::dictionary::{contains_word, words_view};
use crate::feedback::{feedback_code, lemma_decode_encode, mask_of, FeedbackCodec};
use crate::natural::{Comparison, Natural};
use crate::word::{is_word, Word};
use std::collections::HashMap;
use vstd::prelude::*;
use vstd::std_specs::hash::*;

verus! {

/// `base` raised to the power `exp`; zero to the power zero is one.
pub open spec fn power(base: nat, exp: nat) -> nat
    decreases exp,
{
    if exp == 0 {
        1
    } else {
        base * power(base, (exp - 1) as nat)
    }
}

/// How many of the candidates would answer `guess` with the mask of code `code`.
pub open spec fn bucket_size(guess: Seq<u8>, candidates: Seq<Seq<u8>>, code: int) -> nat {
    candidates.filter(|w: Seq<u8>| feedback_code(guess, w) == code).len()
}

/// The product, over the first `n` sizes, of each size raised to its own power.
pub open spec fn clump(sizes: Seq<usize>, n: int) -> nat
    decreases n,
{
    if n <= 0 {
        1
    } else {
        clump(sizes, n - 1) * power(sizes[n - 1] as nat, sizes[n - 1] as nat)
    }
}

/// The sizes of the 243 buckets into which `guess` splits the candidates.
pub open spec fn bucket_sizes(guess: Seq<u8>, candidates: Seq<Seq<u8>>) -> Seq<usize> {
    Seq::new(243, |m: int| bucket_size(guess, candidates, m) as usize)
}

/// How crowded the buckets of `guess` are: the product of each bucket's size
/// raised to its own power. The smaller this is, the higher the entropy of the
/// guess.
pub open spec fn crowding(guess: Seq<u8>, candidates: Seq<Seq<u8>>) -> nat {
    clump(bucket_sizes(guess, candidates), 243)
}

/// Whether the guess at place `i` of the universe ranks before the one at place `j`.
///
/// Less crowding (more entropy) comes first; of two equally crowded guesses
/// one that is itself a candidate comes first; after that, the earlier place.
pub open spec fn ranks_before(
    universe: Seq<Seq<u8>>,
    candidates: Seq<Seq<u8>>,
    i: int,
    j: int,
) -> bool {
    let ci = crowding(universe[i], candidates);
    let cj = crowding(universe[j], candidates);
    let vi = candidates.contains(universe[i]);
    let vj = candidates.contains(universe[j]);
    ci < cj || (ci == cj && ((vi && !vj) || (vi == vj && i < j)))
}

/// Whether the guess at place `i` ranks before every other guess of the universe.
pub open spec fn is_best(universe: Seq<Seq<u8>>, candidates: Seq<Seq<u8>>, i: int) -> bool {
    &&& 0 <= i < universe.len()
    &&& forall|j: int|
        0 <= j < universe.len() && j != i ==> #[trigger] ranks_before(universe, candidates, i, j)
}

/// The place of the best guess of a universe.
pub open spec fn best_index(universe: Seq<Seq<u8>>, candidates: Seq<Seq<u8>>) -> int {
    choose|i: int| is_best(universe, candidates, i)
}

/// At most one guess is best.
pub proof fn lemma_best_unique(
    universe: Seq<Seq<u8>>,
    candidates: Seq<Seq<u8>>,
    i: int,
    j: int,
)
    requires
        is_best(universe, candidates, i),
        is_best(universe, candidates, j),
    ensures
        i == j,
{
    if i != j {
        assert(ranks_before(universe, candidates, i, j));
        assert(ranks_before(universe, candidates, j, i));
    }
}

/// A source of feedback codes: computes them, or remembers them.
pub trait MaskSource {
    /// Whether the source can be relied on.
    spec fn valid(&self) -> bool;

    /// Whether this source holds all that `earlier` held. A source only ever
    /// learns: being asked never makes it forget.
    spec fn extends(&self, earlier: &Self) -> bool;

    /// A source holds all that it holds.
    proof fn lemma_extends_itself(&self)
        ensures
            self.extends(self),
    ;

    /// What a source held two steps ago, it holds still.
    proof fn lemma_extends_chain(&self, middle: &Self, first: &Self)
        requires
            self.extends(middle),
            middle.extends(first),
        ensures
            self.extends(first),
    ;

    /// The code of the mask that comparing `guess` with `answer` produces.
    fn code(&mut self, guess: &Word, answer: &Word) -> (c: u8)
        requires
            old(self).valid(),
        ensures
            final(self).valid(),
            final(self).extends(old(self)),
            c == feedback_code(guess@, answer@),
            c < 243,
    ;
}

/// Computes every code afresh.
pub struct Direct;

impl MaskSource for Direct {
    open spec fn valid(&self) -> bool {
        true
    }

    open spec fn extends(&self, earlier: &Self) -> bool {
        true
    }

    proof fn lemma_extends_itself(&self) {
    }

    proof fn lemma_extends_chain(&self, middle: &Self, first: &Self) {
    }

    fn code(&mut self, guess: &Word, answer: &Word) -> (c: u8) {
        FeedbackCodec::code(guess, answer)
    }
}

/// The number that identifies a word: its letters as base-32 digits.
pub open spec fn word_key(w: Seq<u8>) -> int {
    (w[0] - 97) + 32 * (w[1] - 97) + 1024 * (w[2] - 97) + 32768 * (w[3] - 97) + 1048576 * (w[4]
        - 97)
}

/// The number that identifies a pair of words.
pub open spec fn pair_key(guess: Seq<u8>, answer: Seq<u8>) -> int {
    word_key(guess) * 33554432 + word_key(answer)
}

/// A number below 32 plus a multiple of 32 can be read apart again.
proof fn lemma_digit_split(d1: int, r1: int, d2: int, r2: int)
    requires
        0 <= d1 < 32,
        0 <= d2 < 32,
        d1 + 32 * r1 == d2 + 32 * r2,
    ensures
        d1 == d2,
        r1 == r2,
{
}

/// Different words have different keys.
pub proof fn lemma_word_key_injective(a: Seq<u8>, b: Seq<u8>)
    requires
        is_word(a),
        is_word(b),
        word_key(a) == word_key(b),
    ensures
        a == b,
{
    let a4 = a[4] - 97;
    let b4 = b[4] - 97;
    let a3 = (a[3] - 97) + 32 * a4;
    let b3 = (b[3] - 97) + 32 * b4;
    let a2 = (a[2] - 97) + 32 * a3;
    let b2 = (b[2] - 97) + 32 * b3;
    let a1 = (a[1] - 97) + 32 * a2;
    let b1 = (b[1] - 97) + 32 * b2;
    lemma_digit_split(a[0] - 97, a1, b[0] - 97, b1);
    lemma_digit_split(a[1] - 97, a2, b[1] - 97, b2);
    lemma_digit_split(a[2] - 97, a3, b[2] - 97, b3);
    lemma_digit_split(a[3] - 97, a4, b[3] - 97, b4);
    assert(a =~= b);
}

/// Different pairs of words have different keys.
pub proof fn lemma_pair_key_injective(g1: Seq<u8>, a1: Seq<u8>, g2: Seq<u8>, a2: Seq<u8>)
    requires
        is_word(g1),
        is_word(a1),
        is_word(g2),
        is_word(a2),
        pair_key(g1, a1) == pair_key(g2, a2),
    ensures
        g1 == g2,
        a1 == a2,
{
    assert(0 <= word_key(a1) < 33554432);
    assert(0 <= word_key(a2) < 33554432);
    assert(0 <= word_key(g1) < 33554432);
    assert(0 <= word_key(g2) < 33554432);
    lemma_word_key_injective(g1, g2);
    lemma_word_key_injective(a1, a2);
}

/// A table of feedback codes, filled as they are first asked for and kept
/// for as long as its owner likes: across turns, and from game to game.
pub struct MaskCache {
    codes: HashMap<u64, u8>,
}

impl MaskCache {
    /// How many pairs of words the table remembers.
    pub closed spec fn remembered(&self) -> nat {
        self.codes@.len()
    }

    /// Whether the table remembers the code for this pair of words.
    pub closed spec fn remembers(&self, guess: Seq<u8>, answer: Seq<u8>) -> bool {
        self.codes@.contains_key(pair_key(guess, answer) as u64)
    }

    /// A table that holds all that an earlier one held remembers every pair
    /// that the earlier one remembered.
    pub proof fn lemma_extends_remembers(&self, earlier: &MaskCache, guess: Seq<u8>, answer: Seq<u8>)
        requires
            self.extends(earlier),
            earlier.remembers(guess, answer),
        ensures
            self.remembers(guess, answer),
    {
    }

    /// An empty table.
    pub fn new() -> (cache: MaskCache)
        ensures
            cache.valid(),
            cache.remembered() == 0,
            forall|g: Seq<u8>, a: Seq<u8>| !cache.remembers(g, a),
    {
        MaskCache { codes: HashMap::new() }
    }

    /// How many pairs of words the table remembers.
    pub fn len(&self) -> (n: usize)
        ensures
            n == self.remembered(),
    {
        broadcast use group_hash_axioms;

        self.codes.len()
    }
}

impl MaskSource for MaskCache {
    /// Every remembered code is the true one.
    closed spec fn valid(&self) -> bool {
        forall|g: Seq<u8>, a: Seq<u8>|
            is_word(g) && is_word(a) && self.codes@.contains_key(
                #[trigger] pair_key(g, a) as u64,
            ) ==> self.codes@[pair_key(g, a) as u64] == feedback_code(g, a)
    }

    /// The table holds every pair of the earlier one, with the same code.
    closed spec fn extends(&self, earlier: &Self) -> bool {
        earlier.codes@.submap_of(self.codes@)
    }

    proof fn lemma_extends_itself(&self) {
    }

    proof fn lemma_extends_chain(&self, middle: &Self, first: &Self) {
        assert forall|k: u64| #[trigger] first.codes@.dom().contains(k) implies self.codes@.dom().contains(
            k,
        ) && first.codes@[k] == self.codes@[k] by {
            assert(middle.codes@.dom().contains(k));
        }
    }

    /// The code for a pair of words: remembered if it was asked for before,
    /// computed and remembered otherwise.
    fn code(&mut self, guess: &Word, answer: &Word) -> (c: u8)
        ensures
            final(self).remembers(guess@, answer@),
    {
        broadcast use group_hash_axioms;

        let g = guess.bytes();
        let a = answer.bytes();
        let key = key_of(&g) * 33554432 + key_of(&a);
        proof {
            lemma_decode_encode(mask_of(guess@, answer@));
            assert(key == pair_key(guess@, answer@) as u64);
        }
        let known: Option<u8> = match self.codes.get(&key) {
            Some(c) => Some(*c),
            None => None,
        };
        match known {
            Some(c) => c,
            None => {
                let c = FeedbackCodec::code(guess, answer);
                let ghost before = self.codes@;
                self.codes.insert(key, c);
                proof {
                    assert forall|g2: Seq<u8>, a2: Seq<u8>|
                        is_word(g2) && is_word(a2) && self.codes@.contains_key(
                            #[trigger] pair_key(g2, a2) as u64,
                        ) implies self.codes@[pair_key(g2, a2) as u64] == feedback_code(
                        g2,
                        a2,
                    ) by {
                        assert(0 <= word_key(g2) < 33554432);
                        assert(0 <= word_key(a2) < 33554432);
                        assert(0 <= word_key(guess@) < 33554432);
                        assert(0 <= word_key(answer@) < 33554432);
                        if pair_key(g2, a2) as u64 == key {
                            lemma_pair_key_injective(g2, a2, guess@, answer@);
                        } else {
                            assert(before.contains_key(pair_key(g2, a2) as u64));
                        }
                    }
                }
                c
            },
        }
    }
}

/// The key of a word.
fn key_of(letters: &[u8; 5]) -> (k: u64)
    requires
        is_word(letters@),
    ensures
        k == word_key(letters@),
        k < 33554432,
{
    (letters[0] - 97) as u64 + 32 * ((letters[1] - 97) as u64) + 1024 * ((letters[2] - 97) as u64)
        + 32768 * ((letters[3] - 97) as u64) + 1048576 * ((letters[4] - 97) as u64)
}

/// Counts, for each of the 243 codes, the candidates that would answer
/// `guess` with it. `counts` is emptied and refilled, so that a caller can
/// keep one table for many guesses.
pub fn tally_into<M: MaskSource>(
    source: &mut M,
    guess: &Word,
    candidates: &[Word],
    counts: &mut Vec<usize>,
)
    requires
        old(source).valid(),
    ensures
        final(source).valid(),
        final(source).extends(old(source)),
        final(counts)@ == bucket_sizes(guess@, words_view(candidates@)),
{
    let ghost all = words_view(candidates@);
    proof {
        source.lemma_extends_itself();
    }
    counts.clear();
    let mut m: usize = 0;
    while m < 243
        invariant
            m <= 243,
            counts@.len() == m,
            forall|k: int| 0 <= k < m ==> counts@[k] == 0,
        decreases 243 - m,
    {
        counts.push(0);
        m += 1;
    }
    proof {
        reveal(Seq::filter);
        assert(all.subrange(0, 0) =~= Seq::<Seq<u8>>::empty());
    }
    let mut i: usize = 0;
    while i < candidates.len()
        invariant
            i <= candidates.len(),
            source.valid(),
            source.extends(old(source)),
            all == words_view(candidates@),
            counts@.len() == 243,
            forall|k: int|
                0 <= k < 243 ==> #[trigger] counts@[k] == bucket_size(
                    guess@,
                    all.subrange(0, i as int),
                    k,
                ),
        decreases candidates.len() - i,
    {
        let ghost learned = *source;
        let c = source.code(guess, &candidates[i]);
        let ghost before = counts@;
        proof {
            source.lemma_extends_chain(&learned, old(source));
            let upto = all.subrange(0, i as int + 1);
            assert(upto.drop_last() =~= all.subrange(0, i as int));
            assert(upto.last() == candidates@[i as int]@);
            assert forall|k: int| 0 <= k < 243 implies #[trigger] bucket_size(guess@, upto, k)
                == before[k] + if k == c {
                1int
            } else {
                0int
            } by {
                reveal(Seq::filter);
            }
            all.subrange(0, i as int).lemma_filter_len(
                |w: Seq<u8>| feedback_code(guess@, w) == c as int,
            );
        }
        let k = c as usize;
        counts[k] = counts[k] + 1;
        i += 1;
    }
    proof {
        assert(all.subrange(0, i as int) =~= all);
        assert forall|k: int| 0 <= k < 243 implies counts@[k] == bucket_sizes(guess@, all)[k] by {
            all.lemma_filter_len(|w: Seq<u8>| feedback_code(guess@, w) == k);
        }
        assert(counts@ =~= bucket_sizes(guess@, all));
    }
}

/// Powers of one base multiply by adding their exponents.
proof fn lemma_power_adds(base: nat, a: nat, b: nat)
    ensures
        power(base, a + b) == power(base, a) * power(base, b),
    decreases a,
{
    if a == 0 {
        assert(power(base, 0) == 1);
        assert(1 * power(base, b) == power(base, b));
    } else {
        lemma_power_adds(base, (a - 1) as nat, b);
        let pa = power(base, (a - 1) as nat);
        let pb = power(base, b);
        assert(power(base, a + b) == base * power(base, (a + b - 1) as nat));
        assert(base * (pa * pb) == (base * pa) * pb) by (nonlinear_arith);
    }
}

/// The crowding that a table of 243 bucket sizes stands for.
pub fn crowding_of(counts: &Vec<usize>) -> (product: Natural)
    requires
        counts@.len() == 243,
    ensures
        product.value() == clump(counts@, 243),
{
    let mut product = Natural::one();
    let mut m: usize = 0;
    while m < 243
        invariant
            m <= 243,
            counts@.len() == 243,
            product.value() == clump(counts@, m as int),
        decreases 243 - m,
    {
        let c = counts[m];
        let base = c as u64;
        let mut j: usize = 0;
        assert(clump(counts@, m as int) * power(c as nat, 0) == clump(counts@, m as int)) by {
            assert(power(c as nat, 0) == 1);
        }
        while j < c
            invariant
                j <= c,
                m < 243,
                counts@.len() == 243,
                c == counts@[m as int],
                base == c,
                product.value() == clump(counts@, m as int) * power(c as nat, j as nat),
            decreases c - j,
        {
            // Gather as many factors as fit a machine word, then multiply once.
            let mut factor: u64 = base;
            let mut k: usize = 1;
            assert(power(c as nat, 1) == c) by {
                assert(power(c as nat, 0) == 1);
                assert(power(c as nat, 1) == (c as nat) * power(c as nat, 0));
            }
            while k < c - j && factor <= u64::MAX / base
                invariant
                    1 <= k <= c - j,
                    base == c,
                    base >= 1,
                    factor == power(c as nat, k as nat),
                decreases c - j - k,
            {
                assert(factor * base <= u64::MAX) by (nonlinear_arith)
                    requires
                        factor <= u64::MAX / base,
                        base >= 1,
                ;
                assert(power(c as nat, (k + 1) as nat) == (c as nat) * power(c as nat, k as nat));
                assert(factor * base == base * factor) by (nonlinear_arith);
                factor = factor * base;
                k += 1;
            }
            let ghost before = product.value();
            product = product.times(factor);
            proof {
                let start = clump(counts@, m as int);
                let pj = power(c as nat, j as nat);
                let pk = power(c as nat, k as nat);
                lemma_power_adds(c as nat, j as nat, k as nat);
                assert(before * pk == start * (pj * pk)) by (nonlinear_arith)
                    requires
                        before == start * pj,
                ;
            }
            j += k;
        }
        m += 1;
    }
    product
}

/// Finds the best guess of a universe: the place of the one that ranks
/// before all others.
pub fn pick_best<M: MaskSource>(
    source: &mut M,
    universe: &[Word],
    candidates: &[Word],
    counts: &mut Vec<usize>,
) -> (best: usize)
    requires
        old(source).valid(),
        universe@.len() > 0,
    ensures
        final(source).valid(),
        final(source).extends(old(source)),
        is_best(words_view(universe@), words_view(candidates@), best as int),
        best as int == best_index(words_view(universe@), words_view(candidates@)),
{
    let ghost u = words_view(universe@);
    let ghost c = words_view(candidates@);
    tally_into(source, &universe[0], candidates, counts);
    let mut best: usize = 0;
    let mut best_score = crowding_of(counts);
    let mut best_viable = contains_word(candidates, &universe[0]);
    let mut i: usize = 1;
    while i < universe.len()
        invariant
            1 <= i <= universe.len(),
            source.valid(),
            source.extends(old(source)),
            u == words_view(universe@),
            c == words_view(candidates@),
            best < i,
            best_score.value() == crowding(u[best as int], c),
            best_viable == c.contains(u[best as int]),
            forall|j: int| 0 <= j < i && j != best ==> #[trigger] ranks_before(u, c, best as int, j),
        decreases universe.len() - i,
    {
        let ghost learned = *source;
        tally_into(source, &universe[i], candidates, counts);
        proof {
            source.lemma_extends_chain(&learned, old(source));
        }
        let score = crowding_of(counts);
        let viable = contains_word(candidates, &universe[i]);
        let takes_over = match score.compare(&best_score) {
            Comparison::Less => true,
            Comparison::Equal => viable && !best_viable,
            Comparison::Greater => false,
        };
        proof {
            assert(score.value() == crowding(u[i as int], c));
            if takes_over {
                assert(ranks_before(u, c, i as int, best as int));
                assert forall|j: int| 0 <= j < i + 1 && j != i implies #[trigger] ranks_before(
                    u,
                    c,
                    i as int,
                    j,
                ) by {
                    if j != best {
                        assert(ranks_before(u, c, best as int, j));
                    }
                }
            } else {
                assert(ranks_before(u, c, best as int, i as int));
            }
        }
        if takes_over {
            best = i;
            best_score = score;
            best_viable = viable;
        }
        i += 1;
    }
    proof {
        assert(is_best(u, c, best as int));
        lemma_best_unique(u, c, best as int, best_index(u, c));
    }
    best
}

} // verus!
