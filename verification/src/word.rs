//! Words of the game: exactly five lowercase ASCII letters.

use crate::error::EngineError;
use vstd::prelude::*;
use vstd::string::*;

verus! {

/// Whether `c` is one of the letters `a` to `z`.
pub open spec fn is_letter(c: char) -> bool {
    'a' <= c <= 'z'
}

/// Whether a sequence of bytes spells a legal word: five lowercase ASCII letters.
pub open spec fn is_word(s: Seq<u8>) -> bool {
    &&& s.len() == 5
    &&& forall|i: int| 0 <= i < 5 ==> 97 <= #[trigger] s[i] <= 122
}

/// Whether a text spells a legal word.
pub open spec fn is_word_text(s: Seq<char>) -> bool {
    &&& s.len() == 5
    &&& forall|i: int| 0 <= i < 5 ==> is_letter(#[trigger] s[i])
}

/// The bytes of a text whose characters all fit in a byte.
pub open spec fn text_bytes(s: Seq<char>) -> Seq<u8> {
    Seq::new(s.len(), |i: int| s[i] as u8)
}

/// A five-letter word. Immutable once created.
#[derive(Clone, Copy, Debug, PartialEq, Eq, Hash)]
pub struct Word {
    letters: [u8; 5],
}

impl View for Word {
    type V = Seq<u8>;

    closed spec fn view(&self) -> Seq<u8> {
        self.letters@
    }
}

impl Word {
    /// Every word in circulation holds five lowercase letters.
    #[verifier::type_invariant]
    closed spec fn well_formed(&self) -> bool {
        is_word(self.letters@)
    }

    /// Parses a word.
    ///
    /// A text that is not exactly five characters long is rejected with
    /// `InvalidLength`; a five-character text holding anything but the letters
    /// `a` to `z` is rejected with `InvalidWord`.
    pub fn new(s: &str) -> (r: Result<Word, EngineError>)
        ensures
            s@.len() != 5 ==> r == Err::<Word, EngineError>(EngineError::InvalidLength),
            s@.len() == 5 && !is_word_text(s@) ==> r == Err::<Word, EngineError>(
                EngineError::InvalidWord,
            ),
            is_word_text(s@) ==> r is Ok && r->Ok_0@ == text_bytes(s@),
    {
        if s.unicode_len() != 5 {
            return Err(EngineError::InvalidLength);
        }
        let mut letters: [u8; 5] = [97u8; 5];
        let mut i: usize = 0;
        while i < 5
            invariant
                i <= 5,
                s@.len() == 5,
                forall|j: int| 0 <= j < i ==> is_letter(#[trigger] s@[j]),
                forall|j: int| 0 <= j < i ==> #[trigger] letters@[j] == s@[j] as u8,
                forall|j: int| 0 <= j < 5 ==> 97 <= #[trigger] letters@[j] <= 122,
            decreases 5 - i,
        {
            let c = s.get_char(i);
            if c < 'a' || c > 'z' {
                return Err(EngineError::InvalidWord);
            }
            letters[i] = c as u8;
            i += 1;
        }
        assert(letters@ =~= text_bytes(s@));
        Ok(Word { letters })
    }

    /// The five letters, as bytes.
    pub fn bytes(&self) -> (r: [u8; 5])
        ensures
            r@ == self@,
            is_word(self@),
    {
        proof {
            use_type_invariant(self);
        }
        self.letters
    }

    /// The letter at position `i`.
    pub fn letter(&self, i: usize) -> (b: u8)
        requires
            i < 5,
        ensures
            b == self@[i as int],
            97 <= b <= 122,
    {
        proof {
            use_type_invariant(self);
        }
        self.letters[i]
    }

    /// Whether two words spell the same letters.
    pub fn same(&self, other: &Word) -> (r: bool)
        ensures
            r == (self@ == other@),
    {
        proof {
            use_type_invariant(self);
            use_type_invariant(other);
        }
        let mut i: usize = 0;
        while i < 5
            invariant
                i <= 5,
                self@.len() == 5,
                other@.len() == 5,
                forall|j: int| 0 <= j < i ==> self@[j] == other@[j],
            decreases 5 - i,
        {
            if self.letters[i] != other.letters[i] {
                return false;
            }
            i += 1;
        }
        assert(self@ =~= other@);
        true
    }
}

} // verus!
