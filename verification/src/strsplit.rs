//! Splitting a text at the occurrences of a delimiter.
//!
//! Texts are taken as their UTF-8 bytes, and places in a text count bytes.

use vstd::prelude::*;
use vstd::string::*;
use vstd::utf8::{
    char_is_scalar, encode_scalar, encode_utf8, encode_utf8_valid_utf8, is_char_boundary,
    is_char_boundary_iff_not_is_continuation_byte, is_char_boundary_start_end_of_seq,
    length_of_first_scalar, pop_first_scalar, valid_utf8,
};

verus! {

/// Whether `pattern` stands in `text` at place `i`.
pub open spec fn matches_at(text: Seq<u8>, pattern: Seq<u8>, i: int) -> bool {
    &&& 0 <= i
    &&& i + pattern.len() <= text.len()
    &&& text.subrange(i, i + pattern.len()) == pattern
}

/// Whether `pattern` stands somewhere in `text`.
pub open spec fn occurs(text: Seq<u8>, pattern: Seq<u8>) -> bool {
    exists|i: int| matches_at(text, pattern, i)
}

/// Whether `i` is the first place of `text` at which `pattern` stands.
pub open spec fn first_match(text: Seq<u8>, pattern: Seq<u8>, i: int) -> bool {
    &&& matches_at(text, pattern, i)
    &&& forall|j: int| 0 <= j < i ==> !matches_at(text, pattern, j)
}

/// The first place of `text` at which `pattern` stands, if it stands anywhere.
pub open spec fn first_occurrence(text: Seq<u8>, pattern: Seq<u8>) -> int {
    choose|i: int| first_match(text, pattern, i)
}

/// A pattern has at most one first place in a text.
pub proof fn lemma_first_match_unique(text: Seq<u8>, pattern: Seq<u8>, i: int, j: int)
    requires
        first_match(text, pattern, i),
        first_match(text, pattern, j),
    ensures
        i == j,
{
}

/// Where the encoding of one text stands in the encoding of another from a
/// character boundary on, it also ends on a character boundary.
pub proof fn lemma_match_ends_on_boundary(text: Seq<u8>, pattern: Seq<u8>, i: int)
    requires
        valid_utf8(text),
        valid_utf8(pattern),
        is_char_boundary(text, i),
        matches_at(text, pattern, i),
    ensures
        is_char_boundary(text, i + pattern.len()),
    decreases text.len(),
{
    reveal_with_fuel(is_char_boundary, 2);
    reveal_with_fuel(valid_utf8, 2);
    let m = pattern.len() as int;
    if m == 0 {
    } else if i == 0 {
        assert(text.subrange(0, m)[0] == pattern[0]);
        let l = length_of_first_scalar(pattern);
        assert(l == length_of_first_scalar(text));
        assert(1 <= l <= m);
        let rest = pop_first_scalar(text);
        let tail = pop_first_scalar(pattern);
        assert(rest.subrange(0, m - l) =~= tail) by {
            assert forall|k: int| 0 <= k < m - l implies rest.subrange(0, m - l)[k] == tail[k] by {
                assert(text.subrange(0, m)[k + l] == pattern[k + l]);
            }
        }
        lemma_match_ends_on_boundary(rest, tail, 0);
    } else {
        let l = length_of_first_scalar(text);
        let rest = pop_first_scalar(text);
        assert(is_char_boundary(rest, i - l));
        assert(0 <= i - l);
        assert(rest.subrange(i - l, i - l + m) =~= text.subrange(i, i + m));
        lemma_match_ends_on_boundary(rest, pattern, i - l);
    }
}

/// The first occurrence of one text in another, both in UTF-8, starts and
/// ends on a character boundary.
pub proof fn lemma_first_match_on_boundaries(text: Seq<char>, pattern: Seq<char>, i: int)
    requires
        first_match(encode_utf8(text), encode_utf8(pattern), i),
    ensures
        is_char_boundary(encode_utf8(text), i),
        is_char_boundary(encode_utf8(text), i + encode_utf8(pattern).len()),
{
    let t = encode_utf8(text);
    let p = encode_utf8(pattern);
    encode_utf8_valid_utf8(text);
    encode_utf8_valid_utf8(pattern);
    if p.len() == 0 {
        assert(t.subrange(0, 0) =~= p);
        assert(matches_at(t, p, 0));
        assert(i == 0);
    } else {
        assert(t.subrange(i, i + p.len())[0] == p[0]);
        assert(is_char_boundary(p, 0));
        is_char_boundary_iff_not_is_continuation_byte(p, 0);
        is_char_boundary_iff_not_is_continuation_byte(t, i);
    }
    lemma_match_ends_on_boundary(t, p, i);
}

/// One step of splitting: the piece that is handed out and what is left to
/// split, for a given rest of the text.
///
/// With nothing left, nothing is handed out. Otherwise the piece is the text
/// before the first occurrence of the delimiter and the text after that
/// occurrence is left; without an occurrence the piece is all the text, and
/// nothing is left.
pub open spec fn split_step(remainder: Option<Seq<u8>>, pattern: Seq<u8>) -> (
    Option<Seq<u8>>,
    Option<Seq<u8>>,
) {
    match remainder {
        None => (None, None),
        Some(text) => {
            let i = first_occurrence(text, pattern);
            if first_match(text, pattern, i) {
                (
                    Some(text.subrange(0, i)),
                    Some(text.subrange(i + pattern.len(), text.len() as int)),
                )
            } else {
                (Some(text), None)
            }
        },
    }
}

/// The pieces into which the occurrences of a delimiter that is not empty cut a text.
pub open spec fn pieces(text: Seq<u8>, pattern: Seq<u8>) -> Seq<Seq<u8>>
    decreases text.len(),
{
    let i = first_occurrence(text, pattern);
    if pattern.len() > 0 && first_match(text, pattern, i) {
        seq![text.subrange(0, i)] + pieces(
            text.subrange(i + pattern.len(), text.len() as int),
            pattern,
        )
    } else {
        seq![text]
    }
}

/// All the pieces that a splitter has yet to hand out.
pub open spec fn pieces_left(remainder: Option<Seq<u8>>, pattern: Seq<u8>) -> Seq<Seq<u8>> {
    match remainder {
        None => Seq::empty(),
        Some(text) => pieces(text, pattern),
    }
}

/// The bytes of each text of a list.
pub open spec fn texts_of(v: Seq<&str>) -> Seq<Seq<u8>> {
    Seq::new(v.len(), |i: int| v[i].spec_bytes())
}

/// Something that marks where a text is to be cut.
pub trait Delimiter {
    /// The text that the delimiter stands for.
    spec fn pattern(&self) -> Seq<char>;

    /// The first occurrence of the delimiter in `s`: the byte offset at which
    /// it starts and the byte offset just after it.
    fn find_next(&self, s: &str) -> (r: Option<(usize, usize)>)
        ensures
            match r {
                Some((start, end)) => first_match(
                    s.spec_bytes(),
                    encode_utf8(self.pattern()),
                    start as int,
                ) && end == start + encode_utf8(self.pattern()).len(),
                None => !occurs(s.spec_bytes(), encode_utf8(self.pattern())),
            },
    ;
}

/// Whether `pattern` stands in `text` at place `i`.
fn matches_here(text: &[u8], pattern: &[u8], i: usize) -> (r: bool)
    requires
        i + pattern@.len() <= text@.len(),
    ensures
        r == matches_at(text@, pattern@, i as int),
{
    let n = text.len();
    let m = pattern.len();
    let mut k: usize = 0;
    while k < m
        invariant
            k <= m,
            m == pattern@.len(),
            n == text@.len(),
            i + m <= text@.len(),
            forall|j: int| 0 <= j < k ==> text@[i + j] == pattern@[j],
        decreases m - k,
    {
        if text[i + k] != pattern[k] {
            assert(text@.subrange(i as int, i + pattern@.len())[k as int] != pattern@[k as int]);
            return false;
        }
        k += 1;
    }
    assert(text@.subrange(i as int, i + pattern@.len()) =~= pattern@);
    true
}

/// The first place of `text` at which `pattern` stands.
fn find_bytes(text: &[u8], pattern: &[u8]) -> (r: Option<usize>)
    ensures
        match r {
            Some(i) => first_match(text@, pattern@, i as int),
            None => !occurs(text@, pattern@),
        },
{
    let n = text.len();
    let m = pattern.len();
    if m > n {
        return None;
    }
    let last = n - m;
    let mut i: usize = 0;
    loop
        invariant
            n == text@.len(),
            m == pattern@.len(),
            last == n - m,
            i <= last,
            forall|j: int| 0 <= j < i ==> !matches_at(text@, pattern@, j),
        decreases last - i,
    {
        if matches_here(text, pattern, i) {
            return Some(i);
        }
        if i == last {
            return None;
        }
        i += 1;
    }
}

/// The UTF-8 encoding of a character.
fn char_bytes(c: char) -> (out: Vec<u8>)
    ensures
        out@ == encode_utf8(seq![c]),
{
    let scalar: u32 = c as u32;
    let mut out: Vec<u8> = Vec::new();
    proof {
        char_is_scalar(c);
        reveal_with_fuel(encode_utf8, 2);
        assert(seq![c].drop_first() =~= Seq::<char>::empty());
        assert(encode_scalar(scalar) + Seq::<u8>::empty() =~= encode_scalar(scalar));
    }
    if scalar <= 0x7F {
        assert(scalar & 0x7F <= 0x7F) by (bit_vector);
        out.push((scalar & 0x7F) as u8);
    } else if scalar <= 0x7FF {
        assert((scalar >> 6) & 0x1F <= 0x1F) by (bit_vector);
        assert(scalar & 0x3F <= 0x3F) by (bit_vector);
        out.push(0xC0 | ((scalar >> 6) & 0x1F) as u8);
        out.push(0x80 | (scalar & 0x3F) as u8);
    } else if scalar <= 0xFFFF {
        assert((scalar >> 12) & 0x0F <= 0x0F) by (bit_vector);
        assert((scalar >> 6) & 0x3F <= 0x3F) by (bit_vector);
        assert(scalar & 0x3F <= 0x3F) by (bit_vector);
        out.push(0xE0 | ((scalar >> 12) & 0x0F) as u8);
        out.push(0x80 | ((scalar >> 6) & 0x3F) as u8);
        out.push(0x80 | (scalar & 0x3F) as u8);
    } else {
        assert((scalar >> 18) & 0x7 <= 0x7) by (bit_vector);
        assert((scalar >> 12) & 0x3F <= 0x3F) by (bit_vector);
        assert((scalar >> 6) & 0x3F <= 0x3F) by (bit_vector);
        assert(scalar & 0x3F <= 0x3F) by (bit_vector);
        out.push(0xF0 | ((scalar >> 18) & 0x7) as u8);
        out.push(0x80 | ((scalar >> 12) & 0x3F) as u8);
        out.push(0x80 | ((scalar >> 6) & 0x3F) as u8);
        out.push(0x80 | (scalar & 0x3F) as u8);
    }
    assert(out@ =~= encode_scalar(scalar));
    out
}

impl<'a> Delimiter for &'a str {
    open spec fn pattern(&self) -> Seq<char> {
        (*self)@
    }

    fn find_next(&self, s: &str) -> (r: Option<(usize, usize)>) {
        let text = s.as_bytes();
        let pattern = self.as_bytes();
        let n = text.len();
        match find_bytes(text, pattern) {
            Some(start) => Some((start, start + pattern.len())),
            None => None,
        }
    }
}

impl Delimiter for char {
    open spec fn pattern(&self) -> Seq<char> {
        seq![*self]
    }

    fn find_next(&self, s: &str) -> (r: Option<(usize, usize)>) {
        let text = s.as_bytes();
        let pattern = char_bytes(*self);
        let n = text.len();
        match find_bytes(text, pattern.as_slice()) {
            Some(start) => Some((start, start + pattern.len())),
            None => None,
        }
    }
}

/// Hands out, one by one, the pieces into which a delimiter cuts a text.
#[derive(Debug)]
pub struct StrSplit<'haystack, D> {
    remainder: Option<&'haystack str>,
    delimiter: D,
}

impl<'haystack, D> StrSplit<'haystack, D> {
    /// What is left to split, if anything.
    pub closed spec fn remainder(&self) -> Option<Seq<u8>> {
        match self.remainder {
            Some(text) => Some(text.spec_bytes()),
            None => None,
        }
    }

    /// The delimiter.
    pub closed spec fn delimiter(&self) -> D {
        self.delimiter
    }

    /// A splitter for the whole of `haystack`.
    pub fn new(haystack: &'haystack str, delimiter: D) -> (split: Self)
        ensures
            split.remainder() == Some(haystack.spec_bytes()),
            split.delimiter() == delimiter,
    {
        Self { remainder: Some(haystack), delimiter }
    }
}

/// A piece, as bytes.
pub open spec fn piece_view(piece: Option<&str>) -> Option<Seq<u8>> {
    match piece {
        Some(text) => Some(text.spec_bytes()),
        None => None,
    }
}

impl<'haystack, D: Delimiter> StrSplit<'haystack, D> {
    /// The next piece, or `None` once all pieces have been handed out.
    pub fn next(&mut self) -> (piece: Option<&'haystack str>)
        ensures
            (piece_view(piece), final(self).remainder()) == split_step(
                old(self).remainder(),
                encode_utf8(old(self).delimiter().pattern()),
            ),
            final(self).delimiter() == old(self).delimiter(),
    {
        let text = match self.remainder {
            Some(text) => text,
            None => {
                return None;
            },
        };
        let ghost pattern = encode_utf8(self.delimiter.pattern());
        match self.delimiter.find_next(text) {
            Some((delim_start, delim_end)) => {
                proof {
                    lemma_first_match_unique(
                        text.spec_bytes(),
                        pattern,
                        delim_start as int,
                        first_occurrence(text.spec_bytes(), pattern),
                    );
                    lemma_first_match_on_boundaries(
                        text@,
                        self.delimiter.pattern(),
                        delim_start as int,
                    );
                }
                let until_delimiter = text.split_at(delim_start).0;
                let rest = text.split_at(delim_end).1;
                self.remainder = Some(rest);
                Some(until_delimiter)
            },
            None => {
                self.remainder = None;
                Some(text)
            },
        }
    }

    /// All the pieces that are left, in order.
    pub fn collect(self) -> (all: Vec<&'haystack str>)
        requires
            self.delimiter().pattern().len() > 0,
        ensures
            texts_of(all@) == pieces_left(
                self.remainder(),
                encode_utf8(self.delimiter().pattern()),
            ),
    {
        let ghost pattern = encode_utf8(self.delimiter.pattern());
        let ghost whole = pieces_left(self.remainder(), pattern);
        proof {
            reveal_with_fuel(encode_utf8, 2);
            char_is_scalar(self.delimiter.pattern()[0]);
            assert(pattern.len() > 0);
        }
        let mut split = self;
        let mut all: Vec<&'haystack str> = Vec::new();
        assert(texts_of(all@) + whole =~= whole);
        loop
            invariant
                pattern == encode_utf8(split.delimiter().pattern()),
                pattern.len() > 0,
                texts_of(all@) + pieces_left(split.remainder(), pattern) == whole,
            ensures
                texts_of(all@) == whole,
            decreases
                    match split.remainder() {
                        Some(text) => text.len() + 1,
                        None => 0,
                    },
        {
            let ghost before = texts_of(all@);
            let ghost left = split.remainder();
            match split.next() {
                Some(piece) => {
                    all.push(piece);
                    proof {
                        let text = left->Some_0;
                        let i = first_occurrence(text, pattern);
                        assert(texts_of(all@) =~= before.push(piece.spec_bytes()));
                        if first_match(text, pattern, i) {
                            assert(pieces(text, pattern) == seq![text.subrange(0, i)] + pieces(
                                text.subrange(i + pattern.len(), text.len() as int),
                                pattern,
                            ));
                            assert(before.push(piece.spec_bytes()) + pieces_left(
                                split.remainder(),
                                pattern,
                            ) =~= before + pieces(text, pattern));
                        } else {
                            assert(pieces(text, pattern) == seq![text]);
                            assert(before.push(piece.spec_bytes()) + pieces_left(
                                split.remainder(),
                                pattern,
                            ) =~= before + pieces(text, pattern));
                        }
                    }
                },
                None => {
                    assert(texts_of(all@) + Seq::<Seq<u8>>::empty() =~= texts_of(all@));
                    break ;
                },
            }
        }
        all
    }
}

/// The text before the first `c` in `s`, or all of `s` if it holds no `c`.
pub fn until_char(s: &str, c: char) -> (r: &str)
    ensures
        Some(r.spec_bytes()) == split_step(Some(s.spec_bytes()), encode_utf8(seq![c])).0,
{
    let mut split = StrSplit::new(s, c);
    match split.next() {
        Some(piece) => piece,
        None => s,
    }
}

} // verus!
