//! Letters and words: the mathematical vocabulary that the contracts of the
//! puzzle, the candidate pool and the solver share.

use vstd::prelude::*;
use vstd::string::StringSliceAdditionalSpecFns;

verus! {

/// Number of letters in every word of the puzzle.
pub const NUM_LETTERS: usize = 5;

/// Number of guesses a puzzle accepts.
pub const MAX_GUESSES: usize = 6;

/// `c` is one of the letters `a` to `z`.
pub open spec fn is_lower(c: char) -> bool {
    'a' <= c && c <= 'z'
}

/// Every character of `w` is one of the letters `a` to `z`.
pub open spec fn all_lower(w: Seq<char>) -> bool {
    forall|i: int| 0 <= i < w.len() ==> is_lower(#[trigger] w[i])
}

/// `w` is a word of the puzzle: `NUM_LETTERS` lowercase letters.
pub open spec fn is_word(w: Seq<char>) -> bool {
    w.len() == NUM_LETTERS && all_lower(w)
}

/// `w` has the length of a word, counted in characters and in bytes alike.
pub open spec fn has_word_length(w: &str) -> bool {
    w@.len() == NUM_LETTERS && w.spec_bytes().len() == NUM_LETTERS
}

/// The ASCII lowercase form of one character: `A` to `Z` become `a` to `z`,
/// every other character stays.
pub open spec fn lower_char(c: char) -> char {
    if 'A' <= c && c <= 'Z' {
        ((c as u8 + 32) as u8) as char
    } else {
        c
    }
}

/// The ASCII lowercase form of a sequence of characters.
pub open spec fn lowered(w: Seq<char>) -> Seq<char> {
    Seq::new(w.len(), |i: int| lower_char(w[i]))
}

/// The views of a sequence of string slices.
pub open spec fn views(ws: Seq<&'static str>) -> Seq<Seq<char>> {
    Seq::new(ws.len(), |i: int| ws[i]@)
}

/// Every element is a word of the puzzle.
pub open spec fn all_words(ws: Seq<Seq<char>>) -> bool {
    forall|i: int| 0 <= i < ws.len() ==> is_word(#[trigger] ws[i])
}

/// Lowercasing leaves a sequence of lowercase letters as it is.
pub proof fn lemma_lowered_lowercase(w: Seq<char>)
    requires
        all_lower(w),
    ensures
        lowered(w) == w,
{
    assert(lowered(w) =~= w);
}

/// A sequence of lowercase letters takes one byte per letter.
pub proof fn lemma_word_bytes(w: &str)
    requires
        is_word(w@),
    ensures
        has_word_length(w),
{
    assert forall|i: int| 0 <= i < w@.len() implies (#[trigger] w@[i] as u32) < 128 by {
        assert(is_lower(w@[i]));
    }
    vstd::utf8::is_ascii_chars_encode_utf8(w@);
}

/// Calls `str::to_ascii_lowercase`, which std documents to return a copy of
/// the string in which the letters `A` to `Z` are replaced by `a` to `z` and
/// all other characters are kept.
#[verifier::external_body]
pub(crate) fn ascii_lowercase(s: &str) -> (r: String)
    ensures
        r@ == lowered(s@),
{
    s.to_ascii_lowercase()
}

/// Whether `w` is a word of the puzzle.
pub fn is_puzzle_word(w: &str) -> (legal: bool)
    ensures
        legal == is_word(w@),
{
    let n: usize = w.unicode_len();
    if n != NUM_LETTERS {
        return false;
    }
    let mut i: usize = 0;
    while i < n
        invariant
            n == w@.len(),
            i <= n,
            forall|j: int| 0 <= j < i ==> is_lower(#[trigger] w@[j]),
        decreases n - i,
    {
        let c: char = w.get_char(i);
        if c < 'a' || c > 'z' {
            assert(!is_lower(w@[i as int]));
            return false;
        }
        i += 1;
    }
    true
}

/// Whether every element of `universe` is a word of the puzzle.
pub fn all_puzzle_words(universe: &[&'static str]) -> (legal: bool)
    ensures
        legal == all_words(views(universe@)),
{
    let mut i: usize = 0;
    while i < universe.len()
        invariant
            i <= universe.len(),
            forall|j: int| 0 <= j < i ==> is_word(#[trigger] views(universe@)[j]),
        decreases universe.len() - i,
    {
        if !is_puzzle_word(universe[i]) {
            assert(!is_word(views(universe@)[i as int]));
            return false;
        }
        i += 1;
    }
    true
}

/// Whether `c` occurs anywhere in `w`.
pub fn word_contains(w: &str, c: char) -> (found: bool)
    ensures
        found == w@.contains(c),
{
    let n: usize = w.unicode_len();
    let mut i: usize = 0;
    while i < n
        invariant
            n == w@.len(),
            i <= n,
            forall|j: int| 0 <= j < i ==> w@[j] != c,
        decreases n - i,
    {
        if w.get_char(i) == c {
            return true;
        }
        i += 1;
    }
    false
}

/// Whether the character of `w` at index `position` exists and is `c`.
pub fn letter_at(w: &str, c: char, position: usize) -> (found: bool)
    ensures
        found == (position < w@.len() && w@[position as int] == c),
{
    position < w.unicode_len() && w.get_char(position) == c
}

/// Whether two string slices hold the same characters.
pub fn same_word(a: &str, b: &str) -> (same: bool)
    ensures
        same == (a@ == b@),
{
    let n: usize = a.unicode_len();
    if n != b.unicode_len() {
        return false;
    }
    let mut i: usize = 0;
    while i < n
        invariant
            n == a@.len(),
            n == b@.len(),
            i <= n,
            forall|j: int| 0 <= j < i ==> a@[j] == b@[j],
        decreases n - i,
    {
        if a.get_char(i) != b.get_char(i) {
            return false;
        }
        i += 1;
    }
    assert(a@ =~= b@);
    true
}

} // verus!
