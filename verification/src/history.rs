//! The bounded guess history: an `ArrayVec` of at most `MAX_GUESSES` strings,
//! seen by the verifier through the sequence of words it holds.

use vstd::prelude::*;
use arrayvec::ArrayVec;
use crate::words::MAX_GUESSES;

verus! {

/// `arrayvec::ArrayVec`, carried through verified code as an opaque value.
#[verifier::external_type_specification]
#[verifier::external_body]
#[verifier::reject_recursive_types(T)]
pub struct ExArrayVec<T, const CAP: usize>(ArrayVec<T, CAP>);

/// The words that a guess history holds, oldest first.
pub uninterp spec fn history_words(h: ArrayVec<String, MAX_GUESSES>) -> Seq<Seq<char>>;

/// Calls `ArrayVec::new`, which returns a vector that holds nothing.
#[verifier::external_body]
pub(crate) fn history_new() -> (h: ArrayVec<String, MAX_GUESSES>)
    ensures
        history_words(h) == Seq::<Seq<char>>::empty(),
{
    ArrayVec::new()
}

/// Calls `ArrayVec::len`, which returns the number of elements held.
#[verifier::external_body]
pub(crate) fn history_len(h: &ArrayVec<String, MAX_GUESSES>) -> (n: usize)
    ensures
        n == history_words(*h).len(),
{
    h.len()
}

/// Calls `ArrayVec::push`, which appends the element and panics when the
/// vector is already at capacity; the precondition keeps the call below it.
#[verifier::external_body]
pub(crate) fn history_push(h: &mut ArrayVec<String, MAX_GUESSES>, word: String)
    requires
        history_words(*old(h)).len() < MAX_GUESSES,
    ensures
        history_words(*final(h)) == history_words(*old(h)).push(word@),
{
    h.push(word)
}

/// Calls `last` on the slice that an `ArrayVec` dereferences to: the most
/// recently pushed element, or `None` when nothing is held.
#[verifier::external_body]
pub(crate) fn history_last(h: &ArrayVec<String, MAX_GUESSES>) -> (r: Option<&String>)
    ensures
        match r {
            Some(word) => history_words(*h).len() > 0 && word@ == history_words(*h).last(),
            None => history_words(*h).len() == 0,
        },
{
    h.last()
}

} // verus!
