//! The candidate pool: the words that may still be the solution, kept in
//! ascending order of their number of distinct letters.

use vstd::prelude::*;
use crate::words::{all_lower, all_words, is_lower, is_word, letter_at, views, word_contains};

verus! {

/// The letters among the first `n` characters of `w`.
spec fn letters_upto(w: Seq<char>, n: nat) -> Set<char>
    decreases n,
{
    if n == 0 {
        Set::empty()
    } else {
        letters_upto(w, (n - 1) as nat).insert(w[n - 1])
    }
}

/// The ranking key of a word: the number of distinct letters in it.
pub open spec fn distinct_letters(w: Seq<char>) -> nat {
    w.to_set().len()
}

/// `letters_upto` is finite, holds the characters before `n` and no others.
proof fn lemma_letters_upto(w: Seq<char>, n: nat)
    requires
        n <= w.len(),
    ensures
        letters_upto(w, n).finite(),
        letters_upto(w, n).len() <= n,
        forall|c: char|
            letters_upto(w, n).contains(c) <==> exists|j: int| 0 <= j < n && w[j] == c,
    decreases n,
{
    if n > 0 {
        let m = (n - 1) as nat;
        lemma_letters_upto(w, m);
        assert forall|c: char|
            letters_upto(w, n).contains(c) <==> exists|j: int| 0 <= j < n && w[j] == c by {
            if letters_upto(w, n).contains(c) {
                if c == w[n - 1] {
                    assert(0 <= n - 1 < n && w[n - 1] == c);
                } else {
                    assert(letters_upto(w, m).contains(c));
                    let j = choose|j: int| 0 <= j < m && w[j] == c;
                    assert(0 <= j < n && w[j] == c);
                }
            }
            if exists|j: int| 0 <= j < n && w[j] == c {
                let j = choose|j: int| 0 <= j < n && w[j] == c;
                if j < m {
                    assert(letters_upto(w, m).contains(c));
                }
            }
        }
    }
}

/// Taken over the whole word, `letters_upto` is the set of its letters.
proof fn lemma_letters_all(w: Seq<char>)
    ensures
        letters_upto(w, w.len()) == w.to_set(),
{
    lemma_letters_upto(w, w.len());
    assert forall|c: char| letters_upto(w, w.len()).contains(c) <==> w.to_set().contains(c) by {
        if letters_upto(w, w.len()).contains(c) {
            let j = choose|j: int| 0 <= j < w.len() && w[j] == c;
            assert(w.contains(c));
        }
        if w.contains(c) {
            let j = choose|j: int| 0 <= j < w.len() && w[j] == c;
            assert(0 <= j < w.len() && w[j] == c);
        }
    }
    assert(letters_upto(w, w.len()) =~= w.to_set());
}

/// Counts the distinct letters of a lowercase word with a table of one slot
/// for each letter of the alphabet.
pub fn unique_letters_per_word(word: &str) -> (n: usize)
    requires
        all_lower(word@),
    ensures
        n == distinct_letters(word@),
{
    let len: usize = word.unicode_len();
    let mut seen: [u8; 26] = [0u8; 26];
    let mut count: usize = 0;
    let mut i: usize = 0;
    while i < len
        invariant
            len == word@.len(),
            i <= len,
            all_lower(word@),
            count <= i,
            letters_upto(word@, i as nat).finite(),
            count == letters_upto(word@, i as nat).len(),
            forall|c: char|
                is_lower(c) ==> ((seen@[c as int - 97] == 1) <==> #[trigger] letters_upto(
                    word@,
                    i as nat,
                ).contains(c)),
        decreases len - i,
    {
        let c: char = word.get_char(i);
        assert(is_lower(c));
        let letter_index: usize = (c as u32 - 'a' as u32) as usize;
        proof {
            lemma_letters_upto(word@, i as nat);
            lemma_letters_upto(word@, (i + 1) as nat);
        }
        if seen[letter_index] != 1 {
            seen[letter_index] = 1;
            count += 1;
        }
        i += 1;
    }
    proof {
        lemma_letters_all(word@);
    }
    count
}

/// An elimination rule, named by the words it keeps.
pub enum Rule {
    /// Keep the words that have the letter at the position.
    At(char, usize),
    /// Keep the words that have the letter anywhere.
    With(char),
    /// Keep the words that do not have the letter.
    Without(char),
}

impl Rule {
    /// Whether the rule keeps the word `w`.
    pub open spec fn keeps(self, w: Seq<char>) -> bool {
        match self {
            Rule::At(c, position) => position < w.len() && w[position as int] == c,
            Rule::With(c) => w.contains(c),
            Rule::Without(c) => !w.contains(c),
        }
    }

    /// Decides whether the rule keeps `word`.
    pub fn keeps_word(&self, word: &str) -> (kept: bool)
        ensures
            kept == self.keeps(word@),
    {
        match self {
            Rule::At(c, position) => letter_at(word, *c, *position),
            Rule::With(c) => word_contains(word, *c),
            Rule::Without(c) => !word_contains(word, *c),
        }
    }
}

/// The words of `ws` that `rule` keeps, in their order.
pub open spec fn survivors(ws: Seq<Seq<char>>, rule: Rule) -> Seq<Seq<char>> {
    ws.filter(|w: Seq<char>| rule.keeps(w))
}

/// The words come in ascending order of their number of distinct letters.
pub open spec fn ranked(ws: Seq<Seq<char>>) -> bool {
    forall|i: int, j: int|
        0 <= i <= j < ws.len() ==> distinct_letters(#[trigger] ws[i]) <= distinct_letters(
            #[trigger] ws[j],
        )
}

/// The words of `ws` that have exactly `k` distinct letters, in their order.
pub open spec fn of_rank(ws: Seq<Seq<char>>, k: nat) -> Seq<Seq<char>> {
    ws.filter(|w: Seq<char>| distinct_letters(w) == k)
}

/// A rearrangement of words of the puzzle holds words of the puzzle.
pub proof fn lemma_rearranged_words(a: Seq<Seq<char>>, b: Seq<Seq<char>>)
    requires
        a.to_multiset() == b.to_multiset(),
        all_words(a),
    ensures
        all_words(b),
{
    a.to_multiset_ensures();
    b.to_multiset_ensures();
    assert forall|i: int| 0 <= i < b.len() implies is_word(#[trigger] b[i]) by {
        assert(b.contains(b[i]));
        assert(b.to_multiset().count(b[i]) > 0);
        assert(a.to_multiset().count(b[i]) > 0);
        assert(a.contains(b[i]));
        let j = choose|j: int| 0 <= j < a.len() && a[j] == b[i];
        assert(is_word(a[j]));
    }
}

/// A rearrangement of a sequence holds every word that the sequence holds.
pub proof fn lemma_rearranged_holds(a: Seq<Seq<char>>, b: Seq<Seq<char>>, w: Seq<char>)
    requires
        a.to_multiset() == b.to_multiset(),
        a.contains(w),
    ensures
        b.contains(w),
{
    a.to_multiset_ensures();
    b.to_multiset_ensures();
    assert(a.to_multiset().count(w) > 0);
    assert(b.to_multiset().count(w) > 0);
}

/// One more word examined: the survivors grow by it if the rule keeps it.
proof fn lemma_survivors_step(ws: Seq<Seq<char>>, i: int, rule: Rule)
    requires
        0 <= i < ws.len(),
    ensures
        survivors(ws.take(i + 1), rule) == if rule.keeps(ws[i]) {
            survivors(ws.take(i), rule).push(ws[i])
        } else {
            survivors(ws.take(i), rule)
        },
{
    assert(ws.take(i + 1) =~= ws.take(i).push(ws[i]));
    ws.take(i).lemma_filter_push(ws[i], |w: Seq<char>| rule.keeps(w));
}

/// Calls `fastrand::shuffle`, which swaps elements of the slice among
/// themselves: whatever the outcome, the same words are held as before.
#[verifier::external_body]
fn shuffle_words(words: &mut Vec<&'static str>)
    ensures
        views(final(words)@).to_multiset() == views(old(words)@).to_multiset(),
{
    fastrand::shuffle(words.as_mut_slice())
}

/// Calls `sort_by_cached_key` of std's slices with the number of distinct
/// letters as key: a stable sort, which leaves the same words in ascending
/// order of the key and keeps words of equal key in the order they had.
#[verifier::external_body]
fn sort_by_rank(words: &mut Vec<&'static str>)
    requires
        forall|i: int| 0 <= i < old(words)@.len() ==> all_lower(#[trigger] old(words)@[i]@),
    ensures
        views(final(words)@).to_multiset() == views(old(words)@).to_multiset(),
        ranked(views(final(words)@)),
        forall|k: nat| #[trigger] of_rank(views(final(words)@), k) == of_rank(views(old(words)@), k),
{
    words.sort_by_cached_key(|word| unique_letters_per_word(word))
}

/// Calls `fastrand::usize` with the range from zero up to `len`, which
/// panics on an empty range and else returns a number within the range.
#[verifier::external_body]
fn random_index(len: usize) -> (index: usize)
    requires
        len > 0,
    ensures
        index < len,
{
    fastrand::usize(0..len)
}

/// The pool of candidate words.
#[derive(Debug)]
pub struct WordPicker {
    remaining_words: Vec<&'static str>,
}

impl View for WordPicker {
    type V = Seq<Seq<char>>;

    closed spec fn view(&self) -> Seq<Seq<char>> {
        views(self.remaining_words@)
    }
}

impl WordPicker {
    /// The pool holds words of the puzzle in ascending order of rank.
    pub open spec fn wf(&self) -> bool {
        ranked(self@) && all_words(self@)
    }

    /// A pool of all the words of `universe`, shuffled and then ordered by
    /// their number of distinct letters, the most varied words last.
    pub fn new(universe: &[&'static str]) -> (pool: WordPicker)
        requires
            all_words(views(universe@)),
        ensures
            pool.wf(),
            pool@.to_multiset() == views(universe@).to_multiset(),
    {
        let mut words: Vec<&'static str> = Vec::new();
        let mut i: usize = 0;
        while i < universe.len()
            invariant
                i <= universe.len(),
                words@ == universe@.take(i as int),
            decreases universe.len() - i,
        {
            words.push(universe[i]);
            assert(universe@.take(i + 1) =~= universe@.take(i as int).push(universe@[i as int]));
            i += 1;
        }
        assert(words@ =~= universe@);
        shuffle_words(&mut words);
        proof {
            lemma_rearranged_words(views(universe@), views(words@));
            assert forall|i: int| 0 <= i < words@.len() implies all_lower(
                #[trigger] words@[i]@,
            ) by {
                assert(is_word(views(words@)[i]));
            }
        }
        sort_by_rank(&mut words);
        proof {
            lemma_rearranged_words(views(universe@), views(words@));
        }
        WordPicker { remaining_words: words }
    }

    /// The number of words in the pool.
    pub fn len(&self) -> (n: usize)
        ensures
            n == self@.len(),
    {
        self.remaining_words.len()
    }

    /// Keeps the words that `rule` keeps, in their order, and drops the rest.
    pub fn retain(&mut self, rule: Rule)
        requires
            old(self).wf(),
        ensures
            final(self).wf(),
            final(self)@ == survivors(old(self)@, rule),
            final(self)@.len() <= old(self)@.len(),
    {
        let mut kept: Vec<&'static str> = Vec::new();
        let n: usize = self.remaining_words.len();
        let mut i: usize = 0;
        while i < n
            invariant
                n == self.remaining_words@.len(),
                i <= n,
                self.wf(),
                kept@.len() <= i,
                views(kept@) == survivors(self@.take(i as int), rule),
                ranked(views(kept@)),
                all_words(views(kept@)),
                forall|a: int, j: int|
                    0 <= a < kept@.len() && i <= j < n ==> distinct_letters(
                        #[trigger] views(kept@)[a],
                    ) <= distinct_letters(#[trigger] self@[j]),
            decreases n - i,
        {
            let word: &'static str = self.remaining_words[i];
            let ghost before = views(kept@);
            proof {
                lemma_survivors_step(self@, i as int, rule);
                assert(self@[i as int] == word@);
            }
            if rule.keeps_word(word) {
                kept.push(word);
                assert(views(kept@) =~= before.push(word@));
            }
            i += 1;
        }
        assert(self@.take(n as int) =~= self@);
        self.remaining_words = kept;
    }

    /// Drops every word that contains `illegal_letter`.
    pub fn remove_words_containing(&mut self, illegal_letter: char)
        requires
            old(self).wf(),
            is_lower(illegal_letter),
        ensures
            final(self).wf(),
            final(self)@ == survivors(old(self)@, Rule::Without(illegal_letter)),
            final(self)@.len() <= old(self)@.len(),
    {
        self.retain(Rule::Without(illegal_letter))
    }

    /// Drops every word that has not `required_letter` at `required_position`.
    pub fn remove_words_without_letter_in_position(
        &mut self,
        required_letter: char,
        required_position: usize,
    )
        requires
            old(self).wf(),
            is_lower(required_letter),
            required_position < crate::words::NUM_LETTERS,
        ensures
            final(self).wf(),
            final(self)@ == survivors(old(self)@, Rule::At(required_letter, required_position)),
            final(self)@.len() <= old(self)@.len(),
    {
        self.retain(Rule::At(required_letter, required_position))
    }

    /// Drops every word that does not contain `required_letter`.
    pub fn remove_words_not_containing(&mut self, required_letter: char)
        requires
            old(self).wf(),
            is_lower(required_letter),
        ensures
            final(self).wf(),
            final(self)@ == survivors(old(self)@, Rule::With(required_letter)),
            final(self)@.len() <= old(self)@.len(),
    {
        self.retain(Rule::With(required_letter))
    }

    /// Takes the last word out of the pool: one with the most distinct
    /// letters of all. An empty pool gives `None`.
    pub fn pick_best_word(&mut self) -> (r: Option<&'static str>)
        requires
            old(self).wf(),
        ensures
            final(self).wf(),
            old(self)@.len() == 0 ==> r.is_none() && final(self)@ == old(self)@,
            old(self)@.len() > 0 ==> r.is_some() && r.unwrap()@ == old(self)@.last()
                && final(self)@ == old(self)@.drop_last(),
            r.is_some() ==> forall|i: int|
                0 <= i < old(self)@.len() ==> distinct_letters(#[trigger] old(self)@[i])
                    <= distinct_letters(r.unwrap()@),
    {
        let r = self.remaining_words.pop();
        assert(self@ =~= if old(self)@.len() > 0 {
            old(self)@.drop_last()
        } else {
            old(self)@
        });
        r
    }

    /// Takes the word at `index` out of the pool, the others keeping their
    /// order. An index beyond the pool gives `None`.
    pub fn pick_at(&mut self, index: usize) -> (r: Option<&'static str>)
        requires
            old(self).wf(),
        ensures
            final(self).wf(),
            index >= old(self)@.len() ==> r.is_none() && final(self)@ == old(self)@,
            index < old(self)@.len() ==> r.is_some() && r.unwrap()@ == old(self)@[index as int]
                && final(self)@ == old(self)@.remove(index as int),
    {
        if index < self.remaining_words.len() {
            let word = self.remaining_words.remove(index);
            assert(self@ =~= old(self)@.remove(index as int));
            assert forall|i: int| 0 <= i < self@.len() implies is_word(#[trigger] self@[i]) by {
                if i < index {
                    assert(self@[i] == old(self)@[i]);
                } else {
                    assert(self@[i] == old(self)@[i + 1]);
                }
            }
            assert forall|i: int, j: int| 0 <= i <= j < self@.len() implies distinct_letters(
                #[trigger] self@[i],
            ) <= distinct_letters(#[trigger] self@[j]) by {
                let a = if i < index { i } else { i + 1 };
                let b = if j < index { j } else { j + 1 };
                assert(self@[i] == old(self)@[a]);
                assert(self@[j] == old(self)@[b]);
            }
            Some(word)
        } else {
            None
        }
    }

    /// Takes a word out of the pool at an index drawn at random, the others
    /// keeping their order. An empty pool gives `None`.
    pub fn pick_random(&mut self) -> (r: Option<&'static str>)
        requires
            old(self).wf(),
        ensures
            final(self).wf(),
            old(self)@.len() == 0 ==> r.is_none() && final(self)@ == old(self)@,
            old(self)@.len() > 0 ==> r.is_some() && exists|i: int|
                0 <= i < old(self)@.len() && r.unwrap()@ == old(self)@[i] && final(self)@
                    == #[trigger] old(self)@.remove(i),
    {
        let n: usize = self.remaining_words.len();
        if n == 0 {
            None
        } else {
            let index: usize = random_index(n);
            self.pick_at(index)
        }
    }
}

} // verus!
