//! The word source: the immutable vocabulary of guessable words,
//! loaded once at startup and consulted for target selection and for
//! guess validation.
use crate::game::{is_lower_alpha, word_wf, WORD_LENGTH};
use vstd::prelude::*;

verus! {

/// The words of `s` that are well-formed, in their original order.
pub open spec fn spec_valid_words(s: Seq<Seq<char>>) -> Seq<Seq<char>>
    decreases s.len(),
{
    if s.len() == 0 {
        Seq::empty()
    } else {
        let rest = spec_valid_words(s.drop_last());
        if word_wf(s.last()) {
            rest.push(s.last())
        } else {
            rest
        }
    }
}

/// Whether every character of `w` is a lowercase ASCII letter, and
/// `w` has exactly `WORD_LENGTH` of them.
pub fn check_word_shape(w: &String) -> (r: bool)
    ensures
        r == word_wf(w@),
{
    let chars = crate::game::str_chars(w.as_str());
    if chars.len() != WORD_LENGTH {
        return false;
    }
    let n = chars.len();
    for i in 0..n
        invariant
            n == w@.len(),
            chars@ == w@,
            forall|k: int| 0 <= k < i ==> is_lower_alpha(#[trigger] w@[k]),
    {
        let u = chars[i] as u32;
        if u < 97 || u > 122 {
            return false;
        }
    }
    true
}

/// The vocabulary: an immutable list of well-formed words. Entries of
/// the supplied list that are not well-formed words are left out at
/// construction; the rest keep their order.
pub struct WordList {
    words: Vec<String>,
}

impl View for WordList {
    type V = Seq<Seq<char>>;

    closed spec fn view(&self) -> Seq<Seq<char>> {
        self.words.deep_view()
    }
}

impl WordList {
    /// Every word of the vocabulary is well-formed. Holds of every
    /// `WordList` by construction.
    pub open spec fn wf(&self) -> bool {
        forall|i: int| 0 <= i < self@.len() ==> word_wf(#[trigger] self@[i])
    }

    /// Build the vocabulary from a supplied word list, keeping exactly
    /// its well-formed entries, in order.
    pub fn new(supplied: Vec<String>) -> (r: WordList)
        ensures
            r.wf(),
            r@ == spec_valid_words(supplied.deep_view()),
    {
        let n = supplied.len();
        let mut words: Vec<String> = Vec::new();
        for i in 0..n
            invariant
                n == supplied@.len(),
                words.deep_view() == spec_valid_words(supplied.deep_view().subrange(0, i as int)),
                forall|k: int|
                    0 <= k < words.deep_view().len() ==> word_wf(#[trigger] words.deep_view()[k]),
        {
            let ghost prefix = supplied.deep_view().subrange(0, i as int);
            let ghost prefix1 = supplied.deep_view().subrange(0, i + 1);
            assert(prefix1.drop_last() =~= prefix);
            assert(prefix1.last() == supplied.deep_view()[i as int]);
            if check_word_shape(&supplied[i]) {
                words.push(supplied[i].clone());
                assert(words.deep_view() =~= spec_valid_words(prefix).push(
                    supplied.deep_view()[i as int],
                ));
            }
        }
        assert(supplied.deep_view().subrange(0, supplied.deep_view().len() as int) =~= supplied.deep_view());
        WordList { words }
    }

    /// How many words the vocabulary holds.
    pub fn len(&self) -> (r: usize)
        ensures
            r == self@.len(),
    {
        self.words.len()
    }

    /// Whether `w` is a word of the vocabulary.
    pub fn contains(&self, w: &String) -> (r: bool)
        ensures
            r == self@.contains(w@),
    {
        let n = self.words.len();
        for i in 0..n
            invariant
                n == self@.len(),
                forall|k: int| 0 <= k < i ==> self@[k] != w@,
        {
            if self.words[i].eq(w) {
                assert(self@[i as int] == w@);
                return true;
            }
        }
        false
    }

    /// A copy of the word at index `i`.
    pub fn get_word(&self, i: usize) -> (r: String)
        requires
            self.wf(),
            i < self@.len(),
        ensures
            r@ == self@[i as int],
            word_wf(r@),
    {
        assert(word_wf(self@[i as int]));
        self.words[i].clone()
    }
}

} // verus!
