//! A steppable word value: one word understood as "the word at whatever
//! position it occupies in the dictionary table". It stores only the word;
//! every stepping operation recomputes the position by binary search.
//!
//! Every stepping operation demands that the words it is given are in the
//! table: that is a caller-enforced precondition, and the operations fail
//! fast where an unverified caller breaks it. Running past either end of
//! the table is the one expected "no value" outcome; it is how an iteration
//! over a range of words learns that the range is exhausted.

use core::cmp::Ordering;

use vstd::prelude::*;

use crate::dict::{dict_has, index_in, lemma_index_unique, Dict};
use crate::order::{lex_lt, str_eq, str_lt};

verus! {

/// A word in the dictionary.
///
/// Equality and ordering delegate to the underlying string, which agrees
/// with the table's sort order. The stepping operations panic when a word
/// is not in the dictionary: callers must only construct `Word`s from
/// dictionary members.
#[derive(Debug, Clone, Copy)]
pub struct Word<'a>(pub &'a str);

impl View for Word<'_> {
    type V = Seq<char>;

    open spec fn view(&self) -> Seq<char> {
        self.0@
    }
}

impl PartialEq for Word<'_> {
    fn eq(&self, other: &Self) -> (r: bool) {
        str_eq(self.0, other.0)
    }
}

impl vstd::std_specs::cmp::PartialEqSpecImpl for Word<'_> {
    open spec fn obeys_eq_spec() -> bool {
        true
    }

    open spec fn eq_spec(&self, other: &Self) -> bool {
        self.0@ == other.0@
    }
}

impl PartialOrd for Word<'_> {
    fn partial_cmp(&self, other: &Self) -> (r: Option<Ordering>) {
        if str_lt(self.0, other.0) {
            Some(Ordering::Less)
        } else if str_lt(other.0, self.0) {
            Some(Ordering::Greater)
        } else {
            Some(Ordering::Equal)
        }
    }
}

impl vstd::std_specs::cmp::PartialOrdSpecImpl for Word<'_> {
    open spec fn obeys_partial_cmp_spec() -> bool {
        true
    }

    open spec fn partial_cmp_spec(&self, other: &Self) -> Option<Ordering> {
        if lex_lt(self.0@, other.0@) {
            Some(Ordering::Less)
        } else if lex_lt(other.0@, self.0@) {
            Some(Ordering::Greater)
        } else {
            Some(Ordering::Equal)
        }
    }
}

impl<'a> Word<'a> {
    /// The underlying word, with no decoration.
    pub fn as_str(&self) -> (s: &'a str)
        ensures
            s@ == self@,
    {
        self.0
    }

    /// The position `start` occupies in the table. Both the precondition
    /// and the failure on its violation live here: where an unverified
    /// caller hands in a word outside the dictionary, the lookup fails
    /// loudly instead of returning an unrelated position.
    fn position(dict: &Dict, start: &Word<'a>) -> (i: usize)
        requires
            dict.wf(),
            dict_has(dict@, start@),
        ensures
            i == index_in(dict@, start@),
            i < dict@.len(),
            dict@[i as int] == start@,
    {
        proof {
            lemma_index_unique(dict@, start@);
        }
        match dict.index_of(start.0) {
            Some(i) => i,
            None => unreached(),
        }
    }

    /// The distance from `start` to `end` in dictionary positions: the
    /// difference of their table positions when `end` does not precede
    /// `start`, and `None` when it does.
    pub fn steps_between(dict: &Dict, start: &Word<'a>, end: &Word<'a>) -> (r: Option<usize>)
        requires
            dict.wf(),
            dict_has(dict@, start@),
            dict_has(dict@, end@),
        ensures
            ({
                let ia = index_in(dict@, start@);
                let ib = index_in(dict@, end@);
                if ia <= ib {
                    r == Some((ib - ia) as usize)
                } else {
                    r is None
                }
            }),
    {
        let ia = Word::position(dict, start);
        let ib = Word::position(dict, end);
        if ia <= ib {
            Some(ib - ia)
        } else {
            None
        }
    }

    /// The word `count` positions after `start`, or `None` when that runs
    /// past the end of the table.
    pub fn forward_checked(dict: &'a Dict, start: Word<'a>, count: usize) -> (r: Option<Word<'a>>)
        requires
            dict.wf(),
            dict_has(dict@, start@),
        ensures
            ({
                let i = index_in(dict@, start@);
                match r {
                    Some(w) => i + count < dict@.len() && w@ == dict@[i + count],
                    None => i + count >= dict@.len(),
                }
            }),
    {
        let i = Word::position(dict, &start);
        let n = dict.len();
        if count < n - i {
            Some(Word(dict.word_at(i + count)))
        } else {
            None
        }
    }

    /// The word `count` positions before `start`, or `None` when that runs
    /// past the front of the table. A count larger than the position is
    /// detected, never wrapped around.
    pub fn backward_checked(dict: &'a Dict, start: Word<'a>, count: usize) -> (r: Option<Word<'a>>)
        requires
            dict.wf(),
            dict_has(dict@, start@),
        ensures
            ({
                let i = index_in(dict@, start@);
                match r {
                    Some(w) => count <= i && w@ == dict@[i - count],
                    None => count > i,
                }
            }),
    {
        let i = Word::position(dict, &start);
        if count <= i {
            Some(Word(dict.word_at(i - count)))
        } else {
            None
        }
    }
}

} // verus!
