//! The dictionary table: a fixed, lexicographically sorted, duplicate-free
//! sequence of words. It is built once from a pre-validated word list and
//! never mutated; its one lookup operation is a binary search for a word's
//! position.

use vstd::prelude::*;

use crate::order::{
    lemma_lex_lt_connected, lemma_lex_lt_irreflexive, lemma_lex_lt_transitive, lex_lt, str_lt,
};

verus! {

/// Strict sortedness of a word table: earlier entries come strictly before
/// later ones, which also rules out duplicates.
pub open spec fn sorted_strict(d: Seq<Seq<char>>) -> bool {
    forall|i: int, j: int| 0 <= i < j < d.len() ==> lex_lt(d[i], d[j])
}

/// The word `w` occurs somewhere in the table `d`.
pub open spec fn dict_has(d: Seq<Seq<char>>, w: Seq<char>) -> bool {
    exists|i: int| 0 <= i < d.len() && d[i] == w
}

/// The position of `w` in `d`; meaningful only when `dict_has(d, w)`.
pub open spec fn index_in(d: Seq<Seq<char>>, w: Seq<char>) -> int {
    choose|i: int| 0 <= i < d.len() && d[i] == w
}

/// In a strictly sorted table a word occurs at exactly one position, and
/// `index_in` names it.
pub proof fn lemma_index_unique(d: Seq<Seq<char>>, w: Seq<char>)
    requires
        sorted_strict(d),
        dict_has(d, w),
    ensures
        0 <= index_in(d, w) < d.len(),
        d[index_in(d, w)] == w,
        forall|j: int| 0 <= j < d.len() && d[j] == w ==> j == index_in(d, w),
{
    let i = index_in(d, w);
    assert(0 <= i < d.len() && d[i] == w);
    assert forall|j: int| 0 <= j < d.len() && d[j] == w implies j == i by {
        if j != i {
            lemma_lex_lt_irreflexive(w);
        }
    }
}

/// The dictionary table. The word list it is built from must be sorted
/// ascending without duplicates; the table assumes this and never validates
/// it at runtime.
pub struct Dict {
    words: Vec<String>,
}

impl View for Dict {
    type V = Seq<Seq<char>>;

    closed spec fn view(&self) -> Seq<Seq<char>> {
        self.words.deep_view()
    }
}

impl Dict {
    /// The table's invariant: its entries are strictly sorted.
    pub open spec fn wf(&self) -> bool {
        sorted_strict(self@)
    }

    /// Builds the table from a pre-sorted, duplicate-free word list.
    /// Sortedness is the supplier's obligation, never checked at runtime.
    pub fn new(words: Vec<String>) -> (d: Dict)
        requires
            sorted_strict(words.deep_view()),
        ensures
            d@ == words.deep_view(),
            d.wf(),
    {
        Dict { words }
    }

    /// The number of words in the table.
    pub fn len(&self) -> (n: usize)
        ensures
            n == self@.len(),
    {
        self.words.len()
    }

    /// The word stored at position `i`.
    pub fn word_at(&self, i: usize) -> (w: &str)
        requires
            i < self@.len(),
        ensures
            w@ == self@[i as int],
    {
        self.words[i].as_str()
    }

    /// Binary search: the position of `w` in the table, or `None` when `w`
    /// is not a dictionary word.
    pub fn index_of(&self, w: &str) -> (r: Option<usize>)
        requires
            self.wf(),
        ensures
            match r {
                Some(i) => i < self@.len() && self@[i as int] == w@,
                None => !dict_has(self@, w@),
            },
    {
        let ghost d = self@;
        let mut lo: usize = 0;
        let mut hi: usize = self.words.len();
        while lo < hi
            invariant
                lo <= hi <= d.len(),
                self.wf(),
                d == self@,
                d.len() == self.words.len(),
                forall|k: int| 0 <= k < lo ==> lex_lt(d[k], w@),
                forall|k: int| hi <= k < d.len() ==> lex_lt(w@, d[k]),
            decreases hi - lo,
        {
            let mid = lo + (hi - lo) / 2;
            let entry = self.words[mid].as_str();
            proof {
                assert(entry@ == d[mid as int]);
            }
            if str_lt(entry, w) {
                proof {
                    assert forall|k: int| 0 <= k < mid + 1 implies lex_lt(d[k], w@) by {
                        if k < mid {
                            lemma_lex_lt_transitive(d[k], d[mid as int], w@);
                        }
                    }
                }
                lo = mid + 1;
            } else if str_lt(w, entry) {
                proof {
                    assert forall|k: int| mid <= k < d.len() implies lex_lt(w@, d[k]) by {
                        if k > mid {
                            lemma_lex_lt_transitive(w@, d[mid as int], d[k]);
                        }
                    }
                }
                hi = mid;
            } else {
                proof {
                    if entry@ != w@ {
                        lemma_lex_lt_connected(entry@, w@);
                    }
                }
                return Some(mid);
            }
        }
        proof {
            lemma_lex_lt_irreflexive(w@);
        }
        None
    }
}

} // verus!
