//! The library's general laws, stated and proved over the spec-level model
//! that the operations' contracts use: the table as a sequence of words,
//! `index_in` for positions, and the lexicographic order.

use core::cmp::Ordering;

use vstd::prelude::*;
use vstd::std_specs::cmp::PartialOrdSpec;

use crate::dict::{dict_has, index_in, lemma_index_unique, sorted_strict};
use crate::order::{lemma_lex_lt_asymmetric, lemma_lex_lt_irreflexive, lex_lt};
use crate::word::Word;

verus! {

/// Bijection with the index space: the word stored at position `i` is in
/// the dictionary, and its position is `i` again (round trip).
pub proof fn lemma_index_roundtrip(d: Seq<Seq<char>>, i: int)
    requires
        sorted_strict(d),
        0 <= i < d.len(),
    ensures
        dict_has(d, d[i]),
        index_in(d, d[i]) == i,
{
    assert(dict_has(d, d[i]));
    lemma_index_unique(d, d[i]);
}

/// Distance symmetry: when `a` does not come after `b`, stepping forward
/// from `a` by the distance between them lands exactly on `b`. Together
/// with the contracts of `steps_between` and `forward_checked` this says
/// `forward_checked(a, steps_between(a, b))` returns `b`.
pub proof fn lemma_distance_symmetry(d: Seq<Seq<char>>, a: Seq<char>, b: Seq<char>)
    requires
        sorted_strict(d),
        dict_has(d, a),
        dict_has(d, b),
        index_in(d, a) <= index_in(d, b),
    ensures
        index_in(d, a) + (index_in(d, b) - index_in(d, a)) < d.len(),
        d[index_in(d, a) + (index_in(d, b) - index_in(d, a))] == b,
{
    lemma_index_unique(d, a);
    lemma_index_unique(d, b);
}

/// Step identity: a zero-count step, forward or backward, stays at `w`.
/// With the stepping contracts this says `forward_checked(w, 0)` and
/// `backward_checked(w, 0)` both return `w` itself.
pub proof fn lemma_step_identity(d: Seq<Seq<char>>, w: Seq<char>)
    requires
        sorted_strict(d),
        dict_has(d, w),
    ensures
        index_in(d, w) + 0 < d.len(),
        d[index_in(d, w) + 0] == w,
        index_in(d, w) - 0 >= 0,
        d[index_in(d, w) - 0] == w,
{
    lemma_index_unique(d, w);
}

/// Boundary termination: one forward step from the last word runs past the
/// table, as does one backward step from the first word. With the stepping
/// contracts this says both steps return no value.
pub proof fn lemma_boundary_termination(d: Seq<Seq<char>>)
    requires
        sorted_strict(d),
        d.len() > 0,
    ensures
        dict_has(d, d[d.len() - 1]),
        index_in(d, d[d.len() - 1]) + 1 >= d.len(),
        dict_has(d, d[0]),
        index_in(d, d[0]) < 1,
{
    lemma_index_roundtrip(d, d.len() - 1);
    lemma_index_roundtrip(d, 0);
}

/// Monotonic ordering: for two in-dictionary words, the ordering of their
/// steppable values, the plain lexicographic order of the strings, and the
/// order of their table positions all agree.
pub proof fn lemma_order_matches_strings<'a>(d: Seq<Seq<char>>, a: Word<'a>, b: Word<'a>)
    requires
        sorted_strict(d),
        dict_has(d, a@),
        dict_has(d, b@),
    ensures
        (a.partial_cmp_spec(&b) == Some(Ordering::Less)) <==> lex_lt(a@, b@),
        (a.partial_cmp_spec(&b) == Some(Ordering::Equal)) <==> a@ == b@,
        lex_lt(a@, b@) <==> index_in(d, a@) < index_in(d, b@),
        (a@ == b@) <==> index_in(d, a@) == index_in(d, b@),
{
    lemma_index_unique(d, a@);
    lemma_index_unique(d, b@);
    let ia = index_in(d, a@);
    let ib = index_in(d, b@);
    if ia < ib {
        assert(lex_lt(a@, b@));
        lemma_lex_lt_asymmetric(a@, b@);
        lemma_lex_lt_irreflexive(a@);
    } else if ia == ib {
        assert(a@ == b@);
        lemma_lex_lt_irreflexive(a@);
    } else {
        assert(lex_lt(b@, a@));
        lemma_lex_lt_asymmetric(b@, a@);
        lemma_lex_lt_irreflexive(a@);
    }
}

} // verus!
