//! Lexicographic ordering of words, as sequences of characters.
//!
//! The dictionary table is sorted by this order, and the ordering of
//! steppable word values delegates to it. The order compares code points
//! position by position; a proper prefix precedes its extensions. On the
//! ASCII words a dictionary holds this agrees with byte order.

use vstd::prelude::*;
use vstd::string::StrSliceExecFns;

verus! {

/// Strict lexicographic order on character sequences: `a` comes before `b`.
pub open spec fn lex_lt(a: Seq<char>, b: Seq<char>) -> bool
    decreases a.len(),
{
    if b.len() == 0 {
        false
    } else if a.len() == 0 {
        true
    } else if (a[0] as int) < (b[0] as int) {
        true
    } else if a[0] == b[0] {
        lex_lt(a.subrange(1, a.len() as int), b.subrange(1, b.len() as int))
    } else {
        false
    }
}

/// No word comes before itself.
pub proof fn lemma_lex_lt_irreflexive(a: Seq<char>)
    ensures
        !lex_lt(a, a),
    decreases a.len(),
{
    if a.len() > 0 {
        lemma_lex_lt_irreflexive(a.subrange(1, a.len() as int));
    }
}

/// Any two distinct words are ordered one way or the other.
pub proof fn lemma_lex_lt_connected(a: Seq<char>, b: Seq<char>)
    requires
        a != b,
    ensures
        lex_lt(a, b) || lex_lt(b, a),
    decreases a.len(),
{
    if a.len() == 0 {
        assert(b.len() > 0) by {
            if b.len() == 0 {
                assert(a =~= b);
            }
        }
    } else if b.len() == 0 {
    } else if a[0] == b[0] {
        let at = a.subrange(1, a.len() as int);
        let bt = b.subrange(1, b.len() as int);
        assert(at != bt) by {
            if at == bt {
                assert(at.len() == bt.len());
                assert(a.len() == b.len());
                assert forall|k: int| 0 <= k < a.len() implies a[k] == b[k] by {
                    if k >= 1 {
                        assert(at[k - 1] == bt[k - 1]);
                    }
                }
                assert(a =~= b);
            }
        }
        lemma_lex_lt_connected(at, bt);
    }
}

/// The order is transitive.
pub proof fn lemma_lex_lt_transitive(a: Seq<char>, b: Seq<char>, c: Seq<char>)
    requires
        lex_lt(a, b),
        lex_lt(b, c),
    ensures
        lex_lt(a, c),
    decreases a.len(),
{
    if b.len() == 0 || c.len() == 0 || a.len() == 0 {
    } else if a[0] == b[0] && b[0] == c[0] {
        lemma_lex_lt_transitive(
            a.subrange(1, a.len() as int),
            b.subrange(1, b.len() as int),
            c.subrange(1, c.len() as int),
        );
    }
}

/// Two words ordered both ways would contradict irreflexivity.
pub proof fn lemma_lex_lt_asymmetric(a: Seq<char>, b: Seq<char>)
    requires
        lex_lt(a, b),
    ensures
        !lex_lt(b, a),
{
    if lex_lt(b, a) {
        lemma_lex_lt_transitive(a, b, a);
        lemma_lex_lt_irreflexive(a);
    }
}

/// Decides the strict lexicographic order of two strings.
pub fn str_lt(a: &str, b: &str) -> (r: bool)
    ensures
        r == lex_lt(a@, b@),
{
    let a_len = a.unicode_len();
    let b_len = b.unicode_len();
    let mut i: usize = 0;
    proof {
        assert(a@.subrange(0, a_len as int) =~= a@);
        assert(b@.subrange(0, b_len as int) =~= b@);
    }
    loop
        invariant
            i <= a_len,
            i <= b_len,
            a_len == a@.len(),
            b_len == b@.len(),
            lex_lt(a@, b@) == lex_lt(
                a@.subrange(i as int, a_len as int),
                b@.subrange(i as int, b_len as int),
            ),
        decreases a_len - i,
    {
        let ghost ra = a@.subrange(i as int, a_len as int);
        let ghost rb = b@.subrange(i as int, b_len as int);
        if i == b_len {
            return false;
        }
        if i == a_len {
            return true;
        }
        let ca = a.get_char(i);
        let cb = b.get_char(i);
        if ca as u32 != cb as u32 {
            proof {
                assert(ra[0] == ca && rb[0] == cb);
            }
            return (ca as u32) < (cb as u32);
        }
        proof {
            assert(ca == cb);
            assert(ra[0] == ca && rb[0] == cb);
            assert(ra.subrange(1, ra.len() as int) =~= a@.subrange(i + 1, a_len as int));
            assert(rb.subrange(1, rb.len() as int) =~= b@.subrange(i + 1, b_len as int));
        }
        i = i + 1;
    }
}

/// Decides string equality, through the order's connectedness.
pub fn str_eq(a: &str, b: &str) -> (r: bool)
    ensures
        r == (a@ == b@),
{
    if str_lt(a, b) {
        proof {
            lemma_lex_lt_irreflexive(a@);
        }
        false
    } else if str_lt(b, a) {
        proof {
            lemma_lex_lt_irreflexive(a@);
        }
        false
    } else {
        proof {
            if a@ != b@ {
                lemma_lex_lt_connected(a@, b@);
            }
        }
        true
    }
}

} // verus!
