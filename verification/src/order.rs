//! Lexicographic order on identifier character sequences, and the position of
//! the smallest identifier in a sequence of identifiers.

use vstd::prelude::*;

verus! {

/// Strict lexicographic order on character sequences, comparing characters by
/// code point.
pub open spec fn lex_lt(a: Seq<char>, b: Seq<char>) -> bool
    decreases a.len(),
{
    if b.len() == 0 {
        false
    } else if a.len() == 0 {
        true
    } else if a[0] != b[0] {
        (a[0] as nat) < (b[0] as nat)
    } else {
        lex_lt(a.drop_first(), b.drop_first())
    }
}

pub proof fn lemma_lex_lt_irreflexive(a: Seq<char>)
    ensures
        !lex_lt(a, a),
    decreases a.len(),
{
    if a.len() > 0 && lex_lt(a, a) {
        lemma_lex_lt_irreflexive(a.drop_first());
    }
}

/// Characters with equal code points are equal.
proof fn lemma_char_code_eq(a: char, b: char)
    requires
        (a as nat) == (b as nat),
    ensures
        a == b,
{
}

/// Two sequences that are not ordered either way are equal.
pub proof fn lemma_lex_lt_connected(a: Seq<char>, b: Seq<char>)
    requires
        !lex_lt(a, b),
        !lex_lt(b, a),
    ensures
        a == b,
    decreases a.len(),
{
    if a.len() == 0 {
        assert(b.len() == 0);
        assert(a =~= b);
    } else {
        assert(b.len() > 0);
        let a0 = a[0];
        let b0 = b[0];
        if a0 != b0 {
            assert(!((a0 as nat) < (b0 as nat)));
            assert(!((b0 as nat) < (a0 as nat)));
            lemma_char_code_eq(a0, b0);
            assert(false);
        }
        lemma_lex_lt_connected(a.drop_first(), b.drop_first());
        assert(a =~= seq![a[0]] + a.drop_first());
        assert(b =~= seq![b[0]] + b.drop_first());
    }
}

pub proof fn lemma_lex_lt_transitive(a: Seq<char>, b: Seq<char>, c: Seq<char>)
    requires
        lex_lt(a, b),
        lex_lt(b, c),
    ensures
        lex_lt(a, c),
    decreases a.len(),
{
    if a.len() == 0 {
        assert(c.len() > 0);
    } else {
        assert(b.len() > 0 && c.len() > 0);
        if a[0] == b[0] && b[0] == c[0] {
            lemma_lex_lt_transitive(a.drop_first(), b.drop_first(), c.drop_first());
        }
    }
}

/// The position of the first occurrence of the lexicographically smallest
/// element of `s`; `0` when `s` is empty.
pub open spec fn min_pos(s: Seq<Seq<char>>) -> int
    decreases s.len(),
{
    if s.len() <= 1 {
        0
    } else {
        let p = min_pos(s.drop_last());
        if lex_lt(s.last(), s[p]) {
            s.len() - 1
        } else {
            p
        }
    }
}

pub proof fn lemma_min_pos(s: Seq<Seq<char>>)
    requires
        s.len() > 0,
    ensures
        0 <= min_pos(s) < s.len(),
        forall|j: int| 0 <= j < s.len() ==> !lex_lt(s[j], s[min_pos(s)]),
        forall|j: int| 0 <= j < min_pos(s) ==> lex_lt(s[min_pos(s)], s[j]),
    decreases s.len(),
{
    if s.len() == 1 {
        assert forall|j: int| 0 <= j < s.len() implies !lex_lt(s[j], s[min_pos(s)]) by {
            lemma_lex_lt_irreflexive(s[0]);
        }
    } else {
        let t = s.drop_last();
        let p = min_pos(t);
        lemma_min_pos(t);
        let m = min_pos(s);
        if lex_lt(s.last(), s[p]) {
            assert(m == s.len() - 1);
            assert forall|j: int| 0 <= j < s.len() implies !lex_lt(s[j], s[m]) by {
                if j < s.len() - 1 {
                    if lex_lt(s[j], s[m]) {
                        lemma_lex_lt_transitive(t[j], s[m], s[p]);
                    }
                } else {
                    lemma_lex_lt_irreflexive(s[m]);
                }
            }
            assert forall|j: int| 0 <= j < m implies lex_lt(s[m], s[j]) by {
                assert(s[j] == t[j]);
                assert(!lex_lt(s[j], s[p]));
                if lex_lt(s[p], s[j]) {
                    lemma_lex_lt_transitive(s[m], s[p], s[j]);
                } else {
                    lemma_lex_lt_connected(s[j], s[p]);
                }
            }
        } else {
            assert(m == p);
            assert forall|j: int| 0 <= j < s.len() implies !lex_lt(s[j], s[m]) by {
                if j < s.len() - 1 {
                    assert(s[j] == t[j]);
                }
            }
            assert forall|j: int| 0 <= j < m implies lex_lt(s[m], s[j]) by {
                assert(s[j] == t[j] && s[m] == t[p]);
            }
        }
    }
}

/// If the first element of `s` is no larger than any other element, the first
/// minimal position is `0`.
pub proof fn lemma_min_pos_zero(s: Seq<Seq<char>>)
    requires
        s.len() > 0,
        forall|j: int| 0 <= j < s.len() ==> !lex_lt(s[j], s[0]),
    ensures
        min_pos(s) == 0,
{
    lemma_min_pos(s);
    let m = min_pos(s);
    if m > 0 {
        assert(lex_lt(s[m], s[0]));
    }
}

/// Relies on `str`'s `PartialOrd`: `<` on strings is byte-lexicographic, which
/// for UTF-8 text coincides with lexicographic order by character code point.
#[verifier::external_body]
pub(crate) fn str_lt(a: &str, b: &str) -> (r: bool)
    ensures
        r == lex_lt(a@, b@),
{
    a < b
}

/// Returns the position of the first occurrence of the lexicographically
/// smallest string in `ids`.
pub fn min_index(ids: &Vec<String>) -> (r: usize)
    requires
        ids@.len() > 0,
    ensures
        r == min_pos(ids.deep_view()),
{
    let ghost dv = ids.deep_view();
    let mut best: usize = 0;
    let mut i: usize = 1;
    proof {
        assert(dv.take(1).len() == 1);
        assert(min_pos(dv.take(1)) == 0);
    }
    while i < ids.len()
        invariant
            1 <= i <= ids@.len(),
            best < i,
            dv == ids.deep_view(),
            dv.len() == ids@.len(),
            best == min_pos(dv.take(i as int)),
        decreases ids@.len() - i,
    {
        proof {
            assert(dv.take(i + 1).drop_last() =~= dv.take(i as int));
            assert(dv.take(i + 1).last() == dv[i as int]);
            assert(dv[i as int] == ids@[i as int]@);
            assert(dv[best as int] == ids@[best as int]@);
        }
        if str_lt(ids[i].as_str(), ids[best].as_str()) {
            best = i;
        }
        i = i + 1;
    }
    proof {
        assert(dv.take(dv.len() as int) =~= dv);
    }
    best
}

} // verus!
