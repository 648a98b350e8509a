//! Canonical rotation of a cycle's identifier sequence: the cycle is rotated,
//! never reversed, so that the lexicographically smallest identifier comes
//! first, and equal cycles compare equal regardless of discovery order.

use vstd::prelude::*;
use crate::order::{lex_lt, min_pos, lemma_min_pos, lemma_min_pos_zero, lemma_lex_lt_connected,
    min_index};

verus! {

/// The left rotation of `s` by `k` places: element `k` comes first, relative
/// order is preserved.
pub open spec fn rotate_left<T>(s: Seq<T>, k: int) -> Seq<T> {
    s.subrange(k, s.len() as int) + s.subrange(0, k)
}

/// Whether `a` is some left rotation of `b`.
pub open spec fn is_rotation_of<T>(a: Seq<T>, b: Seq<T>) -> bool {
    exists|k: int| 0 <= k < b.len() && a == rotate_left(b, k)
}

/// The canonical form of a cycle's identifier sequence: rotated so that the
/// first occurrence of the smallest identifier comes first.
pub open spec fn canonical(s: Seq<Seq<char>>) -> Seq<Seq<char>> {
    rotate_left(s, min_pos(s))
}

pub proof fn lemma_rotate_index<T>(s: Seq<T>, k: int, i: int)
    requires
        0 <= k <= s.len(),
        0 <= i < s.len(),
    ensures
        rotate_left(s, k).len() == s.len(),
        rotate_left(s, k)[i] == (if i < s.len() - k {
            s[i + k]
        } else {
            s[i + k - s.len()]
        }),
{
}

pub proof fn lemma_rotate_compose<T>(s: Seq<T>, k: int, j: int)
    requires
        0 <= k < s.len(),
        0 <= j < s.len(),
    ensures
        rotate_left(rotate_left(s, k), j) == rotate_left(s, if k + j < s.len() {
            k + j
        } else {
            k + j - s.len()
        }),
{
    let n = s.len() as int;
    let q = if k + j < n { k + j } else { k + j - n };
    let t = rotate_left(s, k);
    assert(t.len() == n);
    assert forall|i: int| 0 <= i < n implies rotate_left(t, j)[i] == rotate_left(s, q)[i] by {
        lemma_rotate_index(t, j, i);
        lemma_rotate_index(s, q, i);
        let ti = if i < n - j { i + j } else { i + j - n };
        lemma_rotate_index(s, k, ti);
    }
    assert(rotate_left(t, j) =~= rotate_left(s, q));
}

/// Canonicalization is idempotent: an already-canonical cycle is returned
/// unchanged.
pub proof fn lemma_canonical_idempotent(s: Seq<Seq<char>>)
    ensures
        canonical(canonical(s)) == canonical(s),
{
    if s.len() == 0 {
        assert(canonical(s) =~= s);
        assert(canonical(canonical(s)) =~= s);
    } else {
        lemma_min_pos(s);
        let m = min_pos(s);
        let c = canonical(s);
        assert(c.len() == s.len());
        assert forall|j: int| 0 <= j < c.len() implies !lex_lt(c[j], c[0]) by {
            lemma_rotate_index(s, m, j);
            lemma_rotate_index(s, m, 0);
        }
        lemma_min_pos_zero(c);
        assert(rotate_left(c, 0) =~= c);
    }
}

/// Rotation invariance: as long as the identifiers of a cycle are pairwise
/// distinct, every rotation of the cycle canonicalizes to the same sequence.
pub proof fn lemma_canonical_rotation_invariant(s: Seq<Seq<char>>, k: int)
    requires
        0 <= k < s.len(),
        forall|i: int, j: int| 0 <= i < j < s.len() ==> s[i] != s[j],
    ensures
        canonical(rotate_left(s, k)) == canonical(s),
{
    let n = s.len() as int;
    let t = rotate_left(s, k);
    assert(t.len() == n);
    lemma_min_pos(s);
    lemma_min_pos(t);
    let m = min_pos(s);
    let mt = min_pos(t);
    let g = if mt + k < n { mt + k } else { mt + k - n };
    lemma_rotate_index(s, k, mt);
    assert(t[mt] == s[g]);
    assert forall|j: int| 0 <= j < n implies !lex_lt(s[j], s[g]) by {
        let jp = if j - k >= 0 { j - k } else { j - k + n };
        lemma_rotate_index(s, k, jp);
        assert(t[jp] == s[j]);
        assert(!lex_lt(t[jp], t[mt]));
    }
    if g != m {
        assert(!lex_lt(s[g], s[m]));
        assert(!lex_lt(s[m], s[g]));
        lemma_lex_lt_connected(s[g], s[m]);
        if g < m {
            assert(s[g] != s[m]);
        } else {
            assert(s[m] != s[g]);
        }
        assert(false);
    }
    lemma_rotate_compose(s, k, mt);
}

/// Rotates `ids` so that the first occurrence of its lexicographically
/// smallest identifier comes first.
pub fn canonicalize(ids: &Vec<String>) -> (r: Vec<String>)
    ensures
        r.deep_view() == canonical(ids.deep_view()),
        r@.len() == ids@.len(),
{
    let ghost dv = ids.deep_view();
    let n = ids.len();
    if n == 0 {
        let r: Vec<String> = Vec::new();
        proof {
            assert(r.deep_view() =~= canonical(dv));
        }
        return r;
    }
    let m = min_index(ids);
    proof {
        lemma_min_pos(dv);
    }
    let mut out: Vec<String> = Vec::new();
    let mut i: usize = m;
    while i < n
        invariant
            m <= i <= n,
            n == ids@.len(),
            m == min_pos(dv),
            0 <= m < n,
            dv == ids.deep_view(),
            out@.len() == i - m,
            forall|j: int| 0 <= j < out@.len() ==> out@[j]@ == dv[m + j],
        decreases n - i,
    {
        out.push(ids[i].clone());
        i = i + 1;
    }
    let mut j: usize = 0;
    while j < m
        invariant
            0 <= j <= m < n,
            n == ids@.len(),
            m == min_pos(dv),
            dv == ids.deep_view(),
            out@.len() == (n - m) + j,
            forall|p: int| 0 <= p < n - m ==> out@[p]@ == dv[m + p],
            forall|p: int| n - m <= p < out@.len() ==> out@[p]@ == dv[p - (n - m)],
        decreases m - j,
    {
        out.push(ids[j].clone());
        j = j + 1;
    }
    proof {
        assert forall|p: int| 0 <= p < n implies out.deep_view()[p] == canonical(dv)[p] by {
            lemma_rotate_index(dv, m as int, p);
            assert(out.deep_view()[p] == out@[p]@);
        }
        assert(out.deep_view() =~= canonical(dv));
    }
    out
}

} // verus!
