//! The governing laws of the canonical form, stated and proved once over
//! the views that the operations' contracts use.

use vstd::prelude::*;

use crate::poly::TermV;
use crate::poly::coeff_at;
use crate::poly::is_canonical;
use crate::poly::lemma_canonical_unique;
use crate::poly::sem_eq;
use crate::poly::tdeg;
use crate::poly::term_before;

verus! {

/// Idempotence: canonicalizing an already-canonical polynomial returns it
/// unchanged.  With `q` an outcome of `simplify` on `p` and `r` an outcome
/// of `simplify` on `q`, the second pass is the identity: `r == q`.
pub proof fn lemma_simplify_idempotent(p: Seq<TermV>, q: Seq<TermV>, r: Seq<TermV>)
    requires
        is_canonical(q),
        sem_eq(q, p),
        is_canonical(r),
        sem_eq(r, q),
    ensures
        r == q,
{
    lemma_canonical_unique(r, q);
}

/// Canonical uniqueness: two raw polynomials denoting the same mathematical
/// polynomial canonicalize to the same representation.
pub proof fn lemma_canonical_uniqueness(
    p1: Seq<TermV>,
    p2: Seq<TermV>,
    q1: Seq<TermV>,
    q2: Seq<TermV>,
)
    requires
        sem_eq(p1, p2),
        is_canonical(q1),
        sem_eq(q1, p1),
        is_canonical(q2),
        sem_eq(q2, p2),
    ensures
        q1 == q2,
{
    assert forall|m: Seq<crate::poly::VarV>|
        #![trigger coeff_at(q1, m), coeff_at(q2, m)]
        coeff_at(q1, m) == coeff_at(q2, m) by {
        assert(coeff_at(q1, m) == coeff_at(p1, m));
        assert(coeff_at(p1, m) == coeff_at(p2, m));
        assert(coeff_at(q2, m) == coeff_at(p2, m));
    }
    lemma_canonical_unique(q1, q2);
}

/// Zero elimination: after canonicalization no term has a zero coefficient
/// and no variable has degree zero.
pub proof fn lemma_zero_elimination(s: Seq<TermV>)
    requires
        is_canonical(s),
    ensures
        forall|i: int| 0 <= i < s.len() ==> (#[trigger] s[i]).coeff.n != 0,
        forall|i: int, j: int| 0 <= i < s.len() && 0 <= j < (#[trigger] s[i]).vars.len()
            ==> (#[trigger] s[i].vars[j]).deg >= 1,
{
    assert forall|i: int, j: int| 0 <= i < s.len() && 0 <= j < (#[trigger] s[i]).vars.len()
        implies (#[trigger] s[i].vars[j]).deg >= 1 by {
        assert(crate::poly::canon_term(s[i]));
    }
}

/// Degree ordering: after canonicalization adjacent terms have
/// non-increasing total degree.
pub proof fn lemma_degree_ordering(s: Seq<TermV>)
    requires
        is_canonical(s),
    ensures
        forall|i: int| 0 <= i < s.len() - 1 ==> tdeg((#[trigger] s[i]).vars) >= tdeg(
            s[i + 1].vars,
        ),
{
    assert forall|i: int| 0 <= i < s.len() - 1 implies tdeg((#[trigger] s[i]).vars) >= tdeg(
        s[i + 1].vars,
    ) by {
        assert(term_before(s[i], s[i + 1]));
    }
}

} // verus!
