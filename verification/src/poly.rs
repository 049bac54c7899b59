//! Polynomials, terms and variables, with the canonical-form engine.
//!
//! A raw polynomial may hold duplicate symbols inside a term, duplicate
//! monomials, zero coefficients and zero exponents.  `simplify` rewrites it
//! into the canonical form: inside each term the symbols are distinct, have
//! positive exponents and ascend byte-lexicographically; across the
//! polynomial every monomial appears once with a non-zero coefficient; terms
//! descend by total degree, ties broken lexicographically on the variable
//! sequence.  Canonicalization preserves the polynomial's mathematical
//! value, stated through `coeff_at`, the exact coefficient of each monomial.

use vstd::prelude::*;
use vstd::slice::slice_index_get;
use vstd::slice::slice_subrange;
use vstd::utf8::encode_utf8;

use crate::coeff::Coeff;
use crate::coeff::Rat;
use crate::coeff::rat_add;
use crate::coeff::rat_zero;
use crate::coeff::rat_reduced;
use crate::coeff::rat_fits;
use crate::coeff::rat_neg;
use crate::coeff::rat_mul;
use crate::coeff::rat_pow;
use crate::coeff::rat_div;
use crate::coeff::rat_wf;

verus! {

/// One symbol/exponent pair: `sym^deg`.
#[derive(Debug, PartialEq)]
pub struct PolyVar {
    pub sym: String,
    pub deg: usize,
}

/// A coefficient times a product of variables.
#[derive(Debug, Clone, PartialEq)]
pub struct PolyTerm {
    pub coeff: Coeff,
    pub vars: Vec<PolyVar>,
}

/// A sum of terms.
#[derive(Debug, Clone, PartialEq)]
pub struct Poly(pub Vec<PolyTerm>);

impl Clone for PolyVar {
    fn clone(&self) -> (r: Self)
        ensures
            vview(r) == vview(*self),
            r.deg == self.deg,
            r.sym@ == self.sym@,
    {
        PolyVar { sym: clone_string(&self.sym), deg: self.deg }
    }
}

fn clone_string(s: &String) -> (r: String)
    ensures
        r@ == s@,
{
    let r: String = s.clone();
    r
}

/// Mathematical view of a variable: the symbol's UTF-8 bytes and the degree.
pub struct VarV {
    pub sym: Seq<u8>,
    pub deg: nat,
}

/// Mathematical view of a term.
pub struct TermV {
    pub coeff: Rat,
    pub vars: Seq<VarV>,
}

pub open spec fn vview(v: PolyVar) -> VarV {
    VarV { sym: encode_utf8(v.sym@), deg: v.deg as nat }
}

pub open spec fn vsview(vs: Seq<PolyVar>) -> Seq<VarV> {
    vs.map_values(|v: PolyVar| vview(v))
}

pub open spec fn tview(t: PolyTerm) -> TermV {
    TermV { coeff: t.coeff@, vars: vsview(t.vars@) }
}

pub open spec fn tviews(s: Seq<PolyTerm>) -> Seq<TermV> {
    s.map_values(|t: PolyTerm| tview(t))
}

pub open spec fn pview(p: Poly) -> Seq<TermV> {
    tviews(p.0@)
}

/// Strict byte-lexicographic order on symbols.
pub open spec fn blt(a: Seq<u8>, b: Seq<u8>) -> bool
    decreases a.len(),
{
    if b.len() == 0 {
        false
    } else if a.len() == 0 {
        true
    } else if a[0] < b[0] {
        true
    } else if a[0] == b[0] {
        blt(a.drop_first(), b.drop_first())
    } else {
        false
    }
}

/// Strict order on variables: by symbol, then by degree.
pub open spec fn var_lt(x: VarV, y: VarV) -> bool {
    blt(x.sym, y.sym) || (x.sym == y.sym && x.deg < y.deg)
}

/// Strict lexicographic order on variable sequences.
pub open spec fn vseq_lt(a: Seq<VarV>, b: Seq<VarV>) -> bool
    decreases a.len(),
{
    if a.len() == 0 {
        b.len() > 0
    } else if b.len() == 0 {
        false
    } else if var_lt(a[0], b[0]) {
        true
    } else if a[0] == b[0] {
        vseq_lt(a.drop_first(), b.drop_first())
    } else {
        false
    }
}

/// Total degree of a variable sequence.
pub open spec fn tdeg(vs: Seq<VarV>) -> nat
    decreases vs.len(),
{
    if vs.len() == 0 {
        0
    } else {
        tdeg(vs.drop_last()) + vs.last().deg
    }
}

/// Canonical variable sequence: positive degrees, symbols strictly
/// ascending (hence distinct).
pub open spec fn canon_vars(vs: Seq<VarV>) -> bool {
    (forall|i: int| 0 <= i < vs.len() ==> (#[trigger] vs[i]).deg >= 1) && (forall|i: int, j: int|
        0 <= i < j < vs.len() ==> #[trigger] blt(vs[i].sym, vs[j].sym))
}

/// Merging insertion of `sym^deg` into a variable sequence sorted by symbol.
pub open spec fn mono_insert(vs: Seq<VarV>, sym: Seq<u8>, deg: nat) -> Seq<VarV>
    decreases vs.len(),
{
    if vs.len() == 0 {
        seq![VarV { sym, deg }]
    } else if blt(sym, vs[0].sym) {
        seq![VarV { sym, deg }] + vs
    } else if sym == vs[0].sym {
        seq![VarV { sym, deg: (vs[0].deg + deg) as nat }] + vs.drop_first()
    } else {
        seq![vs[0]] + mono_insert(vs.drop_first(), sym, deg)
    }
}

/// The canonical monomial of a raw variable sequence: duplicate symbols
/// merged, zero degrees dropped, symbols ascending.
pub open spec fn mono(vs: Seq<VarV>) -> Seq<VarV>
    decreases vs.len(),
{
    if vs.len() == 0 {
        Seq::empty()
    } else {
        let m = mono(vs.drop_last());
        let v = vs.last();
        if v.deg == 0 {
            m
        } else {
            mono_insert(m, v.sym, v.deg)
        }
    }
}

/// Canonical term: canonical variables and a non-zero reduced coefficient.
pub open spec fn canon_term(t: TermV) -> bool {
    canon_vars(t.vars) && t.coeff.n != 0 && rat_reduced(t.coeff)
}

/// The sort order of terms: total degree descending, ties broken
/// lexicographically on the variable sequence.
pub open spec fn term_before(a: TermV, b: TermV) -> bool {
    tdeg(a.vars) > tdeg(b.vars) || (tdeg(a.vars) == tdeg(b.vars) && vseq_lt(a.vars, b.vars))
}

/// Canonical polynomial: canonical terms, strictly ordered (hence with
/// distinct monomials).
pub open spec fn is_canonical(s: Seq<TermV>) -> bool {
    (forall|i: int| 0 <= i < s.len() ==> canon_term(#[trigger] s[i])) && (forall|i: int, j: int|
        0 <= i < j < s.len() ==> #[trigger] term_before(s[i], s[j]))
}

/// The exact coefficient of the monomial `m` in the (possibly raw)
/// polynomial `s`: the reduced sum of the coefficients of all terms whose
/// canonical monomial is `m`.  This is the polynomial's mathematical value.
pub open spec fn coeff_at(s: Seq<TermV>, m: Seq<VarV>) -> Rat
    decreases s.len(),
{
    if s.len() == 0 {
        rat_zero()
    } else if mono(s.last().vars) == m {
        rat_add(coeff_at(s.drop_last(), m), s.last().coeff)
    } else {
        coeff_at(s.drop_last(), m)
    }
}

/// Two raw polynomials denote the same mathematical polynomial.
pub open spec fn sem_eq(a: Seq<TermV>, b: Seq<TermV>) -> bool {
    forall|m: Seq<VarV>| #![trigger coeff_at(a, m), coeff_at(b, m)] coeff_at(a, m) == coeff_at(
        b,
        m,
    )
}

/// First-match coefficient lookup by exact variable sequence.
pub open spec fn lookupc(s: Seq<TermV>, m: Seq<VarV>) -> Rat
    decreases s.len(),
{
    if s.len() == 0 {
        rat_zero()
    } else if s[0].vars == m {
        s[0].coeff
    } else {
        lookupc(s.drop_first(), m)
    }
}

// ---------------------------------------------------------------------------
// Order lemmas
// ---------------------------------------------------------------------------

pub proof fn lemma_blt_connex(a: Seq<u8>, b: Seq<u8>)
    requires
        !blt(a, b),
        !blt(b, a),
    ensures
        a == b,
    decreases a.len(),
{
    if b.len() == 0 {
        assert(a.len() == 0);
        assert(a =~= b);
    } else if a.len() == 0 {
        assert(false);
    } else {
        assert(a[0] == b[0]);
        lemma_blt_connex(a.drop_first(), b.drop_first());
        assert(a =~= seq![a[0]] + a.drop_first());
        assert(b =~= seq![b[0]] + b.drop_first());
    }
}

pub proof fn lemma_blt_irrefl(a: Seq<u8>)
    ensures
        !blt(a, a),
    decreases a.len(),
{
    if a.len() > 0 {
        lemma_blt_irrefl(a.drop_first());
    }
}

pub proof fn lemma_blt_trans(a: Seq<u8>, b: Seq<u8>, c: Seq<u8>)
    requires
        blt(a, b),
        blt(b, c),
    ensures
        blt(a, c),
    decreases a.len(),
{
    if a.len() == 0 {
    } else {
        assert(b.len() > 0 && c.len() > 0);
        if a[0] == b[0] && b[0] == c[0] {
            lemma_blt_trans(a.drop_first(), b.drop_first(), c.drop_first());
        }
    }
}

pub proof fn lemma_vseq_connex(a: Seq<VarV>, b: Seq<VarV>)
    requires
        !vseq_lt(a, b),
        !vseq_lt(b, a),
    ensures
        a == b,
    decreases a.len(),
{
    if a.len() == 0 {
        assert(b.len() == 0);
        assert(a =~= b);
    } else if b.len() == 0 {
        assert(false);
    } else {
        if a[0] != b[0] {
            lemma_blt_connex(a[0].sym, b[0].sym);
            assert(a[0].sym == b[0].sym);
            assert(var_lt(a[0], b[0]) || var_lt(b[0], a[0]));
            assert(false);
        }
        lemma_vseq_connex(a.drop_first(), b.drop_first());
        assert(a =~= seq![a[0]] + a.drop_first());
        assert(b =~= seq![b[0]] + b.drop_first());
    }
}

pub proof fn lemma_var_lt_trans(x: VarV, y: VarV, z: VarV)
    requires
        var_lt(x, y),
        var_lt(y, z),
    ensures
        var_lt(x, z),
{
    if blt(x.sym, y.sym) && blt(y.sym, z.sym) {
        lemma_blt_trans(x.sym, y.sym, z.sym);
    }
}


pub proof fn lemma_vseq_trans(a: Seq<VarV>, b: Seq<VarV>, c: Seq<VarV>)
    requires
        vseq_lt(a, b),
        vseq_lt(b, c),
    ensures
        vseq_lt(a, c),
    decreases a.len(),
{
    if a.len() == 0 {
        assert(b.len() > 0);
        assert(c.len() > 0);
    } else {
        assert(b.len() > 0 && c.len() > 0);
        if var_lt(a[0], b[0]) {
            if var_lt(b[0], c[0]) {
                lemma_var_lt_trans(a[0], b[0], c[0]);
            } else {
                assert(b[0] == c[0]);
            }
        } else {
            assert(a[0] == b[0]);
            if var_lt(b[0], c[0]) {
            } else {
                assert(b[0] == c[0]);
                lemma_vseq_trans(a.drop_first(), b.drop_first(), c.drop_first());
            }
        }
    }
}

// ---------------------------------------------------------------------------
// Executable comparisons on symbols
// ---------------------------------------------------------------------------

fn bytes_lt(a: &[u8], b: &[u8]) -> (r: bool)
    ensures
        r == blt(a@, b@),
    decreases a@.len(),
{
    if b.len() == 0 {
        false
    } else if a.len() == 0 {
        true
    } else {
        let x = *slice_index_get(a, 0);
        let y = *slice_index_get(b, 0);
        if x < y {
            true
        } else if x == y {
            let r = bytes_lt(
                slice_subrange(a, 1, a.len()),
                slice_subrange(b, 1, b.len()),
            );
            proof {
                assert(a@.subrange(1, a@.len() as int) =~= a@.drop_first());
                assert(b@.subrange(1, b@.len() as int) =~= b@.drop_first());
            }
            r
        } else {
            false
        }
    }
}

fn bytes_eq(a: &[u8], b: &[u8]) -> (r: bool)
    ensures
        r == (a@ == b@),
    decreases a@.len(),
{
    if a.len() != b.len() {
        proof {
            assert(a@.len() != b@.len());
        }
        false
    } else if a.len() == 0 {
        proof {
            assert(a@ =~= b@);
        }
        true
    } else {
        let x = *slice_index_get(a, 0);
        let y = *slice_index_get(b, 0);
        if x != y {
            proof {
                assert(a@[0] != b@[0]);
            }
            false
        } else {
            let r = bytes_eq(
                slice_subrange(a, 1, a.len()),
                slice_subrange(b, 1, b.len()),
            );
            proof {
                assert(a@.subrange(1, a@.len() as int) =~= a@.drop_first());
                assert(b@.subrange(1, b@.len() as int) =~= b@.drop_first());
                if a@.drop_first() == b@.drop_first() && a@[0] == b@[0] {
                    assert forall|i: int| 0 <= i < a@.len() implies a@[i] == b@[i] by {
                        if i > 0 {
                            assert(a@[i] == a@.drop_first()[i - 1]);
                            assert(b@[i] == b@.drop_first()[i - 1]);
                        }
                    }
                    assert(a@ =~= b@);
                }
            }
            r
        }
    }
}

/// Byte-lexicographic comparison of two symbols.
fn sym_lt(a: &String, b: &String) -> (r: bool)
    ensures
        r == blt(encode_utf8(a@), encode_utf8(b@)),
{
    bytes_lt(a.as_str().as_bytes(), b.as_str().as_bytes())
}

/// Symbol equality (equal bytes, hence equal text).
fn sym_eq(a: &String, b: &String) -> (r: bool)
    ensures
        r == (encode_utf8(a@) == encode_utf8(b@)),
{
    bytes_eq(a.as_str().as_bytes(), b.as_str().as_bytes())
}

// ---------------------------------------------------------------------------
// Monomial lemmas
// ---------------------------------------------------------------------------

proof fn lemma_tdeg_one(v: VarV)
    ensures
        tdeg(seq![v]) == v.deg,
{
    assert(seq![v].drop_last() =~= Seq::<VarV>::empty());
    assert(tdeg(Seq::<VarV>::empty()) == 0);
    assert(seq![v].last() == v);
}

pub proof fn lemma_tdeg_concat(a: Seq<VarV>, b: Seq<VarV>)
    ensures
        tdeg(a + b) == tdeg(a) + tdeg(b),
    decreases b.len(),
{
    if b.len() == 0 {
        assert(a + b =~= a);
    } else {
        lemma_tdeg_concat(a, b.drop_last());
        assert((a + b).drop_last() =~= a + b.drop_last());
        assert((a + b).last() == b.last());
    }
}

pub proof fn lemma_tdeg_take(s: Seq<VarV>, j: int)
    requires
        0 <= j <= s.len(),
    ensures
        tdeg(s.take(j)) <= tdeg(s),
{
    assert(s =~= s.take(j) + s.skip(j));
    lemma_tdeg_concat(s.take(j), s.skip(j));
}

pub proof fn lemma_tdeg_elem(vs: Seq<VarV>, i: int)
    requires
        0 <= i < vs.len(),
    ensures
        vs[i].deg <= tdeg(vs),
    decreases vs.len(),
{
    if i == vs.len() - 1 {
    } else {
        lemma_tdeg_elem(vs.drop_last(), i);
    }
}

pub proof fn lemma_tdeg_insert(vs: Seq<VarV>, sym: Seq<u8>, deg: nat)
    ensures
        tdeg(mono_insert(vs, sym, deg)) == tdeg(vs) + deg,
    decreases vs.len(),
{
    let v = VarV { sym, deg };
    if vs.len() == 0 {
        lemma_tdeg_one(v);
    } else if blt(sym, vs[0].sym) {
        lemma_tdeg_concat(seq![v], vs);
        lemma_tdeg_one(v);
    } else if sym == vs[0].sym {
        let w = VarV { sym, deg: (vs[0].deg + deg) as nat };
        lemma_tdeg_concat(seq![w], vs.drop_first());
        lemma_tdeg_concat(seq![vs[0]], vs.drop_first());
        lemma_tdeg_one(w);
        lemma_tdeg_one(vs[0]);
        assert(vs =~= seq![vs[0]] + vs.drop_first());
        assert(tdeg(vs) == vs[0].deg + tdeg(vs.drop_first()));
        assert(tdeg(mono_insert(vs, sym, deg)) == w.deg + tdeg(vs.drop_first()));
    } else {
        lemma_tdeg_insert(vs.drop_first(), sym, deg);
        lemma_tdeg_concat(seq![vs[0]], mono_insert(vs.drop_first(), sym, deg));
        lemma_tdeg_concat(seq![vs[0]], vs.drop_first());
        lemma_tdeg_one(vs[0]);
        assert(vs =~= seq![vs[0]] + vs.drop_first());
        assert(tdeg(vs) == vs[0].deg + tdeg(vs.drop_first()));
        assert(tdeg(mono_insert(vs, sym, deg)) == vs[0].deg + tdeg(mono_insert(
            vs.drop_first(),
            sym,
            deg,
        )));
    }
}

pub proof fn lemma_tdeg_mono(vs: Seq<VarV>)
    ensures
        tdeg(mono(vs)) <= tdeg(vs),
    decreases vs.len(),
{
    if vs.len() > 0 {
        lemma_tdeg_mono(vs.drop_last());
        if vs.last().deg != 0 {
            lemma_tdeg_insert(mono(vs.drop_last()), vs.last().sym, vs.last().deg);
        }
    }
}

/// Where the scan for the insertion point stops, `mono_insert` either merges
/// into the element there or inserts just before it.
pub proof fn lemma_mono_insert_at(vs: Seq<VarV>, sym: Seq<u8>, deg: nat, k: int)
    requires
        0 <= k <= vs.len(),
        forall|i: int| 0 <= i < k ==> blt((#[trigger] vs[i]).sym, sym),
        k < vs.len() ==> !blt(vs[k].sym, sym),
    ensures
        k < vs.len() && vs[k].sym == sym ==> mono_insert(vs, sym, deg) == vs.update(
            k,
            VarV { sym, deg: (vs[k].deg + deg) as nat },
        ),
        k == vs.len() || vs[k].sym != sym ==> mono_insert(vs, sym, deg) == vs.insert(
            k,
            VarV { sym, deg },
        ),
    decreases vs.len(),
{
    let v = VarV { sym, deg };
    if vs.len() == 0 {
        assert(mono_insert(vs, sym, deg) =~= vs.insert(0, v));
    } else if k == 0 {
        if vs[0].sym == sym {
            assert(!blt(sym, vs[0].sym)) by {
                lemma_blt_irrefl(sym);
            }
            let w = VarV { sym, deg: (vs[0].deg + deg) as nat };
            assert(seq![w] + vs.drop_first() =~= vs.update(0, w));
        } else {
            if !blt(sym, vs[0].sym) {
                lemma_blt_connex(vs[0].sym, sym);
            }
            assert(blt(sym, vs[0].sym));
            assert(seq![v] + vs =~= vs.insert(0, v));
        }
    } else {
        assert(blt(vs[0].sym, sym));
        assert(!blt(sym, vs[0].sym)) by {
            if blt(sym, vs[0].sym) {
                lemma_blt_trans(sym, vs[0].sym, sym);
                lemma_blt_irrefl(sym);
            }
        }
        assert(vs[0].sym != sym) by {
            if vs[0].sym == sym {
                lemma_blt_irrefl(sym);
            }
        }
        let rest = vs.drop_first();
        assert(forall|i: int| 0 <= i < k - 1 ==> blt((#[trigger] rest[i]).sym, sym));
        assert(k - 1 < rest.len() ==> !blt(rest[k - 1].sym, sym));
        lemma_mono_insert_at(rest, sym, deg, k - 1);
        if k < vs.len() && vs[k].sym == sym {
            let w = VarV { sym, deg: (vs[k].deg + deg) as nat };
            assert(rest[k - 1] == vs[k]);
            assert(seq![vs[0]] + rest.update(k - 1, w) =~= vs.update(k, w));
        } else {
            assert(seq![vs[0]] + rest.insert(k - 1, v) =~= vs.insert(k, v));
        }
    }
}

/// Inserting a symbol beyond every symbol of a sorted sequence appends it.
pub proof fn lemma_mono_insert_append(vs: Seq<VarV>, sym: Seq<u8>, deg: nat)
    requires
        forall|i: int| 0 <= i < vs.len() ==> blt((#[trigger] vs[i]).sym, sym),
    ensures
        mono_insert(vs, sym, deg) == vs.push(VarV { sym, deg }),
{
    lemma_mono_insert_at(vs, sym, deg, vs.len() as int);
    assert(vs.insert(vs.len() as int, VarV { sym, deg }) =~= vs.push(VarV { sym, deg }));
}

/// The canonical monomial of an already-canonical sequence is itself.
pub proof fn lemma_mono_id(vs: Seq<VarV>)
    requires
        canon_vars(vs),
    ensures
        mono(vs) == vs,
    decreases vs.len(),
{
    if vs.len() > 0 {
        let front = vs.drop_last();
        assert(canon_vars(front)) by {
            assert(forall|i: int| 0 <= i < front.len() ==> front[i] == vs[i]);
        }
        lemma_mono_id(front);
        assert(vs.last().deg >= 1);
        assert(forall|i: int| 0 <= i < front.len() ==> blt(
            (#[trigger] front[i]).sym,
            vs.last().sym,
        )) by {
            assert(forall|i: int| 0 <= i < front.len() ==> front[i] == vs[i]);
        }
        lemma_mono_insert_append(front, vs.last().sym, vs.last().deg);
        assert(front.push(vs.last()) =~= vs);
    }
}

// ---------------------------------------------------------------------------
// Canonicalizing the variables of one term
// ---------------------------------------------------------------------------

/// Merging insertion of one variable with a positive degree into a
/// canonical variable list.
fn insert_var(out: &mut Vec<PolyVar>, v: PolyVar)
    requires
        canon_vars(vsview(old(out)@)),
        v.deg >= 1,
        tdeg(vsview(old(out)@)) + v.deg <= usize::MAX,
    ensures
        vsview(final(out)@) == mono_insert(vsview(old(out)@), vview(v).sym, vview(v).deg),
        canon_vars(vsview(final(out)@)),
{
    let ghost vs0 = vsview(out@);
    let ghost vsym = vview(v).sym;
    let ghost vdeg = vview(v).deg;
    let mut k: usize = 0;
    while k < out.len()
        invariant
            0 <= k <= out@.len(),
            vsview(out@) == vs0,
            v.deg >= 1,
            vsym == vview(v).sym,
            forall|i: int| 0 <= i < k ==> blt((#[trigger] vs0[i]).sym, vsym),
        ensures
            0 <= k <= out@.len(),
            vsview(out@) == vs0,
            forall|i: int| 0 <= i < k ==> blt((#[trigger] vs0[i]).sym, vsym),
            k < out@.len() ==> !blt(vs0[k as int].sym, vsym),
        decreases out@.len() - k,
    {
        proof {
            assert(vs0[k as int] == vview(out@[k as int]));
        }
        let go = sym_lt(&out[k].sym, &v.sym);
        if !go {
            break;
        }
        k = k + 1;
    }
    proof {
        lemma_mono_insert_at(vs0, vsym, vdeg, k as int);
    }
    if k < out.len() && sym_eq(&out[k].sym, &v.sym) {
        proof {
            assert(vs0[k as int] == vview(out@[k as int]));
            assert(vs0[k as int].sym == vsym);
            lemma_tdeg_elem(vs0, k as int);
        }
        let oldv = out.remove(k);
        let merged = PolyVar { sym: oldv.sym, deg: oldv.deg + v.deg };
        out.insert(k, merged);
        proof {
            let w = VarV { sym: vsym, deg: (vs0[k as int].deg + vdeg) as nat };
            assert forall|i: int| 0 <= i < vsview(out@).len() implies vsview(out@)[i]
                == vs0.update(k as int, w)[i] by {
                assert(vsview(out@)[i] == vview(out@[i]));
            }
            assert(vsview(out@) =~= vs0.update(k as int, w));
            let res = vs0.update(k as int, w);
            assert forall|i: int, j: int| 0 <= i < j < res.len() implies #[trigger] blt(
                res[i].sym,
                res[j].sym,
            ) by {
                assert(res[i].sym == vs0[i].sym);
                assert(res[j].sym == vs0[j].sym);
            }
            assert(canon_vars(res));
        }
    } else {
        proof {
            if k < out@.len() {
                assert(vs0[k as int] == vview(out@[k as int]));
                assert(vs0[k as int].sym != vsym);
            }
        }
        out.insert(k, v);
        proof {
            let w = VarV { sym: vsym, deg: vdeg };
            assert forall|i: int| 0 <= i < vsview(out@).len() implies vsview(out@)[i]
                == vs0.insert(k as int, w)[i] by {
                assert(vsview(out@)[i] == vview(out@[i]));
                if i < k {
                    assert(out@[i] == old(out)@[i]);
                } else if i == k {
                    assert(out@[i] == v);
                } else {
                    assert(out@[i] == old(out)@[i - 1]);
                }
            }
            assert(vsview(out@) =~= vs0.insert(k as int, w));
            let res = vs0.insert(k as int, w);
            if k < vs0.len() {
                if !blt(vsym, vs0[k as int].sym) {
                    lemma_blt_connex(vs0[k as int].sym, vsym);
                }
                assert(blt(vsym, vs0[k as int].sym));
            }
            assert forall|i: int, j: int| 0 <= i < j < res.len() implies #[trigger] blt(
                res[i].sym,
                res[j].sym,
            ) by {
                if i < k && j == k {
                } else if i == k && j > k {
                    assert(res[j].sym == vs0[j - 1].sym);
                    if j - 1 > k {
                        assert(blt(vs0[k as int].sym, vs0[j - 1].sym));
                        lemma_blt_trans(vsym, vs0[k as int].sym, vs0[j - 1].sym);
                    }
                } else if i < k && j > k {
                    assert(res[j].sym == vs0[j - 1].sym);
                    if j - 1 == k {
                        lemma_blt_trans(vs0[i].sym, vsym, vs0[k as int].sym);
                    }
                } else if i > k && j > k {
                    assert(res[i].sym == vs0[i - 1].sym);
                    assert(res[j].sym == vs0[j - 1].sym);
                }
            }
            assert(canon_vars(res));
        }
    }
}

/// The canonical form of one term's variable list: duplicate symbols
/// merged, zero degrees dropped, symbols ascending.
fn canon_term_vars(vars: &Vec<PolyVar>) -> (out: Vec<PolyVar>)
    requires
        tdeg(vsview(vars@)) <= usize::MAX,
    ensures
        vsview(out@) == mono(vsview(vars@)),
        canon_vars(vsview(out@)),
        tdeg(vsview(out@)) <= tdeg(vsview(vars@)),
{
    let ghost full = vsview(vars@);
    let mut out: Vec<PolyVar> = Vec::new();
    proof {
        assert(full.take(0) =~= Seq::<VarV>::empty());
        assert(vsview(out@) =~= Seq::<VarV>::empty());
    }
    let mut i: usize = 0;
    while i < vars.len()
        invariant
            0 <= i <= vars@.len(),
            full == vsview(vars@),
            tdeg(full) <= usize::MAX,
            vsview(out@) == mono(full.take(i as int)),
            canon_vars(vsview(out@)),
            tdeg(vsview(out@)) <= tdeg(full.take(i as int)),
        decreases vars@.len() - i,
    {
        let v = vars[i].clone();
        let ghost pre = full.take(i as int);
        let ghost next = full.take(i + 1);
        proof {
            assert(next.drop_last() =~= pre);
            assert(next.last() == vview(vars@[i as int]));
            assert(next.last() == vview(v));
            lemma_tdeg_take(full, i + 1);
        }
        if v.deg != 0 {
            proof {
                assert(tdeg(next) == tdeg(pre) + vview(v).deg);
                assert(tdeg(vsview(out@)) + v.deg <= usize::MAX);
            }
            insert_var(&mut out, v);
            proof {
                lemma_tdeg_insert(mono(pre), next.last().sym, next.last().deg);
            }
        }
        i = i + 1;
    }
    proof {
        assert(full.take(vars@.len() as int) =~= full);
    }
    out
}

// ---------------------------------------------------------------------------
// Term order lemmas
// ---------------------------------------------------------------------------

proof fn lemma_var_lt_asym_self(x: VarV)
    ensures
        !var_lt(x, x),
{
    lemma_blt_irrefl(x.sym);
}

pub proof fn lemma_vseq_irrefl(a: Seq<VarV>)
    ensures
        !vseq_lt(a, a),
    decreases a.len(),
{
    if a.len() > 0 {
        lemma_var_lt_asym_self(a[0]);
        lemma_vseq_irrefl(a.drop_first());
    }
}

/// Terms that are unordered either way carry the same variable sequence.
pub proof fn lemma_term_connex(a: TermV, b: TermV)
    requires
        !term_before(a, b),
        !term_before(b, a),
    ensures
        a.vars == b.vars,
{
    lemma_vseq_connex(a.vars, b.vars);
}

pub proof fn lemma_term_trans(a: TermV, b: TermV, c: TermV)
    requires
        term_before(a, b),
        term_before(b, c),
    ensures
        term_before(a, c),
{
    if tdeg(a.vars) == tdeg(b.vars) && tdeg(b.vars) == tdeg(c.vars) {
        lemma_vseq_trans(a.vars, b.vars, c.vars);
    }
}

/// An ordered pair of terms has distinct variable sequences.
pub proof fn lemma_term_before_distinct(a: TermV, b: TermV)
    requires
        term_before(a, b),
    ensures
        a.vars != b.vars,
{
    if a.vars == b.vars {
        lemma_vseq_irrefl(a.vars);
    }
}

// ---------------------------------------------------------------------------
// Coefficient lookup lemmas
// ---------------------------------------------------------------------------

pub proof fn lemma_coeff_at_reduced(s: Seq<TermV>, m: Seq<VarV>)
    requires
        forall|i: int| 0 <= i < s.len() ==> (#[trigger] s[i]).coeff.d >= 1,
    ensures
        rat_reduced(coeff_at(s, m)),
    decreases s.len(),
{
    crate::coeff::lemma_gcd_one(0);
    if s.len() > 0 {
        assert(forall|i: int| 0 <= i < s.drop_last().len() ==> s.drop_last()[i] == s[i]);
        lemma_coeff_at_reduced(s.drop_last(), m);
        if mono(s.last().vars) == m {
            let x = coeff_at(s.drop_last(), m);
            let c = s.last().coeff;
            assert(c.d >= 1);
            assert(x.d * c.d >= 1) by (nonlinear_arith)
                requires
                    x.d >= 1,
                    c.d >= 1;
            crate::coeff::lemma_norm(Rat { n: x.n * c.d + c.n * x.d, d: x.d * c.d });
        }
    }
}

/// Adding a zero-valued coefficient leaves a reduced value unchanged.
pub proof fn lemma_rat_add_zero_any(x: Rat, c: Rat)
    requires
        rat_reduced(x),
        c.n == 0,
        c.d >= 1,
    ensures
        rat_add(x, c) == x,
{
    assert(x.n * c.d + c.n * x.d == c.d * x.n) by (nonlinear_arith)
        requires
            c.n == 0;
    assert(x.d * c.d == c.d * x.d) by (nonlinear_arith);
    crate::coeff::lemma_norm_scale(x, c.d);
    crate::coeff::lemma_norm(x);
}

/// A reduced rational with numerator zero is the canonical zero.
pub proof fn lemma_reduced_zero(x: Rat)
    requires
        rat_reduced(x),
        x.n == 0,
    ensures
        x == rat_zero(),
{
    assert(crate::coeff::absn(0) == 0);
    assert(crate::coeff::absn(x.d) == x.d);
    assert(0nat % (x.d as nat) == 0);
    assert(crate::coeff::gcd(0, x.d as nat) == crate::coeff::gcd(x.d as nat, 0));
}

pub proof fn lemma_lookupc_notin(s: Seq<TermV>, m: Seq<VarV>)
    requires
        forall|i: int| 0 <= i < s.len() ==> (#[trigger] s[i]).vars != m,
    ensures
        lookupc(s, m) == rat_zero(),
    decreases s.len(),
{
    if s.len() > 0 {
        assert(forall|i: int| 0 <= i < s.drop_first().len() ==> s.drop_first()[i] == s[i + 1]);
        lemma_lookupc_notin(s.drop_first(), m);
    }
}

pub proof fn lemma_lookupc_at(s: Seq<TermV>, m: Seq<VarV>, k: int)
    requires
        0 <= k < s.len(),
        s[k].vars == m,
        forall|i: int| 0 <= i < k ==> (#[trigger] s[i]).vars != m,
    ensures
        lookupc(s, m) == s[k].coeff,
    decreases k,
{
    if k > 0 {
        assert(forall|i: int| 0 <= i < s.drop_first().len() ==> s.drop_first()[i] == s[i + 1]);
        lemma_lookupc_at(s.drop_first(), m, k - 1);
    }
}

pub proof fn lemma_lookupc_drop_last(s: Seq<TermV>, m: Seq<VarV>)
    requires
        s.len() > 0,
        s.last().vars != m,
    ensures
        lookupc(s, m) == lookupc(s.drop_last(), m),
    decreases s.len(),
{
    if s.len() > 1 {
        assert(s.drop_first().last() == s.last());
        lemma_lookupc_drop_last(s.drop_first(), m);
        assert(s.drop_first().drop_last() =~= s.drop_last().drop_first());
        assert(s.drop_last()[0] == s[0]);
        if s[0].vars == m {
            assert(lookupc(s, m) == s[0].coeff);
            assert(lookupc(s.drop_last(), m) == s.drop_last()[0].coeff);
        } else {
            assert(lookupc(s, m) == lookupc(s.drop_first(), m));
            assert(lookupc(s.drop_last(), m) == lookupc(s.drop_last().drop_first(), m));
        }
    } else {
        assert(s[0] == s.last());
        assert(lookupc(s, m) == lookupc(s.drop_first(), m));
        assert(s.drop_first().len() == 0);
        assert(s.drop_last().len() == 0);
    }
}

pub proof fn lemma_lookupc_agree(s1: Seq<TermV>, s2: Seq<TermV>, m: Seq<VarV>)
    requires
        s1.len() == s2.len(),
        forall|i: int| 0 <= i < s1.len() && ((#[trigger] s1[i]).vars == m || (#[trigger] s2[i]).vars
            == m) ==> s1[i] == s2[i],
    ensures
        lookupc(s1, m) == lookupc(s2, m),
    decreases s1.len(),
{
    if s1.len() > 0 {
        if s1[0].vars == m || s2[0].vars == m {
            assert(s1[0] == s2[0]);
        } else {
            assert(forall|i: int| 0 <= i < s1.drop_first().len() ==> s1.drop_first()[i] == s1[i
                + 1] && s2.drop_first()[i] == s2[i + 1]);
            lemma_lookupc_agree(s1.drop_first(), s2.drop_first(), m);
        }
    }
}

pub proof fn lemma_lookupc_remove(s: Seq<TermV>, k: int, m: Seq<VarV>)
    requires
        0 <= k < s.len(),
        s[k].vars != m,
    ensures
        lookupc(s.remove(k), m) == lookupc(s, m),
    decreases k,
{
    if k == 0 {
        assert(s.remove(0) =~= s.drop_first());
    } else {
        assert(forall|i: int| 0 <= i < s.drop_first().len() ==> s.drop_first()[i] == s[i + 1]);
        lemma_lookupc_remove(s.drop_first(), k - 1, m);
        assert(s.remove(k).drop_first() =~= s.drop_first().remove(k - 1));
        assert(s.remove(k)[0] == s[0]);
    }
}

pub proof fn lemma_lookupc_insert(s: Seq<TermV>, k: int, t: TermV, m: Seq<VarV>)
    requires
        0 <= k <= s.len(),
        t.vars != m,
    ensures
        lookupc(s.insert(k, t), m) == lookupc(s, m),
    decreases k,
{
    if k == 0 {
        assert(s.insert(0, t)[0] == t);
        assert(s.insert(0, t).drop_first() =~= s);
    } else {
        assert(forall|i: int| 0 <= i < s.drop_first().len() ==> s.drop_first()[i] == s[i + 1]);
        lemma_lookupc_insert(s.drop_first(), k - 1, t, m);
        assert(s.insert(k, t)[0] == s[0]);
        assert(s.insert(k, t).drop_first() =~= s.drop_first().insert(k - 1, t));
    }
}

/// Adding onto the canonical zero yields the other operand, reduced.
pub proof fn lemma_rat_add_zero_front(c: Rat)
    requires
        rat_reduced(c),
    ensures
        rat_add(rat_zero(), c) == c,
{
    assert(0 * c.d + c.n * 1 == c.n);
    assert(1 * c.d == c.d);
    assert(Rat { n: 0 * c.d + c.n * 1, d: 1 * c.d } == c);
    crate::coeff::lemma_norm(c);
}

/// On a canonical polynomial the exact coefficient of each monomial is the
/// stored coefficient of the matching term, if any, else zero.
pub proof fn lemma_coeff_at_canonical(s: Seq<TermV>, m: Seq<VarV>)
    requires
        is_canonical(s),
    ensures
        coeff_at(s, m) == lookupc(s, m),
    decreases s.len(),
{
    if s.len() > 0 {
        let front = s.drop_last();
        let lst = s.last();
        assert(forall|i: int| 0 <= i < front.len() ==> front[i] == s[i]);
        assert(is_canonical(front));
        lemma_coeff_at_canonical(front, m);
        assert(canon_term(lst));
        lemma_mono_id(lst.vars);
        assert forall|i: int| 0 <= i < front.len() implies (#[trigger] front[i]).vars
            != lst.vars by {
            assert(term_before(s[i], s[s.len() - 1]));
            lemma_term_before_distinct(s[i], lst);
        }
        if mono(lst.vars) == m {
            assert(m == lst.vars);
            lemma_lookupc_notin(front, m);
            lemma_rat_add_zero_front(lst.coeff);
            lemma_lookupc_at(s, m, s.len() - 1);
        } else {
            assert(lst.vars != m);
            lemma_lookupc_drop_last(s, m);
        }
    }
}

// ---------------------------------------------------------------------------
// Executable term comparison
// ---------------------------------------------------------------------------

/// Total degree of a term's variable list.
pub fn vars_total_deg(vars: &Vec<PolyVar>) -> (d: usize)
    requires
        tdeg(vsview(vars@)) <= usize::MAX,
    ensures
        d as nat == tdeg(vsview(vars@)),
{
    let ghost full = vsview(vars@);
    let mut d: usize = 0;
    let mut i: usize = 0;
    proof {
        assert(full.take(0) =~= Seq::<VarV>::empty());
    }
    while i < vars.len()
        invariant
            0 <= i <= vars@.len(),
            full == vsview(vars@),
            tdeg(full) <= usize::MAX,
            d as nat == tdeg(full.take(i as int)),
        decreases vars@.len() - i,
    {
        proof {
            assert(full.take(i + 1).drop_last() =~= full.take(i as int));
            assert(full.take(i + 1).last() == vview(vars@[i as int]));
            lemma_tdeg_take(full, i + 1);
        }
        d = d + vars[i].deg;
        i = i + 1;
    }
    proof {
        assert(full.take(vars@.len() as int) =~= full);
    }
    d
}

fn vars_lex_lt_from(a: &Vec<PolyVar>, b: &Vec<PolyVar>, i: usize) -> (r: bool)
    requires
        i <= a@.len(),
        i <= b@.len(),
    ensures
        r == vseq_lt(vsview(a@).skip(i as int), vsview(b@).skip(i as int)),
    decreases a@.len() - i,
{
    let ghost sa = vsview(a@).skip(i as int);
    let ghost sb = vsview(b@).skip(i as int);
    if i == a.len() {
        proof {
            assert(sa.len() == 0);
        }
        b.len() > i
    } else if i == b.len() {
        proof {
            assert(sb.len() == 0);
            assert(sa.len() > 0);
        }
        false
    } else {
        proof {
            assert(sa[0] == vview(a@[i as int]));
            assert(sb[0] == vview(b@[i as int]));
        }
        let slt = sym_lt(&a[i].sym, &b[i].sym);
        if slt {
            proof {
                assert(var_lt(sa[0], sb[0]));
            }
            true
        } else {
            let seq_same = sym_eq(&a[i].sym, &b[i].sym);
            if seq_same {
                if a[i].deg < b[i].deg {
                    proof {
                        assert(var_lt(sa[0], sb[0]));
                    }
                    true
                } else if a[i].deg == b[i].deg {
                    proof {
                        assert(sa[0] == sb[0]);
                        assert(!var_lt(sa[0], sb[0])) by {
                            lemma_blt_irrefl(sa[0].sym);
                        }
                        assert(sa.drop_first() =~= vsview(a@).skip(i + 1));
                        assert(sb.drop_first() =~= vsview(b@).skip(i + 1));
                    }
                    vars_lex_lt_from(a, b, i + 1)
                } else {
                    proof {
                        assert(!var_lt(sa[0], sb[0])) by {
                            lemma_blt_irrefl(sa[0].sym);
                        }
                        assert(sa[0] != sb[0]);
                    }
                    false
                }
            } else {
                proof {
                    assert(!var_lt(sa[0], sb[0]));
                    assert(sa[0] != sb[0]);
                }
                false
            }
        }
    }
}

/// The canonical order of terms: total degree descending, then the
/// variable sequence ascending lexicographically.
pub fn term_before_exec(a: &PolyTerm, b: &PolyTerm) -> (r: bool)
    requires
        tdeg(tview(*a).vars) <= usize::MAX,
        tdeg(tview(*b).vars) <= usize::MAX,
    ensures
        r == term_before(tview(*a), tview(*b)),
{
    let da = vars_total_deg(&a.vars);
    let db = vars_total_deg(&b.vars);
    if da > db {
        true
    } else if da == db {
        let r = vars_lex_lt_from(&a.vars, &b.vars, 0);
        proof {
            assert(vsview(a.vars@).skip(0) =~= vsview(a.vars@));
            assert(vsview(b.vars@).skip(0) =~= vsview(b.vars@));
        }
        r
    } else {
        false
    }
}

fn vars_eq(a: &Vec<PolyVar>, b: &Vec<PolyVar>) -> (r: bool)
    ensures
        r == (vsview(a@) == vsview(b@)),
{
    if a.len() != b.len() {
        proof {
            assert(vsview(a@).len() != vsview(b@).len());
        }
        return false;
    }
    let mut i: usize = 0;
    while i < a.len()
        invariant
            0 <= i <= a@.len(),
            a@.len() == b@.len(),
            forall|j: int| 0 <= j < i ==> vsview(a@)[j] == vsview(b@)[j],
        decreases a@.len() - i,
    {
        proof {
            assert(vsview(a@)[i as int] == vview(a@[i as int]));
            assert(vsview(b@)[i as int] == vview(b@[i as int]));
        }
        if !sym_eq(&a[i].sym, &b[i].sym) {
            return false;
        }
        if a[i].deg != b[i].deg {
            return false;
        }
        proof {
            assert(vsview(a@)[i as int] == vsview(b@)[i as int]);
        }
        i = i + 1;
    }
    proof {
        assert(vsview(a@) =~= vsview(b@));
    }
    true
}

// ---------------------------------------------------------------------------
// Inserting one canonical term into a canonical polynomial
// ---------------------------------------------------------------------------

/// Inserts a canonical term at its sorted place, merging with the term of
/// the same monomial if one is present and dropping the merged term when
/// the coefficients cancel.
fn insert_term(out: &mut Vec<PolyTerm>, t: PolyTerm)
    requires
        is_canonical(tviews(old(out)@)),
        canon_vars(tview(t).vars),
        tview(t).coeff.n != 0,
        tdeg(tview(t).vars) <= usize::MAX,
        forall|j: int| 0 <= j < old(out)@.len() ==> tdeg(
            (#[trigger] tviews(old(out)@)[j]).vars,
        ) <= usize::MAX,
        rat_fits(rat_add(lookupc(tviews(old(out)@), tview(t).vars), tview(t).coeff)),
    ensures
        is_canonical(tviews(final(out)@)),
        forall|j: int| 0 <= j < final(out)@.len() ==> tdeg(
            (#[trigger] tviews(final(out)@)[j]).vars,
        ) <= usize::MAX,
        forall|m: Seq<VarV>| #[trigger] lookupc(tviews(final(out)@), m) == (if m == tview(t).vars {
            rat_add(lookupc(tviews(old(out)@), m), tview(t).coeff)
        } else {
            lookupc(tviews(old(out)@), m)
        }),
{
    let ghost s0 = tviews(out@);
    let ghost tv = tview(t);
    let ghost key = tv.vars;
    proof {
        use_type_invariant(t.coeff);
    }
    let mut k: usize = 0;
    while k < out.len()
        invariant
            0 <= k <= out@.len(),
            tviews(out@) == s0,
            is_canonical(s0),
            tv == tview(t),
            tdeg(tv.vars) <= usize::MAX,
            forall|j: int| 0 <= j < out@.len() ==> tdeg((#[trigger] tviews(out@)[j]).vars)
                <= usize::MAX,
            forall|i: int| 0 <= i < k ==> term_before(#[trigger] s0[i], tv),
        ensures
            0 <= k <= out@.len(),
            tviews(out@) == s0,
            tv == tview(t),
            forall|i: int| 0 <= i < k ==> term_before(#[trigger] s0[i], tv),
            k < out@.len() ==> !term_before(s0[k as int], tv),
        decreases out@.len() - k,
    {
        proof {
            assert(s0[k as int] == tview(out@[k as int]));
        }
        let go = term_before_exec(&out[k], &t);
        if !go {
            break;
        }
        k = k + 1;
    }
    proof {
        assert forall|i: int| 0 <= i < k implies (#[trigger] s0[i]).vars != key by {
            lemma_term_before_distinct(s0[i], tv);
        }
    }
    let is_merge = if k < out.len() {
        vars_eq(&out[k].vars, &t.vars)
    } else {
        false
    };
    if is_merge {
        proof {
            assert(s0[k as int] == tview(out@[k as int]));
            assert(s0[k as int].vars == key);
            lemma_lookupc_at(s0, key, k as int);
        }
        let oldt = out.remove(k);
        proof {
            use_type_invariant(oldt.coeff);
        }
        let newc = oldt.coeff.add(&t.coeff);
        if newc.is_zero() {
            proof {
                use_type_invariant(newc);
                lemma_reduced_zero(newc@);
                assert forall|i: int| 0 <= i < out@.len() implies tviews(out@)[i] == s0.remove(
                    k as int,
                )[i] by {
                    assert(tviews(out@)[i] == tview(out@[i]));
                }
                assert(tviews(out@) =~= s0.remove(k as int));
                let res = s0.remove(k as int);
                assert forall|i: int, j: int| 0 <= i < j < res.len() implies #[trigger] term_before(
                    res[i],
                    res[j],
                ) by {
                    if i < k && j < k {
                        assert(res[i] == s0[i] && res[j] == s0[j]);
                    } else if i < k {
                        assert(res[i] == s0[i] && res[j] == s0[j + 1]);
                    } else {
                        assert(res[i] == s0[i + 1] && res[j] == s0[j + 1]);
                    }
                }
                assert(is_canonical(res));
                assert forall|m: Seq<VarV>| true implies #[trigger] lookupc(tviews(out@), m) == (
                if m == key {
                    rat_add(lookupc(s0, m), tv.coeff)
                } else {
                    lookupc(s0, m)
                }) by {
                    if m == key {
                        assert forall|i: int| 0 <= i < res.len() implies (#[trigger] res[i]).vars
                            != m by {
                            if i < k {
                                assert(res[i] == s0[i]);
                            } else {
                                assert(res[i] == s0[i + 1]);
                                assert(term_before(s0[k as int], s0[i + 1]));
                                lemma_term_before_distinct(s0[k as int], s0[i + 1]);
                            }
                        }
                        lemma_lookupc_notin(res, m);
                    } else {
                        lemma_lookupc_remove(s0, k as int, m);
                    }
                }
            }
        } else {
            let newt = PolyTerm { coeff: newc, vars: oldt.vars };
            out.insert(k, newt);
            proof {
                use_type_invariant(newc);
                let w = TermV { coeff: newc@, vars: key };
                assert forall|i: int| 0 <= i < out@.len() implies tviews(out@)[i] == s0.update(
                    k as int,
                    w,
                )[i] by {
                    assert(tviews(out@)[i] == tview(out@[i]));
                }
                assert(tviews(out@) =~= s0.update(k as int, w));
                let res = s0.update(k as int, w);
                assert forall|i: int, j: int| 0 <= i < j < res.len() implies #[trigger] term_before(
                    res[i],
                    res[j],
                ) by {
                    assert(res[i].vars == s0[i].vars);
                    assert(res[j].vars == s0[j].vars);
                    assert(term_before(s0[i], s0[j]));
                }
                assert(is_canonical(res));
                assert forall|m: Seq<VarV>| true implies #[trigger] lookupc(tviews(out@), m) == (
                if m == key {
                    rat_add(lookupc(s0, m), tv.coeff)
                } else {
                    lookupc(s0, m)
                }) by {
                    if m == key {
                        lemma_lookupc_at(res, m, k as int);
                    } else {
                        lemma_lookupc_agree(s0, res, m);
                    }
                }
            }
        }
    } else {
        proof {
            assert forall|i: int| 0 <= i < s0.len() implies (#[trigger] s0[i]).vars != key by {
                if i < k {
                    lemma_term_before_distinct(s0[i], tv);
                } else if i == k {
                    assert(s0[k as int] == tview(out@[k as int]));
                    assert(s0[k as int].vars != key);
                } else {
                    assert(s0[k as int] == tview(out@[k as int]));
                    assert(s0[k as int].vars != key);
                    if !term_before(tv, s0[k as int]) {
                        lemma_term_connex(s0[k as int], tv);
                    }
                    assert(term_before(tv, s0[k as int]));
                    assert(term_before(s0[k as int], s0[i]));
                    lemma_term_trans(tv, s0[k as int], s0[i]);
                    lemma_term_before_distinct(tv, s0[i]);
                }
            }
            lemma_lookupc_notin(s0, key);
            if k < s0.len() {
                if !term_before(tv, s0[k as int]) {
                    lemma_term_connex(s0[k as int], tv);
                }
            }
        }
        out.insert(k, t);
        proof {
            assert forall|i: int| 0 <= i < out@.len() implies tviews(out@)[i] == s0.insert(
                k as int,
                tv,
            )[i] by {
                assert(tviews(out@)[i] == tview(out@[i]));
                if i < k {
                    assert(out@[i] == old(out)@[i]);
                } else if i == k {
                    assert(out@[i] == t);
                } else {
                    assert(out@[i] == old(out)@[i - 1]);
                }
            }
            assert(tviews(out@) =~= s0.insert(k as int, tv));
            let res = s0.insert(k as int, tv);
            assert forall|i: int, j: int| 0 <= i < j < res.len() implies #[trigger] term_before(
                res[i],
                res[j],
            ) by {
                if i < k && j == k {
                    assert(res[i] == s0[i]);
                } else if i == k && j > k {
                    assert(res[j] == s0[j - 1]);
                    if j - 1 > k {
                        assert(term_before(s0[k as int], s0[j - 1]));
                        lemma_term_trans(tv, s0[k as int], s0[j - 1]);
                    }
                } else if i < k && j > k {
                    assert(res[i] == s0[i] && res[j] == s0[j - 1]);
                    if j - 1 == k {
                        lemma_term_trans(s0[i], tv, s0[k as int]);
                    }
                } else if i > k && j > k {
                    assert(res[i] == s0[i - 1] && res[j] == s0[j - 1]);
                }
            }
            assert(is_canonical(res));
            assert forall|m: Seq<VarV>| true implies #[trigger] lookupc(tviews(out@), m) == (if m
                == key {
                rat_add(lookupc(s0, m), tv.coeff)
            } else {
                lookupc(s0, m)
            }) by {
                if m == key {
                    assert forall|i: int| 0 <= i < k implies (#[trigger] res[i]).vars != m by {
                        assert(res[i] == s0[i]);
                    }
                    lemma_lookupc_at(res, m, k as int);
                    lemma_rat_add_zero_front(tv.coeff);
                } else {
                    lemma_lookupc_insert(s0, k as int, tv, m);
                }
            }
        }
    }
}

pub proof fn lemma_lookupc_reduced(s: Seq<TermV>, m: Seq<VarV>)
    requires
        forall|i: int| 0 <= i < s.len() ==> rat_reduced((#[trigger] s[i]).coeff),
    ensures
        rat_reduced(lookupc(s, m)),
    decreases s.len(),
{
    crate::coeff::lemma_gcd_one(0);
    if s.len() > 0 {
        if s[0].vars == m {
        } else {
            assert(forall|i: int| 0 <= i < s.drop_first().len() ==> s.drop_first()[i] == s[i + 1]);
            lemma_lookupc_reduced(s.drop_first(), m);
        }
    }
}

// ---------------------------------------------------------------------------
// Canonicalization
// ---------------------------------------------------------------------------

impl Poly {
    /// Rewrites this polynomial into its canonical form: zero-coefficient
    /// terms dropped, duplicate symbols inside a term merged, zero-degree
    /// variables dropped, variables sorted by symbol, like terms merged
    /// (and dropped when they cancel), and terms sorted by total degree
    /// descending with a lexicographic tie-break on the variable sequence.
    /// The mathematical value, `coeff_at` on every monomial, is unchanged.
    pub fn simplify(&mut self)
        requires
            forall|i: int| 0 <= i < pview(*old(self)).len() ==> tdeg(
                (#[trigger] pview(*old(self))[i]).vars,
            ) <= usize::MAX,
            forall|i: int, m: Seq<VarV>| 0 <= i <= pview(*old(self)).len() ==> rat_fits(
                #[trigger] coeff_at(pview(*old(self)).take(i), m),
            ),
        ensures
            is_canonical(pview(*final(self))),
            sem_eq(pview(*final(self)), pview(*old(self))),
    {
        let ghost pv0 = pview(*old(self));
        let mut out: Vec<PolyTerm> = Vec::new();
        proof {
            assert(tviews(out@) =~= Seq::<TermV>::empty());
            assert(pv0.take(0) =~= Seq::<TermV>::empty());
        }
        let n = self.0.len();
        let mut i: usize = 0;
        while i < n
            invariant
                0 <= i <= n,
                n == self.0@.len(),
                pview(*self) == pv0,
                is_canonical(tviews(out@)),
                forall|j: int| 0 <= j < out@.len() ==> tdeg((#[trigger] tviews(out@)[j]).vars)
                    <= usize::MAX,
                forall|m: Seq<VarV>| #[trigger] lookupc(tviews(out@), m) == coeff_at(
                    pv0.take(i as int),
                    m,
                ),
                forall|j: int| 0 <= j < pv0.len() ==> tdeg((#[trigger] pv0[j]).vars)
                    <= usize::MAX,
                forall|j: int, m: Seq<VarV>| 0 <= j <= pv0.len() ==> rat_fits(
                    #[trigger] coeff_at(pv0.take(j), m),
                ),
            decreases n - i,
        {
            let t = &self.0[i];
            proof {
                assert(tview(*t) == pv0[i as int]);
                use_type_invariant(t.coeff);
            }
            let cv = canon_term_vars(&t.vars);
            let c = t.coeff;
            let ghost key = mono(pv0[i as int].vars);
            let ghost prev = pv0.take(i as int);
            let ghost step = pv0.take(i + 1);
            proof {
                assert(step.drop_last() =~= prev);
                assert(step.last() == pv0[i as int]);
                lemma_tdeg_mono(pv0[i as int].vars);
            }
            if c.is_zero() {
                proof {
                    assert forall|m: Seq<VarV>| #[trigger] coeff_at(step, m) == coeff_at(
                        prev,
                        m,
                    ) by {
                        if mono(step.last().vars) == m {
                            assert(coeff_at(prev, m) == lookupc(tviews(out@), m));
                            lemma_lookupc_reduced(tviews(out@), m);
                            lemma_rat_add_zero_any(coeff_at(prev, m), c@);
                        }
                    }
                }
            } else {
                let nt = PolyTerm { coeff: c, vars: cv };
                proof {
                    assert(tview(nt).vars == key);
                    assert(tview(nt).coeff == c@);
                    assert(rat_fits(rat_add(lookupc(tviews(out@), key), c@))) by {
                        assert(lookupc(tviews(out@), key) == coeff_at(prev, key));
                        assert(mono(step.last().vars) == key);
                        assert(coeff_at(step, key) == rat_add(coeff_at(prev, key), c@));
                        assert(rat_fits(coeff_at(pv0.take(i + 1), key)));
                    }
                }
                insert_term(&mut out, nt);
                proof {
                    assert forall|m: Seq<VarV>| #[trigger] lookupc(tviews(out@), m) == coeff_at(
                        step,
                        m,
                    ) by {
                        if m == key {
                            assert(coeff_at(step, m) == rat_add(coeff_at(prev, m), c@));
                        } else {
                            assert(mono(step.last().vars) != m);
                            assert(coeff_at(step, m) == coeff_at(prev, m));
                        }
                    }
                }
            }
            i = i + 1;
        }
        self.0 = out;
        proof {
            assert(pv0.take(n as int) =~= pv0);
            assert forall|m: Seq<VarV>| #[trigger] coeff_at(pview(*self), m) == coeff_at(
                pv0,
                m,
            ) by {
                lemma_coeff_at_canonical(pview(*self), m);
            }
        }
    }
}

// ---------------------------------------------------------------------------
// Uniqueness of the canonical form
// ---------------------------------------------------------------------------

/// Two canonical polynomials whose monomials all carry the same exact
/// coefficients are the same sequence of terms: the canonical form is the
/// unique representative of a mathematical polynomial.
pub proof fn lemma_canonical_lookup_unique(p: Seq<TermV>, q: Seq<TermV>)
    requires
        is_canonical(p),
        is_canonical(q),
        forall|m: Seq<VarV>| #![trigger lookupc(p, m), lookupc(q, m)] lookupc(p, m) == lookupc(
            q,
            m,
        ),
    ensures
        p == q,
    decreases p.len() + q.len(),
{
    if p.len() == 0 && q.len() == 0 {
        assert(p =~= q);
    } else if p.len() == 0 {
        let m2 = q[0].vars;
        lemma_lookupc_at(q, m2, 0);
        lemma_lookupc_notin(p, m2);
        assert(q[0].coeff == rat_zero());
        assert(false);
    } else if q.len() == 0 {
        let m1 = p[0].vars;
        lemma_lookupc_at(p, m1, 0);
        lemma_lookupc_notin(q, m1);
        assert(false);
    } else {
        let m1 = p[0].vars;
        let m2 = q[0].vars;
        lemma_lookupc_at(p, m1, 0);
        lemma_lookupc_at(q, m2, 0);
        assert(p[0].coeff.n != 0);
        assert(q[0].coeff.n != 0);
        if forall|j: int| 0 <= j < q.len() ==> (#[trigger] q[j]).vars != m1 {
            lemma_lookupc_notin(q, m1);
            assert(lookupc(p, m1) == rat_zero());
            assert(false);
        }
        let j1 = choose|j: int| 0 <= j < q.len() && (#[trigger] q[j]).vars == m1;
        if forall|j: int| 0 <= j < p.len() ==> (#[trigger] p[j]).vars != m2 {
            lemma_lookupc_notin(p, m2);
            assert(lookupc(q, m2) == rat_zero());
            assert(false);
        }
        let j2 = choose|j: int| 0 <= j < p.len() && (#[trigger] p[j]).vars == m2;
        if m1 != m2 {
            assert(j1 != 0);
            assert(j2 != 0);
            assert(term_before(q[0], q[j1]));
            assert(term_before(p[0], p[j2]));
            assert(term_before(q[0], p[0])) by {
                assert(q[j1].vars == p[0].vars);
            }
            assert(term_before(p[0], q[0])) by {
                assert(p[j2].vars == q[0].vars);
            }
            lemma_term_trans(p[0], q[0], p[0]);
            lemma_term_before_distinct(p[0], p[0]);
            assert(false);
        }
        assert(p[0].coeff == q[0].coeff);
        assert(p[0] == q[0]);
        let pr = p.drop_first();
        let qr = q.drop_first();
        assert(forall|i: int| 0 <= i < pr.len() ==> pr[i] == p[i + 1]);
        assert(forall|i: int| 0 <= i < qr.len() ==> qr[i] == q[i + 1]);
        assert(is_canonical(pr));
        assert(is_canonical(qr));
        assert forall|m: Seq<VarV>| #![trigger lookupc(pr, m), lookupc(qr, m)] lookupc(pr, m)
            == lookupc(qr, m) by {
            if m == m1 {
                assert forall|i: int| 0 <= i < pr.len() implies (#[trigger] pr[i]).vars != m by {
                    assert(term_before(p[0], p[i + 1]));
                    lemma_term_before_distinct(p[0], p[i + 1]);
                }
                assert forall|i: int| 0 <= i < qr.len() implies (#[trigger] qr[i]).vars != m by {
                    assert(term_before(q[0], q[i + 1]));
                    lemma_term_before_distinct(q[0], q[i + 1]);
                }
                lemma_lookupc_notin(pr, m);
                lemma_lookupc_notin(qr, m);
            } else {
                assert(lookupc(p, m) == lookupc(pr, m));
                assert(lookupc(q, m) == lookupc(qr, m));
            }
        }
        lemma_canonical_lookup_unique(pr, qr);
        assert(p.len() == q.len());
        assert forall|i: int| 0 <= i < p.len() implies p[i] == q[i] by {
            if i > 0 {
                assert(p[i] == pr[i - 1]);
                assert(q[i] == qr[i - 1]);
            }
        }
        assert(p =~= q);
    }
}

/// Canonical uniqueness over the semantic view: two canonical polynomials
/// denoting the same mathematical polynomial are identical.
pub proof fn lemma_canonical_unique(p: Seq<TermV>, q: Seq<TermV>)
    requires
        is_canonical(p),
        is_canonical(q),
        sem_eq(p, q),
    ensures
        p == q,
{
    assert forall|m: Seq<VarV>| #![trigger lookupc(p, m), lookupc(q, m)] lookupc(p, m) == lookupc(
        q,
        m,
    ) by {
        lemma_coeff_at_canonical(p, m);
        lemma_coeff_at_canonical(q, m);
        assert(coeff_at(p, m) == coeff_at(q, m));
    }
    lemma_canonical_lookup_unique(p, q);
}

// ---------------------------------------------------------------------------
// Arithmetic operations
// ---------------------------------------------------------------------------

/// The view of a polynomial with every coefficient negated.
pub open spec fn pneg(s: Seq<TermV>) -> Seq<TermV> {
    s.map_values(|t: TermV| TermV { coeff: rat_neg(t.coeff), vars: t.vars })
}

fn clone_vars(vars: &Vec<PolyVar>) -> (out: Vec<PolyVar>)
    ensures
        vsview(out@) == vsview(vars@),
{
    let mut out: Vec<PolyVar> = Vec::new();
    let mut i: usize = 0;
    while i < vars.len()
        invariant
            0 <= i <= vars@.len(),
            out@.len() == i,
            forall|j: int| 0 <= j < i ==> vsview(out@)[j] == vsview(vars@)[j],
        decreases vars@.len() - i,
    {
        out.push(vars[i].clone());
        proof {
            assert(vsview(out@)[i as int] == vview(out@[i as int]));
        }
        i = i + 1;
    }
    proof {
        assert(vsview(out@) =~= vsview(vars@));
    }
    out
}

impl Poly {
    /// The polynomial's degree: the largest total degree of any term, zero
    /// for the empty polynomial.
    pub fn degree(&self) -> (d: usize)
        requires
            forall|i: int| 0 <= i < pview(*self).len() ==> tdeg((#[trigger] pview(*self)[i]).vars)
                <= usize::MAX,
        ensures
            forall|i: int| 0 <= i < pview(*self).len() ==> tdeg((#[trigger] pview(*self)[i]).vars)
                <= d as nat,
            pview(*self).len() == 0 ==> d == 0,
            pview(*self).len() > 0 ==> exists|i: int| 0 <= i < pview(*self).len() && tdeg(
                (#[trigger] pview(*self)[i]).vars,
            ) == d as nat,
    {
        let mut d: usize = 0;
        let mut i: usize = 0;
        while i < self.0.len()
            invariant
                0 <= i <= self.0@.len(),
                forall|j: int| 0 <= j < pview(*self).len() ==> tdeg(
                    (#[trigger] pview(*self)[j]).vars,
                ) <= usize::MAX,
                forall|j: int| 0 <= j < i ==> tdeg((#[trigger] pview(*self)[j]).vars) <= d as nat,
                i == 0 ==> d == 0,
                i > 0 ==> exists|j: int| 0 <= j < i && tdeg((#[trigger] pview(*self)[j]).vars)
                    == d as nat,
            decreases self.0@.len() - i,
        {
            proof {
                assert(pview(*self)[i as int] == tview(self.0@[i as int]));
            }
            let td = vars_total_deg(&self.0[i].vars);
            if i == 0 || td > d {
                d = td;
            }
            i = i + 1;
        }
        d
    }

    /// Negation: every coefficient is negated exactly; nothing else moves.
    pub fn neg(self) -> (r: Self)
        ensures
            pview(r) == pneg(pview(self)),
    {
        let ghost a = pview(self);
        let mut out: Vec<PolyTerm> = Vec::new();
        let me = self;
        let mut i: usize = 0;
        while i < me.0.len()
            invariant
                0 <= i <= me.0@.len(),
                a == pview(me),
                out@.len() == i,
                forall|j: int| 0 <= j < i ==> tviews(out@)[j] == pneg(a)[j],
            decreases me.0@.len() - i,
        {
            let t = &me.0[i];
            proof {
                assert(a[i as int] == tview(me.0@[i as int]));
            }
            let nc = t.coeff.neg();
            let nv = clone_vars(&t.vars);
            out.push(PolyTerm { coeff: nc, vars: nv });
            proof {
                assert(tviews(out@)[i as int] == tview(out@[i as int]));
            }
            i = i + 1;
        }
        proof {
            assert(tviews(out@) =~= pneg(a));
        }
        Poly(out)
    }

    /// Addition: the terms of `rhs` are appended to the terms of `self`;
    /// the (possibly non-canonical) result denotes the exact sum.
    pub fn add(self, rhs: Self) -> (r: Self)
        ensures
            pview(r) == pview(self) + pview(rhs),
    {
        let ghost a = pview(self);
        let ghost b = pview(rhs);
        let mut me = self;
        let mut other = rhs;
        me.0.append(&mut other.0);
        proof {
            assert(tviews(me.0@) =~= a + b);
        }
        me
    }

    /// In-place addition: appends the terms of `rhs`.
    pub fn add_assign(&mut self, rhs: Self)
        ensures
            pview(*final(self)) == pview(*old(self)) + pview(rhs),
    {
        let ghost b = pview(rhs);
        let mut other = rhs;
        self.0.append(&mut other.0);
        proof {
            assert(tviews(self.0@) =~= pview(*old(self)) + b);
        }
    }

    /// Subtraction: appends the negation of `rhs`.
    pub fn sub(self, rhs: Self) -> (r: Self)
        ensures
            pview(r) == pview(self) + pneg(pview(rhs)),
    {
        let n = rhs.neg();
        self.add(n)
    }

    /// In-place subtraction: appends the negation of `rhs`.
    pub fn sub_assign(&mut self, rhs: Self)
        ensures
            pview(*final(self)) == pview(*old(self)) + pneg(pview(rhs)),
    {
        let n = rhs.neg();
        self.add_assign(n);
    }

    /// Multiplication: the Cartesian product of the two term lists.  The
    /// term for the pair `(i, j)` sits at index `i * |rhs| + j`, with the
    /// coefficients multiplied exactly and the variable lists concatenated;
    /// duplicate symbols are left for `simplify` to merge.
    pub fn mul(&self, rhs: &Poly) -> (r: Poly)
        requires
            forall|i: int, j: int| 0 <= i < pview(*self).len() && 0 <= j < pview(*rhs).len()
                ==> rat_fits(rat_mul(
                (#[trigger] pview(*self)[i]).coeff,
                (#[trigger] pview(*rhs)[j]).coeff,
            )),
        ensures
            pview(r).len() == pview(*self).len() * pview(*rhs).len(),
            forall|i: int, j: int| 0 <= i < pview(*self).len() && 0 <= j < pview(*rhs).len()
                ==> pview(r)[i * pview(*rhs).len() + j] == (TermV {
                coeff: rat_mul(
                    (#[trigger] pview(*self)[i]).coeff,
                    (#[trigger] pview(*rhs)[j]).coeff,
                ),
                vars: pview(*self)[i].vars + pview(*rhs)[j].vars,
            }),
    {
        let ghost a = pview(*self);
        let ghost b = pview(*rhs);
        let m = rhs.0.len();
        let mut out: Vec<PolyTerm> = Vec::new();
        let mut i: usize = 0;
        while i < self.0.len()
            invariant
                0 <= i <= self.0@.len(),
                a == pview(*self),
                b == pview(*rhs),
                m == rhs.0@.len(),
                out@.len() == i * m,
                forall|i2: int, j2: int| 0 <= i2 < a.len() && 0 <= j2 < b.len() ==> rat_fits(
                    rat_mul((#[trigger] a[i2]).coeff, (#[trigger] b[j2]).coeff),
                ),
                forall|i2: int, j2: int| 0 <= i2 < i && 0 <= j2 < m ==> tviews(out@)[i2 * m + j2]
                    == (TermV {
                    coeff: rat_mul((#[trigger] a[i2]).coeff, (#[trigger] b[j2]).coeff),
                    vars: a[i2].vars + b[j2].vars,
                }),
            decreases self.0@.len() - i,
        {
            proof {
                assert(a[i as int] == tview(self.0@[i as int]));
            }
            let mut j: usize = 0;
            while j < m
                invariant
                    0 <= i < self.0@.len(),
                    0 <= j <= m,
                    a == pview(*self),
                    b == pview(*rhs),
                    m == rhs.0@.len(),
                    a[i as int] == tview(self.0@[i as int]),
                    out@.len() == i * m + j,
                    forall|i2: int, j2: int| 0 <= i2 < a.len() && 0 <= j2 < b.len() ==> rat_fits(
                        rat_mul((#[trigger] a[i2]).coeff, (#[trigger] b[j2]).coeff),
                    ),
                    forall|i2: int, j2: int| (0 <= i2 < i && 0 <= j2 < m) || (i2 == i && 0 <= j2
                        < j) ==> tviews(out@)[i2 * m + j2] == (TermV {
                        coeff: rat_mul((#[trigger] a[i2]).coeff, (#[trigger] b[j2]).coeff),
                        vars: a[i2].vars + b[j2].vars,
                    }),
                decreases m - j,
            {
                let t1 = &self.0[i];
                let t2 = &rhs.0[j];
                proof {
                    assert(b[j as int] == tview(rhs.0@[j as int]));
                }
                let c = t1.coeff.mul(&t2.coeff);
                let mut nv = clone_vars(&t1.vars);
                let mut nv2 = clone_vars(&t2.vars);
                let ghost out0 = out@;
                nv.append(&mut nv2);
                proof {
                    assert forall|q: int| 0 <= q < vsview(nv@).len() implies vsview(nv@)[q] == (a[
                        i as int].vars + b[j as int].vars)[q] by {
                        assert(vsview(nv@)[q] == vview(nv@[q]));
                    }
                    assert(vsview(nv@) =~= a[i as int].vars + b[j as int].vars);
                }
                out.push(PolyTerm { coeff: c, vars: nv });
                proof {
                    assert(out@ == out0.push(out@[out0.len() as int]));
                    assert(tviews(out@)[i * m + j] == tview(out@[i * m + j]));
                    assert forall|i2: int, j2: int| (0 <= i2 < i && 0 <= j2 < m) || (i2 == i && 0
                        <= j2 < j + 1) implies tviews(out@)[i2 * m + j2] == (TermV {
                        coeff: rat_mul((#[trigger] a[i2]).coeff, (#[trigger] b[j2]).coeff),
                        vars: a[i2].vars + b[j2].vars,
                    }) by {
                        if i2 == i && j2 == j {
                        } else {
                            assert(0 <= i2 * m + j2 < out0.len()) by (nonlinear_arith)
                                requires
                                    (0 <= i2 < i && 0 <= j2 < m) || (i2 == i && 0 <= j2 < j),
                                    out0.len() == i * m + j,
                                    m >= 1;
                            assert(out@[i2 * m + j2] == out0[i2 * m + j2]);
                            assert(tviews(out@)[i2 * m + j2] == tview(out@[i2 * m + j2]));
                            assert(tviews(out0)[i2 * m + j2] == tview(out0[i2 * m + j2]));
                        }
                    }
                }
                j = j + 1;
            }
            proof {
                assert(i * m + m == (i + 1) * m) by (nonlinear_arith);
            }
            i = i + 1;
        }
        proof {
            assert(out@.len() == self.0@.len() * m);
        }
        Poly(out)
    }
}

// ---------------------------------------------------------------------------
// Substitution
// ---------------------------------------------------------------------------

/// A variable after substituting for `symb`: matching variables keep their
/// symbol but drop to degree zero (a later `simplify` removes them).
pub open spec fn subst_var(v: VarV, symb: Seq<u8>) -> VarV {
    if v.sym == symb {
        VarV { sym: v.sym, deg: 0 }
    } else {
        v
    }
}

/// A term's coefficient after substituting `val` for `symb` in its first
/// `j` variables: for each match the coefficient is multiplied by
/// `val^deg`, exactly and in variable order.
pub open spec fn subst_coeff(t: TermV, symb: Seq<u8>, val: Rat, j: int) -> Rat
    decreases j,
{
    if j <= 0 {
        t.coeff
    } else {
        let p = subst_coeff(t, symb, val, j - 1);
        if t.vars[j - 1].sym == symb {
            rat_mul(p, rat_pow(val, t.vars[j - 1].deg))
        } else {
            p
        }
    }
}

/// The largest degree of any variable in a list.
pub open spec fn vars_max_deg(vs: Seq<VarV>) -> nat
    decreases vs.len(),
{
    if vs.len() == 0 {
        0
    } else {
        let r = vars_max_deg(vs.drop_last());
        if vs.last().deg > r {
            vs.last().deg
        } else {
            r
        }
    }
}

/// The largest degree of any variable in a polynomial.
pub open spec fn poly_max_deg(s: Seq<TermV>) -> nat
    decreases s.len(),
{
    if s.len() == 0 {
        0
    } else {
        let r = poly_max_deg(s.drop_last());
        if vars_max_deg(s.last().vars) > r {
            vars_max_deg(s.last().vars)
        } else {
            r
        }
    }
}

proof fn lemma_vars_max_deg(vs: Seq<VarV>, j: int)
    requires
        0 <= j < vs.len(),
    ensures
        vs[j].deg <= vars_max_deg(vs),
    decreases vs.len(),
{
    if j == vs.len() - 1 {
    } else {
        assert(forall|q: int| 0 <= q < vs.drop_last().len() ==> vs.drop_last()[q] == vs[q]);
        lemma_vars_max_deg(vs.drop_last(), j);
    }
}

proof fn lemma_poly_max_deg(s: Seq<TermV>, i: int)
    requires
        0 <= i < s.len(),
    ensures
        vars_max_deg(s[i].vars) <= poly_max_deg(s),
    decreases s.len(),
{
    if i == s.len() - 1 {
    } else {
        assert(forall|q: int| 0 <= q < s.drop_last().len() ==> s.drop_last()[q] == s[q]);
        lemma_poly_max_deg(s.drop_last(), i);
    }
}

/// Symbol comparison against a borrowed string slice.
fn sym_eq_str(a: &String, b: &str) -> (r: bool)
    ensures
        r == (encode_utf8(a@) == encode_utf8(b@)),
{
    bytes_eq(a.as_str().as_bytes(), b.as_bytes())
}

impl Poly {
    /// Replaces every occurrence of `sym` by the constant `val`: each
    /// matching variable multiplies its term's coefficient by `val` raised
    /// to the variable's degree and drops to degree zero.  The polynomial
    /// is left raw; a later `simplify` removes the spent variables and
    /// merges any terms the substitution made alike.  Symbols not present
    /// are silently left alone, whatever `val` is.
    pub fn substitute(&mut self, sym: &str, val: Coeff)
        requires
            forall|d: int| 0 <= d <= poly_max_deg(pview(*old(self))) ==> rat_fits(
                #[trigger] rat_pow(val@, d as nat),
            ),
            forall|i: int, j: int| 0 <= i < pview(*old(self)).len() && 0 <= j <= pview(
                *old(self),
            )[i].vars.len() ==> rat_fits(
                #[trigger] subst_coeff(pview(*old(self))[i], encode_utf8(sym@), val@, j),
            ),
        ensures
            pview(*final(self)).len() == pview(*old(self)).len(),
            forall|i: int| 0 <= i < pview(*old(self)).len() ==> (#[trigger] pview(
                *final(self),
            )[i]).coeff == subst_coeff(
                pview(*old(self))[i],
                encode_utf8(sym@),
                val@,
                pview(*old(self))[i].vars.len() as int,
            ),
            forall|i: int| 0 <= i < pview(*old(self)).len() ==> (#[trigger] pview(
                *final(self),
            )[i]).vars.len() == pview(*old(self))[i].vars.len(),
            forall|i: int, j: int| 0 <= i < pview(*old(self)).len() && 0 <= j < pview(
                *old(self),
            )[i].vars.len() ==> pview(*final(self))[i].vars[j] == #[trigger] subst_var(
                pview(*old(self))[i].vars[j],
                encode_utf8(sym@),
            ),
    {
        let ghost pv0 = pview(*old(self));
        let ghost sb = encode_utf8(sym@);
        proof {
            use_type_invariant(val);
        }
        let mut out: Vec<PolyTerm> = Vec::new();
        let n = self.0.len();
        let mut i: usize = 0;
        while i < n
            invariant
                0 <= i <= n,
                n == self.0@.len(),
                pview(*self) == pv0,
                sb == encode_utf8(sym@),
                rat_wf(val@),
                out@.len() == i,
                forall|d: int| 0 <= d <= poly_max_deg(pv0) ==> rat_fits(
                    #[trigger] rat_pow(val@, d as nat),
                ),
                forall|i2: int, j: int| 0 <= i2 < pv0.len() && 0 <= j <= pv0[i2].vars.len()
                    ==> rat_fits(#[trigger] subst_coeff(pv0[i2], sb, val@, j)),
                forall|i2: int| 0 <= i2 < i ==> (#[trigger] tviews(out@)[i2]).coeff
                    == subst_coeff(pv0[i2], sb, val@, pv0[i2].vars.len() as int),
                forall|i2: int| 0 <= i2 < i ==> (#[trigger] tviews(out@)[i2]).vars.len()
                    == pv0[i2].vars.len(),
                forall|i2: int, j: int| 0 <= i2 < i && 0 <= j < pv0[i2].vars.len() ==> tviews(
                    out@,
                )[i2].vars[j] == #[trigger] subst_var(pv0[i2].vars[j], sb),
            decreases n - i,
        {
            let t = &self.0[i];
            let ghost tv = pv0[i as int];
            proof {
                assert(tv == tview(self.0@[i as int]));
                use_type_invariant(t.coeff);
            }
            let mut c = t.coeff;
            let mut nv: Vec<PolyVar> = Vec::new();
            let vn = t.vars.len();
            let mut j: usize = 0;
            while j < vn
                invariant
                    0 <= j <= vn,
                    n == self.0@.len(),
                    0 <= i < n,
                    pview(*self) == pv0,
                    sb == encode_utf8(sym@),
                    rat_wf(val@),
                    tv == pv0[i as int],
                    tv == tview(self.0@[i as int]),
                    vn == tv.vars.len(),
                    c@ == subst_coeff(tv, sb, val@, j as int),
                    nv@.len() == j,
                    forall|q: int| 0 <= q < j ==> vsview(nv@)[q] == subst_var(tv.vars[q], sb),
                    forall|d: int| 0 <= d <= poly_max_deg(pv0) ==> rat_fits(
                        #[trigger] rat_pow(val@, d as nat),
                    ),
                    forall|i2: int, j2: int| 0 <= i2 < pv0.len() && 0 <= j2 <= pv0[
                        i2
                    ].vars.len() ==> rat_fits(#[trigger] subst_coeff(pv0[i2], sb, val@, j2)),
                decreases vn - j,
            {
                let v = &self.0[i].vars[j];
                proof {
                    assert(tv.vars[j as int] == vview(self.0@[i as int].vars@[j as int]));
                }
                if sym_eq_str(&v.sym, sym) {
                    proof {
                        lemma_vars_max_deg(tv.vars, j as int);
                        lemma_poly_max_deg(pv0, i as int);
                        assert(subst_coeff(tv, sb, val@, j + 1) == rat_mul(
                            c@,
                            rat_pow(val@, tv.vars[j as int].deg),
                        ));
                    }
                    let p = val.pow(v.deg);
                    c = c.mul(&p);
                    let ghost nv0 = nv@;
                    nv.push(PolyVar { sym: clone_string(&v.sym), deg: 0 });
                    proof {
                        assert(vsview(nv@)[j as int] == vview(nv@[j as int]));
                        assert(tv.vars[j as int].sym == sb);
                        assert forall|q: int| 0 <= q < j implies vsview(nv@)[q] == #[trigger] subst_var(
                            tv.vars[q],
                            sb,
                        ) by {
                            assert(nv@[q] == nv0[q]);
                            assert(vsview(nv@)[q] == vview(nv@[q]));
                            assert(vsview(nv0)[q] == vview(nv0[q]));
                        }
                    }
                } else {
                    let ghost nv0 = nv@;
                    nv.push(v.clone());
                    proof {
                        assert(vsview(nv@)[j as int] == vview(nv@[j as int]));
                        assert(tv.vars[j as int].sym != sb);
                        assert(subst_coeff(tv, sb, val@, j + 1) == subst_coeff(
                            tv,
                            sb,
                            val@,
                            j as int,
                        ));
                        assert forall|q: int| 0 <= q < j implies vsview(nv@)[q] == #[trigger] subst_var(
                            tv.vars[q],
                            sb,
                        ) by {
                            assert(nv@[q] == nv0[q]);
                            assert(vsview(nv@)[q] == vview(nv@[q]));
                            assert(vsview(nv0)[q] == vview(nv0[q]));
                        }
                    }
                }
                j = j + 1;
            }
            let ghost out0 = out@;
            out.push(PolyTerm { coeff: c, vars: nv });
            proof {
                assert(tviews(out@)[i as int] == tview(out@[i as int]));
                assert forall|i2: int| 0 <= i2 < i implies (#[trigger] tviews(out@)[i2])
                    == tviews(out0)[i2] by {
                    assert(out@[i2] == out0[i2]);
                    assert(tviews(out@)[i2] == tview(out@[i2]));
                    assert(tviews(out0)[i2] == tview(out0[i2]));
                }
                assert(out@[i as int] == (PolyTerm { coeff: c, vars: nv }));
                assert((tviews(out@)[i as int]).coeff == c@);
                assert(c@ == subst_coeff(tv, sb, val@, vn as int));
                assert(vn == tv.vars.len());
                assert((tviews(out@)[i as int]).coeff == subst_coeff(
                    pv0[i as int],
                    sb,
                    val@,
                    pv0[i as int].vars.len() as int,
                ));
                assert((tviews(out@)[i as int]).vars.len() == pv0[i as int].vars.len());
            }
            i = i + 1;
        }
        self.0 = out;
    }
}

// ---------------------------------------------------------------------------
// Symbol occurrence and symbol degree
// ---------------------------------------------------------------------------

/// The index of the first variable carrying `symb`, or -1 if none does.
pub open spec fn find_sym(vs: Seq<VarV>, symb: Seq<u8>) -> int
    decreases vs.len(),
{
    if vs.len() == 0 {
        -1
    } else if vs[0].sym == symb {
        0
    } else {
        let r = find_sym(vs.drop_first(), symb);
        if r < 0 {
            -1
        } else {
            r + 1
        }
    }
}

/// The total exponent of `symb` in a variable list.
pub open spec fn symdeg(vs: Seq<VarV>, symb: Seq<u8>) -> nat
    decreases vs.len(),
{
    if vs.len() == 0 {
        0
    } else {
        symdeg(vs.drop_last(), symb) + (if vs.last().sym == symb {
            vs.last().deg
        } else {
            0
        })
    }
}

pub proof fn lemma_find_sym(vs: Seq<VarV>, symb: Seq<u8>)
    ensures
        -1 <= find_sym(vs, symb) < vs.len(),
        find_sym(vs, symb) >= 0 ==> vs[find_sym(vs, symb)].sym == symb,
        find_sym(vs, symb) < 0 ==> forall|i: int| 0 <= i < vs.len() ==> (#[trigger] vs[i]).sym
            != symb,
        forall|i: int| 0 <= i < find_sym(vs, symb) ==> (#[trigger] vs[i]).sym != symb,
    decreases vs.len(),
{
    if vs.len() > 0 && vs[0].sym != symb {
        lemma_find_sym(vs.drop_first(), symb);
        let rest = vs.drop_first();
        assert(forall|i: int| 0 <= i < rest.len() ==> rest[i] == vs[i + 1]);
        if find_sym(vs, symb) < 0 {
            assert forall|i: int| 0 <= i < vs.len() implies (#[trigger] vs[i]).sym != symb by {
                if i > 0 {
                    assert(vs[i] == rest[i - 1]);
                }
            }
        }
        assert forall|i: int| 0 <= i < find_sym(vs, symb) implies (#[trigger] vs[i]).sym
            != symb by {
            if i > 0 {
                assert(vs[i] == rest[i - 1]);
            }
        }
    }
}

proof fn lemma_find_sym_first(vs: Seq<VarV>, symb: Seq<u8>, k: int)
    requires
        0 <= k < vs.len(),
        vs[k].sym == symb,
        forall|i: int| 0 <= i < k ==> (#[trigger] vs[i]).sym != symb,
    ensures
        find_sym(vs, symb) == k,
    decreases k,
{
    if k > 0 {
        assert(forall|i: int| 0 <= i < vs.drop_first().len() ==> vs.drop_first()[i] == vs[i + 1]);
        lemma_find_sym_first(vs.drop_first(), symb, k - 1);
    }
}

proof fn lemma_symdeg_none(vs: Seq<VarV>, symb: Seq<u8>)
    requires
        forall|i: int| 0 <= i < vs.len() ==> (#[trigger] vs[i]).sym != symb,
    ensures
        symdeg(vs, symb) == 0,
    decreases vs.len(),
{
    if vs.len() > 0 {
        assert(forall|i: int| 0 <= i < vs.drop_last().len() ==> vs.drop_last()[i] == vs[i]);
        lemma_symdeg_none(vs.drop_last(), symb);
    }
}

/// In a canonical list the exponent of `symb` is the degree of its one
/// occurrence.
proof fn lemma_symdeg_at(vs: Seq<VarV>, symb: Seq<u8>, k: int)
    requires
        0 <= k < vs.len(),
        vs[k].sym == symb,
        forall|i: int, j: int| 0 <= i < j < vs.len() ==> #[trigger] blt(vs[i].sym, vs[j].sym),
    ensures
        symdeg(vs, symb) == vs[k].deg,
    decreases vs.len(),
{
    assert forall|i: int| 0 <= i < vs.len() && i != k implies (#[trigger] vs[i]).sym != symb by {
        if i < k {
            lemma_blt_irrefl(symb);
            assert(blt(vs[i].sym, vs[k].sym));
            if vs[i].sym == symb {
                assert(blt(symb, symb));
            }
        } else {
            assert(blt(vs[k].sym, vs[i].sym));
            if vs[i].sym == symb {
                lemma_blt_irrefl(symb);
            }
        }
    }
    if k == vs.len() - 1 {
        assert(forall|i: int| 0 <= i < vs.drop_last().len() ==> vs.drop_last()[i] == vs[i]);
        lemma_symdeg_none(vs.drop_last(), symb);
    } else {
        assert(forall|i: int| 0 <= i < vs.drop_last().len() ==> vs.drop_last()[i] == vs[i]);
        lemma_symdeg_at(vs.drop_last(), symb, k);
        assert(vs.last().sym != symb);
    }
}

proof fn lemma_symdeg_positive(vs: Seq<VarV>, symb: Seq<u8>)
    requires
        symdeg(vs, symb) > 0,
    ensures
        exists|i: int| 0 <= i < vs.len() && (#[trigger] vs[i]).sym == symb,
    decreases vs.len(),
{
    if vs.len() > 0 {
        if vs.last().sym == symb {
            assert(vs[vs.len() - 1].sym == symb);
        } else {
            lemma_symdeg_positive(vs.drop_last(), symb);
            let i = choose|i: int|
                0 <= i < vs.drop_last().len() && (#[trigger] vs.drop_last()[i]).sym == symb;
            assert(vs[i].sym == symb);
        }
    }
}

proof fn lemma_symdeg_update(vs: Seq<VarV>, j: int, w: VarV, s: Seq<u8>)
    requires
        0 <= j < vs.len(),
    ensures
        symdeg(vs.update(j, w), s) + (if vs[j].sym == s {
            vs[j].deg
        } else {
            0
        }) == symdeg(vs, s) + (if w.sym == s {
            w.deg
        } else {
            0
        }),
    decreases vs.len(),
{
    let u = vs.update(j, w);
    if j == vs.len() - 1 {
        assert(u.drop_last() =~= vs.drop_last());
        assert(u.last() == w);
    } else {
        assert(u.drop_last() =~= vs.drop_last().update(j, w));
        assert(u.last() == vs.last());
        lemma_symdeg_update(vs.drop_last(), j, w, s);
        assert(vs.drop_last()[j] == vs[j]);
    }
}

proof fn lemma_symdeg_remove(vs: Seq<VarV>, j: int, s: Seq<u8>)
    requires
        0 <= j < vs.len(),
    ensures
        symdeg(vs.remove(j), s) + (if vs[j].sym == s {
            vs[j].deg
        } else {
            0
        }) == symdeg(vs, s),
    decreases vs.len(),
{
    let u = vs.remove(j);
    if j == vs.len() - 1 {
        assert(u =~= vs.drop_last());
    } else {
        assert(u.drop_last() =~= vs.drop_last().remove(j));
        assert(u.last() == vs.last());
        lemma_symdeg_remove(vs.drop_last(), j, s);
        assert(vs.drop_last()[j] == vs[j]);
    }
}

proof fn lemma_symdeg_one(v: VarV, s: Seq<u8>)
    ensures
        symdeg(seq![v], s) == (if v.sym == s {
            v.deg
        } else {
            0
        }),
{
    assert(seq![v].drop_last() =~= Seq::<VarV>::empty());
    assert(symdeg(Seq::<VarV>::empty(), s) == 0);
    assert(seq![v].last() == v);
}

proof fn lemma_symdeg_mono_insert(vs: Seq<VarV>, symb: Seq<u8>, d: nat, s: Seq<u8>)
    ensures
        symdeg(mono_insert(vs, symb, d), s) == symdeg(vs, s) + (if symb == s {
            d
        } else {
            0
        }),
    decreases vs.len(),
{
    let v = VarV { sym: symb, deg: d };
    if vs.len() == 0 {
        lemma_symdeg_one(v, s);
        assert(mono_insert(vs, symb, d) == seq![v]);
        assert(symdeg(vs, s) == 0);
    } else if blt(symb, vs[0].sym) {
        lemma_symdeg_concat(seq![v], vs, s);
        lemma_symdeg_one(v, s);
    } else if symb == vs[0].sym {
        let w = VarV { sym: symb, deg: (vs[0].deg + d) as nat };
        lemma_symdeg_concat(seq![w], vs.drop_first(), s);
        lemma_symdeg_concat(seq![vs[0]], vs.drop_first(), s);
        lemma_symdeg_one(w, s);
        lemma_symdeg_one(vs[0], s);
        assert(vs =~= seq![vs[0]] + vs.drop_first());
    } else {
        lemma_symdeg_mono_insert(vs.drop_first(), symb, d, s);
        lemma_symdeg_concat(seq![vs[0]], mono_insert(vs.drop_first(), symb, d), s);
        lemma_symdeg_concat(seq![vs[0]], vs.drop_first(), s);
        lemma_symdeg_one(vs[0], s);
        assert(vs =~= seq![vs[0]] + vs.drop_first());
    }
}

proof fn lemma_symdeg_concat(a: Seq<VarV>, b: Seq<VarV>, s: Seq<u8>)
    ensures
        symdeg(a + b, s) == symdeg(a, s) + symdeg(b, s),
    decreases b.len(),
{
    if b.len() == 0 {
        assert(a + b =~= a);
    } else {
        lemma_symdeg_concat(a, b.drop_last(), s);
        assert((a + b).drop_last() =~= a + b.drop_last());
        assert((a + b).last() == b.last());
    }
}

/// Two canonical variable lists giving every symbol the same exponent are
/// the same list.
proof fn lemma_canon_vars_ext(a: Seq<VarV>, b: Seq<VarV>)
    requires
        canon_vars(a),
        canon_vars(b),
        forall|s: Seq<u8>| #![trigger symdeg(a, s), symdeg(b, s)] symdeg(a, s) == symdeg(b, s),
    ensures
        a == b,
    decreases a.len() + b.len(),
{
    if a.len() == 0 && b.len() == 0 {
        assert(a =~= b);
    } else if a.len() == 0 {
        lemma_symdeg_at(b, b[0].sym, 0);
        lemma_symdeg_none(a, b[0].sym);
        assert(false);
    } else if b.len() == 0 {
        lemma_symdeg_at(a, a[0].sym, 0);
        lemma_symdeg_none(b, a[0].sym);
        assert(false);
    } else {
        lemma_symdeg_at(a, a[0].sym, 0);
        lemma_symdeg_at(b, b[0].sym, 0);
        assert(symdeg(b, a[0].sym) == symdeg(a, a[0].sym));
        assert(symdeg(b, a[0].sym) >= 1);
        lemma_symdeg_positive(b, a[0].sym);
        let jb = choose|i: int| 0 <= i < b.len() && (#[trigger] b[i]).sym == a[0].sym;
        assert(symdeg(a, b[0].sym) >= 1) by {
            lemma_symdeg_at(b, b[0].sym, 0);
        }
        lemma_symdeg_positive(a, b[0].sym);
        let ja = choose|i: int| 0 <= i < a.len() && (#[trigger] a[i]).sym == b[0].sym;
        assert(a[0].sym == b[0].sym) by {
            if jb > 0 {
                assert(blt(b[0].sym, b[jb].sym));
            }
            if ja > 0 {
                assert(blt(a[0].sym, a[ja].sym));
            }
            if a[0].sym != b[0].sym {
                if jb > 0 && ja > 0 {
                    lemma_blt_trans(b[0].sym, a[0].sym, b[0].sym);
                    lemma_blt_irrefl(b[0].sym);
                }
            }
        }
        assert(a[0].deg == b[0].deg) by {
            lemma_symdeg_at(b, a[0].sym, 0);
        }
        assert(a[0] == b[0]);
        let ar = a.drop_first();
        let br = b.drop_first();
        assert(forall|i: int| 0 <= i < ar.len() ==> ar[i] == a[i + 1]);
        assert(forall|i: int| 0 <= i < br.len() ==> br[i] == b[i + 1]);
        assert(canon_vars(ar));
        assert(canon_vars(br));
        assert forall|s: Seq<u8>| #![trigger symdeg(ar, s), symdeg(br, s)] symdeg(ar, s) == symdeg(
            br,
            s,
        ) by {
            assert(a =~= seq![a[0]] + ar);
            assert(b =~= seq![b[0]] + br);
            lemma_symdeg_concat(seq![a[0]], ar, s);
            lemma_symdeg_concat(seq![b[0]], br, s);
            assert(seq![a[0]].drop_last() =~= Seq::<VarV>::empty());
            assert(seq![a[0]].last() == a[0]);
            assert(seq![b[0]].drop_last() =~= Seq::<VarV>::empty());
            assert(seq![b[0]].last() == b[0]);
        }
        lemma_canon_vars_ext(ar, br);
        assert(a.len() == b.len());
        assert forall|i: int| 0 <= i < a.len() implies a[i] == b[i] by {
            if i > 0 {
                assert(a[i] == ar[i - 1]);
                assert(b[i] == br[i - 1]);
            }
        }
        assert(a =~= b);
    }
}

// ---------------------------------------------------------------------------
// Differentiation
// ---------------------------------------------------------------------------

/// The partial derivative of one canonical term: the power rule applied to
/// the term's single occurrence of `symb`, or the zero term when `symb` is
/// absent.
pub open spec fn term_deriv(t: TermV, symb: Seq<u8>) -> TermV {
    let j = find_sym(t.vars, symb);
    if j < 0 {
        TermV { coeff: rat_zero(), vars: t.vars }
    } else if t.vars[j].deg == 1 {
        TermV {
            coeff: rat_mul(t.coeff, Rat { n: t.vars[j].deg as int, d: 1 }),
            vars: t.vars.remove(j),
        }
    } else {
        TermV {
            coeff: rat_mul(t.coeff, Rat { n: t.vars[j].deg as int, d: 1 }),
            vars: t.vars.update(j, VarV { sym: symb, deg: (t.vars[j].deg - 1) as nat }),
        }
    }
}

/// The term-by-term derivative of a canonical polynomial.
pub open spec fn poly_deriv(s: Seq<TermV>, symb: Seq<u8>) -> Seq<TermV> {
    s.map_values(|t: TermV| term_deriv(t, symb))
}

/// One antiderivative of one canonical term: the power rule on the single
/// occurrence of `symb`, or a fresh `symb` factor of degree one.
pub open spec fn term_integ(t: TermV, symb: Seq<u8>) -> TermV {
    let j = find_sym(t.vars, symb);
    if j < 0 {
        TermV { coeff: t.coeff, vars: mono_insert(t.vars, symb, 1) }
    } else {
        TermV {
            coeff: rat_div(t.coeff, (t.vars[j].deg + 1) as int),
            vars: t.vars.update(j, VarV { sym: symb, deg: (t.vars[j].deg + 1) as nat }),
        }
    }
}

/// The term-by-term antiderivative of a canonical polynomial.
pub open spec fn poly_integ(s: Seq<TermV>, symb: Seq<u8>) -> Seq<TermV> {
    s.map_values(|t: TermV| term_integ(t, symb))
}

/// Differentiating subtracts one from the exponent of `symb` and keeps
/// every other exponent.
proof fn lemma_deriv_symdeg(t: TermV, symb: Seq<u8>, s: Seq<u8>)
    requires
        canon_vars(t.vars),
        find_sym(t.vars, symb) >= 0,
    ensures
        symdeg(term_deriv(t, symb).vars, s) + (if s == symb {
            1nat
        } else {
            0nat
        }) == symdeg(t.vars, s),
{
    let j = find_sym(t.vars, symb);
    lemma_find_sym(t.vars, symb);
    lemma_symdeg_at(t.vars, symb, j);
    if t.vars[j].deg == 1 {
        lemma_symdeg_remove(t.vars, j, s);
        if s != symb && t.vars[j].sym == s {
            assert(false);
        }
    } else {
        let w = VarV { sym: symb, deg: (t.vars[j].deg - 1) as nat };
        lemma_symdeg_update(t.vars, j, w, s);
    }
}

/// Integrating adds one to the exponent of `symb` and keeps every other
/// exponent.
proof fn lemma_integ_symdeg(t: TermV, symb: Seq<u8>, s: Seq<u8>)
    requires
        canon_vars(t.vars),
    ensures
        symdeg(term_integ(t, symb).vars, s) == symdeg(t.vars, s) + (if s == symb {
            1nat
        } else {
            0nat
        }),
{
    let j = find_sym(t.vars, symb);
    lemma_find_sym(t.vars, symb);
    if j < 0 {
        lemma_symdeg_mono_insert(t.vars, symb, 1, s);
    } else {
        lemma_symdeg_at(t.vars, symb, j);
        let w = VarV { sym: symb, deg: (t.vars[j].deg + 1) as nat };
        lemma_symdeg_update(t.vars, j, w, s);
        if s != symb && t.vars[j].sym == s {
            assert(false);
        }
    }
}

/// Distinct canonical monomials containing `symb` stay distinct under
/// differentiation.
proof fn lemma_deriv_vars_inj(a: TermV, b: TermV, symb: Seq<u8>)
    requires
        canon_vars(a.vars),
        canon_vars(b.vars),
        find_sym(a.vars, symb) >= 0,
        find_sym(b.vars, symb) >= 0,
        term_deriv(a, symb).vars == term_deriv(b, symb).vars,
    ensures
        a.vars == b.vars,
{
    assert forall|s: Seq<u8>| #![trigger symdeg(a.vars, s), symdeg(b.vars, s)] symdeg(a.vars, s)
        == symdeg(b.vars, s) by {
        lemma_deriv_symdeg(a, symb, s);
        lemma_deriv_symdeg(b, symb, s);
    }
    lemma_canon_vars_ext(a.vars, b.vars);
}

/// Distinct canonical monomials stay distinct under integration.
proof fn lemma_integ_vars_inj(a: TermV, b: TermV, symb: Seq<u8>)
    requires
        canon_vars(a.vars),
        canon_vars(b.vars),
        term_integ(a, symb).vars == term_integ(b, symb).vars,
    ensures
        a.vars == b.vars,
{
    assert forall|s: Seq<u8>| #![trigger symdeg(a.vars, s), symdeg(b.vars, s)] symdeg(a.vars, s)
        == symdeg(b.vars, s) by {
        lemma_integ_symdeg(a, symb, s);
        lemma_integ_symdeg(b, symb, s);
    }
    lemma_canon_vars_ext(a.vars, b.vars);
}

/// A polynomial none of whose matching terms carries a non-zero
/// coefficient gives the monomial the coefficient zero.
proof fn lemma_coeff_at_allzero(s: Seq<TermV>, m: Seq<VarV>)
    requires
        forall|j: int| 0 <= j < s.len() ==> (mono((#[trigger] s[j]).vars) == m ==> s[j].coeff
            == rat_zero()) && s[j].coeff.d >= 1,
    ensures
        coeff_at(s, m) == rat_zero(),
    decreases s.len(),
{
    crate::coeff::lemma_gcd_one(0);
    if s.len() > 0 {
        assert(forall|j: int| 0 <= j < s.drop_last().len() ==> s.drop_last()[j] == s[j]);
        lemma_coeff_at_allzero(s.drop_last(), m);
        if mono(s.last().vars) == m {
            assert(s.last().coeff == rat_zero());
            crate::coeff::lemma_rat_add_zero(rat_zero());
        }
    }
}

/// A monomial that no term of the polynomial canonicalizes to has the
/// coefficient zero.
proof fn lemma_coeff_at_absent(s: Seq<TermV>, m: Seq<VarV>)
    requires
        forall|j: int| 0 <= j < s.len() ==> mono((#[trigger] s[j]).vars) != m,
    ensures
        coeff_at(s, m) == rat_zero(),
    decreases s.len(),
{
    if s.len() > 0 {
        assert(forall|j: int| 0 <= j < s.drop_last().len() ==> s.drop_last()[j] == s[j]);
        lemma_coeff_at_absent(s.drop_last(), m);
    }
}

/// Finds the one occurrence of `sym` in a variable list, or returns the
/// list's length.
fn find_var(vars: &Vec<PolyVar>, sym: &str) -> (k: usize)
    ensures
        0 <= k <= vars@.len(),
        k < vars@.len() ==> find_sym(vsview(vars@), encode_utf8(sym@)) == k && vsview(
            vars@,
        )[k as int].sym == encode_utf8(sym@),
        k == vars@.len() ==> find_sym(vsview(vars@), encode_utf8(sym@)) < 0,
{
    let ghost vs = vsview(vars@);
    let ghost sb = encode_utf8(sym@);
    let mut k: usize = 0;
    while k < vars.len()
        invariant
            0 <= k <= vars@.len(),
            vs == vsview(vars@),
            sb == encode_utf8(sym@),
            forall|q: int| 0 <= q < k ==> (#[trigger] vs[q]).sym != sb,
        ensures
            0 <= k <= vars@.len(),
            vs == vsview(vars@),
            sb == encode_utf8(sym@),
            forall|q: int| 0 <= q < k ==> (#[trigger] vs[q]).sym != sb,
            k < vars@.len() ==> vs[k as int].sym == sb,
        decreases vars@.len() - k,
    {
        proof {
            assert(vs[k as int] == vview(vars@[k as int]));
        }
        if sym_eq_str(&vars[k].sym, sym) {
            break;
        }
        k = k + 1;
    }
    proof {
        if k < vars.len() {
            lemma_find_sym_first(vs, sb, k as int);
        } else {
            lemma_find_sym(vs, sb);
            if find_sym(vs, sb) >= 0 {
                assert(vs[find_sym(vs, sb)].sym == sb);
            }
        }
    }
    k
}

impl Poly {
    /// The partial derivative with respect to `sym`.  The polynomial is
    /// first canonicalized, the power rule is applied to each term, and the
    /// result is canonical again: whatever canonical polynomial `q` this
    /// one denotes, the result denotes the term-by-term derivative of `q`.
    pub fn differentiate(&mut self, sym: &str)
        requires
            forall|i: int| 0 <= i < pview(*old(self)).len() ==> tdeg(
                (#[trigger] pview(*old(self))[i]).vars,
            ) <= usize::MAX && tdeg(pview(*old(self))[i].vars) <= i64::MAX,
            forall|i: int, m: Seq<VarV>| 0 <= i <= pview(*old(self)).len() ==> rat_fits(
                #[trigger] coeff_at(pview(*old(self)).take(i), m),
            ),
            forall|m: Seq<VarV>| rat_fits(#[trigger] rat_mul(
                coeff_at(pview(*old(self)), m),
                Rat { n: symdeg(m, encode_utf8(sym@)) as int, d: 1 },
            )),
        ensures
            is_canonical(pview(*final(self))),
            forall|q: Seq<TermV>| is_canonical(q) && sem_eq(q, pview(*old(self))) ==> sem_eq(
                pview(*final(self)),
                poly_deriv(q, encode_utf8(sym@)),
            ),
    {
        let ghost sb = encode_utf8(sym@);
        let ghost pv0 = pview(*old(self));
        self.simplify();
        let ghost c = pview(*self);
        let ghost dd = poly_deriv(c, sb);
        proof {
            assert forall|i: int| 0 <= i < c.len() implies tdeg((#[trigger] c[i]).vars)
                <= usize::MAX && tdeg(c[i].vars) <= i64::MAX && lookupc(c, c[i].vars) == c[i].coeff by {
                assert forall|i2: int| 0 <= i2 < i implies (#[trigger] c[i2]).vars
                    != c[i].vars by {
                    assert(term_before(c[i2], c[i]));
                    lemma_term_before_distinct(c[i2], c[i]);
                }
                lemma_lookupc_at(c, c[i].vars, i);
                lemma_coeff_at_canonical(c, c[i].vars);
                assert(coeff_at(pv0, c[i].vars) == coeff_at(c, c[i].vars));
                if forall|j: int| 0 <= j < pv0.len() ==> mono((#[trigger] pv0[j]).vars)
                    != c[i].vars {
                    lemma_coeff_at_absent(pv0, c[i].vars);
                    assert(c[i].coeff == rat_zero());
                    assert(false);
                }
                let j = choose|j: int|
                    0 <= j < pv0.len() && mono((#[trigger] pv0[j]).vars) == c[i].vars;
                lemma_tdeg_mono(pv0[j].vars);
            }
        }
        let mut out: Vec<PolyTerm> = Vec::new();
        proof {
            assert(tviews(out@) =~= Seq::<TermV>::empty());
            assert(dd.take(0) =~= Seq::<TermV>::empty());
        }
        let n = self.0.len();
        let mut i: usize = 0;
        while i < n
            invariant
                0 <= i <= n,
                n == self.0@.len(),
                pview(*self) == c,
                is_canonical(c),
                sb == encode_utf8(sym@),
                dd == poly_deriv(c, sb),
                sem_eq(c, pv0),
                forall|m: Seq<VarV>| rat_fits(#[trigger] rat_mul(
                    coeff_at(pv0, m),
                    Rat { n: symdeg(m, sb) as int, d: 1 },
                )),
                forall|i2: int| 0 <= i2 < c.len() ==> tdeg((#[trigger] c[i2]).vars) <= usize::MAX
                    && tdeg(c[i2].vars) <= i64::MAX && lookupc(c, c[i2].vars) == c[i2].coeff,
                is_canonical(tviews(out@)),
                forall|j: int| 0 <= j < out@.len() ==> tdeg((#[trigger] tviews(out@)[j]).vars)
                    <= usize::MAX,
                forall|mm: Seq<VarV>| #[trigger] lookupc(tviews(out@), mm) == coeff_at(
                    dd.take(i as int),
                    mm,
                ),
            decreases n - i,
        {
            let t = &self.0[i];
            let ghost tv = c[i as int];
            proof {
                assert(tv == tview(self.0@[i as int]));
                use_type_invariant(t.coeff);
                assert(dd.take(i + 1).drop_last() =~= dd.take(i as int));
                assert(dd.take(i + 1).last() == dd[i as int]);
                assert(dd[i as int] == term_deriv(tv, sb));
            }
            let j = find_var(&t.vars, sym);
            if j < t.vars.len() {
                let ghost dj = find_sym(tv.vars, sb);
                proof {
                    assert(dj == j as int);
                    assert(tv.vars[dj].sym == sb);
                    assert(tv.vars[dj].deg >= 1);
                    lemma_tdeg_elem(tv.vars, dj);
                }
                let deg = t.vars[j].deg;
                let factor = Coeff::from_int(deg as i64);
                proof {
                    lemma_symdeg_at(tv.vars, sb, dj);
                    assert(coeff_at(pv0, tv.vars) == coeff_at(c, tv.vars)) by {
                        assert(sem_eq(c, pv0));
                    }
                    lemma_coeff_at_canonical(c, tv.vars);
                    assert(coeff_at(c, tv.vars) == lookupc(c, tv.vars));
                    assert(lookupc(c, tv.vars) == tv.coeff);
                    assert(rat_fits(rat_mul(tv.coeff, Rat { n: deg as int, d: 1 })));
                }
                let nc = t.coeff.mul(&factor);
                proof {
                    use_type_invariant(nc);
                    assert(nc@.n != 0) by {
                        let inner = Rat { n: tv.coeff.n * (deg as int), d: tv.coeff.d * 1 };
                        assert(inner.n != 0) by (nonlinear_arith)
                            requires
                                inner.n == tv.coeff.n * (deg as int),
                                tv.coeff.n != 0,
                                deg >= 1;
                        assert(inner.d >= 1) by (nonlinear_arith)
                            requires
                                inner.d == tv.coeff.d * 1,
                                tv.coeff.d >= 1;
                        crate::coeff::lemma_norm(inner);
                    }
                }
                let mut dv = clone_vars(&t.vars);
                let ov = dv.remove(j);
                if deg >= 2 {
                    dv.insert(j, PolyVar { sym: ov.sym, deg: deg - 1 });
                }
                proof {
                    if deg >= 2 {
                        assert forall|q: int| 0 <= q < vsview(dv@).len() implies vsview(dv@)[q]
                            == tv.vars.update(dj, VarV { sym: sb, deg: (deg - 1) as nat })[q] by {
                            assert(vsview(dv@)[q] == vview(dv@[q]));
                        }
                        assert(vsview(dv@) =~= tv.vars.update(
                            dj,
                            VarV { sym: sb, deg: (deg - 1) as nat },
                        ));
                        let res = vsview(dv@);
                        assert forall|q1: int, q2: int| 0 <= q1 < q2 < res.len() implies
                            #[trigger] blt(res[q1].sym, res[q2].sym) by {
                            assert(res[q1].sym == tv.vars[q1].sym);
                            assert(res[q2].sym == tv.vars[q2].sym);
                        }
                        assert(canon_vars(res));
                    } else {
                        assert forall|q: int| 0 <= q < vsview(dv@).len() implies vsview(dv@)[q]
                            == tv.vars.remove(dj)[q] by {
                            assert(vsview(dv@)[q] == vview(dv@[q]));
                        }
                        assert(vsview(dv@) =~= tv.vars.remove(dj));
                        let res = vsview(dv@);
                        assert forall|q1: int, q2: int| 0 <= q1 < q2 < res.len() implies
                            #[trigger] blt(res[q1].sym, res[q2].sym) by {
                            if q1 < dj && q2 < dj {
                                assert(res[q1] == tv.vars[q1] && res[q2] == tv.vars[q2]);
                            } else if q1 < dj {
                                assert(res[q1] == tv.vars[q1] && res[q2] == tv.vars[q2 + 1]);
                            } else {
                                assert(res[q1] == tv.vars[q1 + 1] && res[q2] == tv.vars[q2 + 1]);
                            }
                        }
                        assert(canon_vars(res));
                    }
                    assert(vsview(dv@) == term_deriv(tv, sb).vars);
                    assert(tdeg(vsview(dv@)) <= usize::MAX) by {
                        if deg >= 2 {
                            lemma_tdeg_update_le(tv.vars, dj, (deg - 1) as nat);
                        } else {
                            lemma_tdeg_remove_le(tv.vars, dj);
                        }
                    }
                    let key = term_deriv(tv, sb).vars;
                    assert(coeff_at(dd.take(i as int), key) == rat_zero()) by {
                        assert forall|j2: int| 0 <= j2 < dd.take(i as int).len() implies (mono(
                            (#[trigger] dd.take(i as int)[j2]).vars,
                        ) == key ==> dd.take(i as int)[j2].coeff == rat_zero()) && dd.take(
                            i as int,
                        )[j2].coeff.d >= 1 by {
                            assert(dd.take(i as int)[j2] == dd[j2]);
                            assert(dd[j2] == term_deriv(c[j2], sb));
                            lemma_deriv_term_wf(c[j2], sb);
                            if mono(dd[j2].vars) == key {
                                if find_sym(c[j2].vars, sb) >= 0 {
                                    lemma_deriv_canon_vars(c[j2], sb);
                                    lemma_mono_id(dd[j2].vars);
                                    lemma_deriv_vars_inj(c[j2], tv, sb);
                                    assert(c[j2].vars == tv.vars);
                                    assert(term_before(c[j2], c[i as int]));
                                    lemma_term_before_distinct(c[j2], tv);
                                    assert(false);
                                }
                            }
                        }
                        lemma_coeff_at_allzero(dd.take(i as int), key);
                    }
                    assert(rat_fits(rat_add(lookupc(tviews(out@), key), nc@))) by {
                        lemma_rat_add_zero_front(nc@);
                    }
                }
                insert_term(&mut out, PolyTerm { coeff: nc, vars: dv });
                proof {
                    let key = term_deriv(tv, sb).vars;
                    assert forall|mm: Seq<VarV>| #[trigger] lookupc(tviews(out@), mm) == coeff_at(
                        dd.take(i + 1),
                        mm,
                    ) by {
                        lemma_deriv_canon_vars(tv, sb);
                        lemma_mono_id(key);
                        assert(mono(dd[i as int].vars) == key);
                        if mm == key {
                            lemma_rat_add_zero_front(nc@);
                            assert(coeff_at(dd.take(i + 1), mm) == rat_add(
                                coeff_at(dd.take(i as int), mm),
                                nc@,
                            ));
                        } else {
                            assert(coeff_at(dd.take(i + 1), mm) == coeff_at(
                                dd.take(i as int),
                                mm,
                            ));
                        }
                    }
                }
            } else {
                proof {
                    assert(find_sym(tv.vars, sb) < 0);
                    assert(dd[i as int].coeff == rat_zero());
                    assert forall|mm: Seq<VarV>| #[trigger] lookupc(tviews(out@), mm) == coeff_at(
                        dd.take(i + 1),
                        mm,
                    ) by {
                        if mono(dd[i as int].vars) == mm {
                            lemma_lookupc_reduced(tviews(out@), mm);
                            lemma_rat_add_zero_any(coeff_at(dd.take(i as int), mm), rat_zero());
                        }
                    }
                }
            }
            i = i + 1;
        }
        self.0 = out;
        proof {
            assert(dd.take(n as int) =~= dd);
            assert forall|q: Seq<TermV>| is_canonical(q) && sem_eq(q, pv0) implies sem_eq(
                pview(*self),
                poly_deriv(q, sb),
            ) by {
                assert forall|m: Seq<VarV>|
                    #![trigger coeff_at(q, m), coeff_at(c, m)]
                    coeff_at(q, m) == coeff_at(c, m) by {
                    assert(coeff_at(q, m) == coeff_at(pv0, m));
                    assert(coeff_at(c, m) == coeff_at(pv0, m));
                }
                lemma_canonical_unique(q, c);
                assert(poly_deriv(q, sb) =~= dd);
                assert forall|m: Seq<VarV>|
                    #![trigger coeff_at(pview(*self), m), coeff_at(poly_deriv(q, sb), m)]
                    coeff_at(pview(*self), m) == coeff_at(poly_deriv(q, sb), m) by {
                    lemma_coeff_at_canonical(pview(*self), m);
                }
            }
        }
    }
}

/// The derivative of a canonical term with `symb` present keeps a
/// canonical variable list.
proof fn lemma_deriv_canon_vars(t: TermV, symb: Seq<u8>)
    requires
        canon_vars(t.vars),
        find_sym(t.vars, symb) >= 0,
    ensures
        canon_vars(term_deriv(t, symb).vars),
{
    let j = find_sym(t.vars, symb);
    lemma_find_sym(t.vars, symb);
    if t.vars[j].deg == 1 {
        let res = t.vars.remove(j);
        assert forall|q1: int, q2: int| 0 <= q1 < q2 < res.len() implies #[trigger] blt(
            res[q1].sym,
            res[q2].sym,
        ) by {
            if q1 < j && q2 < j {
                assert(res[q1] == t.vars[q1] && res[q2] == t.vars[q2]);
            } else if q1 < j {
                assert(res[q1] == t.vars[q1] && res[q2] == t.vars[q2 + 1]);
            } else {
                assert(res[q1] == t.vars[q1 + 1] && res[q2] == t.vars[q2 + 1]);
            }
        }
    } else {
        let res = t.vars.update(j, VarV { sym: symb, deg: (t.vars[j].deg - 1) as nat });
        assert forall|q1: int, q2: int| 0 <= q1 < q2 < res.len() implies #[trigger] blt(
            res[q1].sym,
            res[q2].sym,
        ) by {
            assert(res[q1].sym == t.vars[q1].sym);
            assert(res[q2].sym == t.vars[q2].sym);
        }
    }
}

/// Derivative coefficients are well-formed rationals.
proof fn lemma_deriv_term_wf(t: TermV, symb: Seq<u8>)
    requires
        rat_reduced(t.coeff),
    ensures
        term_deriv(t, symb).coeff.d >= 1,
        find_sym(t.vars, symb) < 0 ==> term_deriv(t, symb).coeff == rat_zero(),
{
    let j = find_sym(t.vars, symb);
    if j >= 0 {
        let inner = Rat { n: t.coeff.n * (t.vars[j].deg as int), d: t.coeff.d * 1 };
        assert(inner.d >= 1) by (nonlinear_arith)
            requires
                inner.d == t.coeff.d * 1,
                t.coeff.d >= 1;
        crate::coeff::lemma_norm(inner);
    }
}

/// Total degree does not grow when an exponent shrinks.
proof fn lemma_tdeg_update_le(vs: Seq<VarV>, j: int, d: nat)
    requires
        0 <= j < vs.len(),
        d <= vs[j].deg,
    ensures
        tdeg(vs.update(j, VarV { sym: vs[j].sym, deg: d })) <= tdeg(vs),
    decreases vs.len(),
{
    let u = vs.update(j, VarV { sym: vs[j].sym, deg: d });
    if j == vs.len() - 1 {
        assert(u.drop_last() =~= vs.drop_last());
        assert(u.last().deg == d);
    } else {
        assert(u.drop_last() =~= vs.drop_last().update(j, VarV { sym: vs[j].sym, deg: d }));
        assert(u.last() == vs.last());
        assert(vs.drop_last()[j] == vs[j]);
        lemma_tdeg_update_le(vs.drop_last(), j, d);
    }
}

/// Total degree does not grow when a variable is removed.
proof fn lemma_tdeg_remove_le(vs: Seq<VarV>, j: int)
    requires
        0 <= j < vs.len(),
    ensures
        tdeg(vs.remove(j)) <= tdeg(vs),
    decreases vs.len(),
{
    let u = vs.remove(j);
    if j == vs.len() - 1 {
        assert(u =~= vs.drop_last());
    } else {
        assert(u.drop_last() =~= vs.drop_last().remove(j));
        assert(u.last() == vs.last());
        lemma_tdeg_remove_le(vs.drop_last(), j);
    }
}

/// Inserting a positive power of a fresh or present symbol keeps a
/// canonical variable list canonical.
proof fn lemma_mono_insert_canon(vs: Seq<VarV>, symb: Seq<u8>, d: nat)
    requires
        canon_vars(vs),
        d >= 1,
    ensures
        canon_vars(mono_insert(vs, symb, d)),
        forall|q: int| 0 <= q < mono_insert(vs, symb, d).len() ==> (#[trigger] mono_insert(
            vs,
            symb,
            d,
        )[q]).sym == symb || exists|p: int| 0 <= p < vs.len() && mono_insert(vs, symb, d)[q].sym
            == (#[trigger] vs[p]).sym,
    decreases vs.len(),
{
    let v = VarV { sym: symb, deg: d };
    let res = mono_insert(vs, symb, d);
    if vs.len() == 0 {
        assert(res =~= seq![v]);
    } else if blt(symb, vs[0].sym) {
        assert(res =~= seq![v] + vs);
        assert forall|q1: int, q2: int| 0 <= q1 < q2 < res.len() implies #[trigger] blt(
            res[q1].sym,
            res[q2].sym,
        ) by {
            if q1 == 0 {
                assert(res[q2] == vs[q2 - 1]);
                if q2 - 1 > 0 {
                    assert(blt(vs[0].sym, vs[q2 - 1].sym));
                    lemma_blt_trans(symb, vs[0].sym, vs[q2 - 1].sym);
                }
            } else {
                assert(res[q1] == vs[q1 - 1] && res[q2] == vs[q2 - 1]);
            }
        }
        assert forall|q: int| 0 <= q < res.len() && q > 0 implies res[q].sym == vs[q - 1].sym by {}
        assert(canon_vars(res));
    } else if symb == vs[0].sym {
        let w = VarV { sym: symb, deg: (vs[0].deg + d) as nat };
        assert(res =~= seq![w] + vs.drop_first());
        assert forall|q1: int, q2: int| 0 <= q1 < q2 < res.len() implies #[trigger] blt(
            res[q1].sym,
            res[q2].sym,
        ) by {
            if q1 == 0 {
                assert(res[q2] == vs[q2]);
                assert(blt(vs[0].sym, vs[q2].sym));
            } else {
                assert(res[q1] == vs[q1] && res[q2] == vs[q2]);
            }
        }
        assert(canon_vars(res));
    } else {
        if blt(symb, vs[0].sym) {
            assert(false);
        }
        if !blt(vs[0].sym, symb) {
            lemma_blt_connex(vs[0].sym, symb);
            assert(false);
        }
        let rest = vs.drop_first();
        assert(forall|q: int| 0 <= q < rest.len() ==> rest[q] == vs[q + 1]);
        assert(canon_vars(rest));
        lemma_mono_insert_canon(rest, symb, d);
        let rr = mono_insert(rest, symb, d);
        assert(res =~= seq![vs[0]] + rr);
        assert forall|q1: int, q2: int| 0 <= q1 < q2 < res.len() implies #[trigger] blt(
            res[q1].sym,
            res[q2].sym,
        ) by {
            if q1 == 0 {
                assert(res[q2] == rr[q2 - 1]);
                if rr[q2 - 1].sym == symb {
                    assert(blt(vs[0].sym, symb));
                } else {
                    let p = choose|p: int| 0 <= p < rest.len() && rr[q2 - 1].sym == (
                    #[trigger] rest[p]).sym;
                    assert(rest[p] == vs[p + 1]);
                    assert(blt(vs[0].sym, vs[p + 1].sym));
                }
            } else {
                assert(res[q1] == rr[q1 - 1] && res[q2] == rr[q2 - 1]);
            }
        }
        assert(canon_vars(res));
    }
}

/// The antiderivative of a canonical term keeps a canonical variable list.
proof fn lemma_integ_canon_vars(t: TermV, symb: Seq<u8>)
    requires
        canon_vars(t.vars),
    ensures
        canon_vars(term_integ(t, symb).vars),
{
    let j = find_sym(t.vars, symb);
    lemma_find_sym(t.vars, symb);
    if j < 0 {
        lemma_mono_insert_canon(t.vars, symb, 1);
    } else {
        let res = t.vars.update(j, VarV { sym: symb, deg: (t.vars[j].deg + 1) as nat });
        assert forall|q1: int, q2: int| 0 <= q1 < q2 < res.len() implies #[trigger] blt(
            res[q1].sym,
            res[q2].sym,
        ) by {
            assert(res[q1].sym == t.vars[q1].sym);
            assert(res[q2].sym == t.vars[q2].sym);
        }
    }
}

/// Antiderivative coefficients are well-formed rationals.
proof fn lemma_integ_term_wf(t: TermV, symb: Seq<u8>)
    requires
        rat_reduced(t.coeff),
    ensures
        term_integ(t, symb).coeff.d >= 1,
        term_integ(t, symb).coeff.n == 0 <==> t.coeff.n == 0,
{
    let j = find_sym(t.vars, symb);
    if j >= 0 {
        let k = (t.vars[j].deg + 1) as int;
        let inner = Rat { n: t.coeff.n, d: t.coeff.d * k };
        assert(inner.d >= 1) by (nonlinear_arith)
            requires
                inner.d == t.coeff.d * k,
                t.coeff.d >= 1,
                k >= 1;
        crate::coeff::lemma_norm(inner);
    }
}

impl Poly {
    /// One antiderivative with respect to `sym`, with integration constant
    /// zero.  The polynomial is first canonicalized, the power rule is
    /// applied to each term (a term without `sym` gains the factor `sym`),
    /// and the result is canonical again: whatever canonical polynomial `q`
    /// this one denotes, the result denotes the term-by-term antiderivative
    /// of `q`.
    pub fn integrate(&mut self, sym: &str)
        requires
            forall|i: int| 0 <= i < pview(*old(self)).len() ==> tdeg(
                (#[trigger] pview(*old(self))[i]).vars,
            ) + 1 <= usize::MAX && tdeg(pview(*old(self))[i].vars) + 1 <= i64::MAX,
            forall|i: int, m: Seq<VarV>| 0 <= i <= pview(*old(self)).len() ==> rat_fits(
                #[trigger] coeff_at(pview(*old(self)).take(i), m),
            ),
            forall|m: Seq<VarV>| rat_fits(#[trigger] rat_div(
                coeff_at(pview(*old(self)), m),
                (symdeg(m, encode_utf8(sym@)) + 1) as int,
            )),
        ensures
            is_canonical(pview(*final(self))),
            forall|q: Seq<TermV>| is_canonical(q) && sem_eq(q, pview(*old(self))) ==> sem_eq(
                pview(*final(self)),
                poly_integ(q, encode_utf8(sym@)),
            ),
    {
        let ghost sb = encode_utf8(sym@);
        let ghost pv0 = pview(*old(self));
        self.simplify();
        let ghost c = pview(*self);
        let ghost ii = poly_integ(c, sb);
        proof {
            assert forall|i: int| 0 <= i < c.len() implies tdeg((#[trigger] c[i]).vars) + 1
                <= usize::MAX && tdeg(c[i].vars) + 1 <= i64::MAX && lookupc(c, c[i].vars)
                == c[i].coeff by {
                assert forall|i2: int| 0 <= i2 < i implies (#[trigger] c[i2]).vars
                    != c[i].vars by {
                    assert(term_before(c[i2], c[i]));
                    lemma_term_before_distinct(c[i2], c[i]);
                }
                lemma_lookupc_at(c, c[i].vars, i);
                lemma_coeff_at_canonical(c, c[i].vars);
                assert(coeff_at(pv0, c[i].vars) == coeff_at(c, c[i].vars));
                if forall|j: int| 0 <= j < pv0.len() ==> mono((#[trigger] pv0[j]).vars)
                    != c[i].vars {
                    lemma_coeff_at_absent(pv0, c[i].vars);
                    assert(c[i].coeff == rat_zero());
                    assert(false);
                }
                let j = choose|j: int|
                    0 <= j < pv0.len() && mono((#[trigger] pv0[j]).vars) == c[i].vars;
                lemma_tdeg_mono(pv0[j].vars);
            }
        }
        let mut out: Vec<PolyTerm> = Vec::new();
        proof {
            assert(tviews(out@) =~= Seq::<TermV>::empty());
            assert(ii.take(0) =~= Seq::<TermV>::empty());
        }
        let n = self.0.len();
        let mut i: usize = 0;
        while i < n
            invariant
                0 <= i <= n,
                n == self.0@.len(),
                pview(*self) == c,
                is_canonical(c),
                sb == encode_utf8(sym@),
                ii == poly_integ(c, sb),
                sem_eq(c, pv0),
                forall|m: Seq<VarV>| rat_fits(#[trigger] rat_div(
                    coeff_at(pv0, m),
                    (symdeg(m, sb) + 1) as int,
                )),
                forall|i2: int| 0 <= i2 < c.len() ==> tdeg((#[trigger] c[i2]).vars) + 1
                    <= usize::MAX && tdeg(c[i2].vars) + 1 <= i64::MAX && lookupc(c, c[i2].vars)
                    == c[i2].coeff,
                is_canonical(tviews(out@)),
                forall|j: int| 0 <= j < out@.len() ==> tdeg((#[trigger] tviews(out@)[j]).vars)
                    <= usize::MAX,
                forall|mm: Seq<VarV>| #[trigger] lookupc(tviews(out@), mm) == coeff_at(
                    ii.take(i as int),
                    mm,
                ),
            decreases n - i,
        {
            let t = &self.0[i];
            let ghost tv = c[i as int];
            proof {
                assert(tv == tview(self.0@[i as int]));
                use_type_invariant(t.coeff);
                assert(ii.take(i + 1).drop_last() =~= ii.take(i as int));
                assert(ii.take(i + 1).last() == ii[i as int]);
                assert(ii[i as int] == term_integ(tv, sb));
                assert(coeff_at(pv0, tv.vars) == coeff_at(c, tv.vars)) by {
                    assert(sem_eq(c, pv0));
                }
                lemma_coeff_at_canonical(c, tv.vars);
                lemma_integ_canon_vars(tv, sb);
                lemma_integ_term_wf(tv, sb);
            }
            let j = find_var(&t.vars, sym);
            let nc: Coeff;
            let mut dv = clone_vars(&t.vars);
            if j < t.vars.len() {
                let ghost dj = find_sym(tv.vars, sb);
                proof {
                    assert(dj == j as int);
                    assert(tv.vars[dj].deg >= 1);
                    lemma_tdeg_elem(tv.vars, dj);
                    lemma_symdeg_at(tv.vars, sb, dj);
                }
                let deg = t.vars[j].deg;
                let newdeg = deg + 1;
                nc = t.coeff.div_int(newdeg as u64);
                let ov = dv.remove(j);
                dv.insert(j, PolyVar { sym: ov.sym, deg: newdeg });
                proof {
                    assert forall|q: int| 0 <= q < vsview(dv@).len() implies vsview(dv@)[q]
                        == term_integ(tv, sb).vars[q] by {
                        assert(vsview(dv@)[q] == vview(dv@[q]));
                    }
                    assert(vsview(dv@) =~= term_integ(tv, sb).vars);
                }
            } else {
                proof {
                    assert(find_sym(tv.vars, sb) < 0);
                    assert(tdeg(vsview(dv@)) + 1 <= usize::MAX);
                }
                nc = t.coeff;
                insert_var(&mut dv, PolyVar { sym: sym.to_owned(), deg: 1 });
                proof {
                    assert(vsview(dv@) == term_integ(tv, sb).vars);
                }
            }
            proof {
                use_type_invariant(nc);
                assert(nc@ == term_integ(tv, sb).coeff);
                assert(nc@.n != 0);
                assert(canon_vars(vsview(dv@)));
                assert(tdeg(vsview(dv@)) <= usize::MAX) by {
                    lemma_tdeg_mono_insert_bound(tv, sb);
                }
                let key = term_integ(tv, sb).vars;
                assert(coeff_at(ii.take(i as int), key) == rat_zero()) by {
                    assert forall|j2: int| 0 <= j2 < ii.take(i as int).len() implies (mono(
                        (#[trigger] ii.take(i as int)[j2]).vars,
                    ) == key ==> ii.take(i as int)[j2].coeff == rat_zero()) && ii.take(
                        i as int,
                    )[j2].coeff.d >= 1 by {
                        assert(ii.take(i as int)[j2] == ii[j2]);
                        assert(ii[j2] == term_integ(c[j2], sb));
                        lemma_integ_term_wf(c[j2], sb);
                        if mono(ii[j2].vars) == key {
                            lemma_integ_canon_vars(c[j2], sb);
                            lemma_mono_id(ii[j2].vars);
                            lemma_integ_vars_inj(c[j2], tv, sb);
                            assert(c[j2].vars == tv.vars);
                            assert(term_before(c[j2], c[i as int]));
                            lemma_term_before_distinct(c[j2], tv);
                            assert(false);
                        }
                    }
                    lemma_coeff_at_allzero(ii.take(i as int), key);
                }
                assert(rat_fits(rat_add(lookupc(tviews(out@), key), nc@))) by {
                    lemma_rat_add_zero_front(nc@);
                }
            }
            insert_term(&mut out, PolyTerm { coeff: nc, vars: dv });
            proof {
                let key = term_integ(tv, sb).vars;
                assert forall|mm: Seq<VarV>| #[trigger] lookupc(tviews(out@), mm) == coeff_at(
                    ii.take(i + 1),
                    mm,
                ) by {
                    lemma_integ_canon_vars(tv, sb);
                    lemma_mono_id(key);
                    assert(mono(ii[i as int].vars) == key);
                    if mm == key {
                        lemma_rat_add_zero_front(nc@);
                        assert(coeff_at(ii.take(i + 1), mm) == rat_add(
                            coeff_at(ii.take(i as int), mm),
                            nc@,
                        ));
                    } else {
                        assert(coeff_at(ii.take(i + 1), mm) == coeff_at(ii.take(i as int), mm));
                    }
                }
            }
            i = i + 1;
        }
        self.0 = out;
        proof {
            assert(ii.take(n as int) =~= ii);
            assert forall|q: Seq<TermV>| is_canonical(q) && sem_eq(q, pv0) implies sem_eq(
                pview(*self),
                poly_integ(q, sb),
            ) by {
                assert forall|m: Seq<VarV>|
                    #![trigger coeff_at(q, m), coeff_at(c, m)]
                    coeff_at(q, m) == coeff_at(c, m) by {
                    assert(coeff_at(q, m) == coeff_at(pv0, m));
                    assert(coeff_at(c, m) == coeff_at(pv0, m));
                }
                lemma_canonical_unique(q, c);
                assert(poly_integ(q, sb) =~= ii);
                assert forall|m: Seq<VarV>|
                    #![trigger coeff_at(pview(*self), m), coeff_at(poly_integ(q, sb), m)]
                    coeff_at(pview(*self), m) == coeff_at(poly_integ(q, sb), m) by {
                    lemma_coeff_at_canonical(pview(*self), m);
                }
            }
        }
    }
}

/// Integration raises a term's total degree by exactly one.
proof fn lemma_tdeg_mono_insert_bound(t: TermV, symb: Seq<u8>)
    requires
        canon_vars(t.vars),
    ensures
        tdeg(term_integ(t, symb).vars) == tdeg(t.vars) + 1,
{
    let j = find_sym(t.vars, symb);
    lemma_find_sym(t.vars, symb);
    if j < 0 {
        lemma_tdeg_insert(t.vars, symb, 1);
    } else {
        let w = VarV { sym: symb, deg: (t.vars[j].deg + 1) as nat };
        lemma_tdeg_update(t.vars, j, w);
    }
}

/// Total degree changes by the change of the one updated exponent.
proof fn lemma_tdeg_update(vs: Seq<VarV>, j: int, w: VarV)
    requires
        0 <= j < vs.len(),
    ensures
        tdeg(vs.update(j, w)) + vs[j].deg == tdeg(vs) + w.deg,
    decreases vs.len(),
{
    let u = vs.update(j, w);
    if j == vs.len() - 1 {
        assert(u.drop_last() =~= vs.drop_last());
        assert(u.last() == w);
    } else {
        assert(u.drop_last() =~= vs.drop_last().update(j, w));
        assert(u.last() == vs.last());
        assert(vs.drop_last()[j] == vs[j]);
        lemma_tdeg_update(vs.drop_last(), j, w);
    }
}

// ---------------------------------------------------------------------------
// The derivative inverts the antiderivative
// ---------------------------------------------------------------------------

/// Dividing exactly by `k` and multiplying by `k` again returns the same
/// reduced rational.
proof fn lemma_rat_div_mul_cancel(c: Rat, k: int)
    requires
        rat_reduced(c),
        k >= 1,
    ensures
        rat_mul(rat_div(c, k), Rat { n: k, d: 1 }) == c,
{
    let inner = Rat { n: c.n, d: c.d * k };
    assert(inner.d >= 1) by (nonlinear_arith)
        requires
            inner.d == c.d * k,
            c.d >= 1,
            k >= 1;
    crate::coeff::lemma_norm(inner);
    let q = crate::coeff::norm(inner);
    assert(q.n * (c.d * k) == c.n * q.d);
    let num = q.n * k;
    let den = q.d * 1;
    assert(den == q.d);
    assert(num * (c.d * k) == (c.n * k) * den) by (nonlinear_arith)
        requires
            q.n * (c.d * k) == c.n * q.d,
            num == q.n * k,
            den == q.d;
    assert(c.d * k >= 1) by (nonlinear_arith)
        requires
            c.d >= 1,
            k >= 1;
    assert(q.d >= 1);
    let m1 = Rat { n: num * (c.d * k), d: den * (c.d * k) };
    crate::coeff::lemma_norm_scale(Rat { n: num, d: den }, c.d * k);
    assert(m1.n == (c.d * k) * num && m1.d == (c.d * k) * den) by (nonlinear_arith)
        requires
            m1.n == num * (c.d * k),
            m1.d == den * (c.d * k);
    assert(crate::coeff::norm(m1) == crate::coeff::norm(Rat { n: num, d: den }));
    let m2 = Rat { n: c.n * (k * den), d: c.d * (k * den) };
    assert(k * den >= 1) by (nonlinear_arith)
        requires
            k >= 1,
            den >= 1;
    crate::coeff::lemma_norm_scale(Rat { n: c.n, d: c.d }, k * den);
    assert(m2.n == (k * den) * c.n && m2.d == (k * den) * c.d) by (nonlinear_arith)
        requires
            m2.n == c.n * (k * den),
            m2.d == c.d * (k * den);
    assert(crate::coeff::norm(m2) == crate::coeff::norm(Rat { n: c.n, d: c.d }));
    assert(m1 == m2) by (nonlinear_arith)
        requires
            num * (c.d * k) == (c.n * k) * den,
            m1.n == num * (c.d * k),
            m1.d == den * (c.d * k),
            m2.n == c.n * (k * den),
            m2.d == c.d * (k * den);
    assert(Rat { n: c.n, d: c.d } == c);
    crate::coeff::lemma_norm(c);
}

/// Where a fresh symbol of degree one lands when inserted, and that
/// removing it again restores the list it was inserted into.
proof fn lemma_mono_insert_then_remove(vs: Seq<VarV>, symb: Seq<u8>)
    requires
        canon_vars(vs),
        forall|i: int| 0 <= i < vs.len() ==> (#[trigger] vs[i]).sym != symb,
    ensures
        0 <= find_sym(mono_insert(vs, symb, 1), symb) < mono_insert(vs, symb, 1).len(),
        mono_insert(vs, symb, 1)[find_sym(mono_insert(vs, symb, 1), symb)].deg == 1,
        mono_insert(vs, symb, 1).remove(find_sym(mono_insert(vs, symb, 1), symb)) == vs,
    decreases vs.len(),
{
    let v = VarV { sym: symb, deg: 1nat };
    let iv = mono_insert(vs, symb, 1);
    if vs.len() == 0 {
        assert(iv =~= seq![v]);
        assert(iv[0].sym == symb);
        assert(find_sym(iv, symb) == 0);
        assert(iv.remove(0) =~= vs);
    } else if blt(symb, vs[0].sym) {
        assert(iv =~= seq![v] + vs);
        assert(iv[0].sym == symb);
        assert(find_sym(iv, symb) == 0);
        assert(iv.remove(0) =~= vs);
    } else if symb == vs[0].sym {
        assert(vs[0].sym != symb);
        assert(false);
    } else {
        let rest = vs.drop_first();
        assert(forall|i: int| 0 <= i < rest.len() ==> rest[i] == vs[i + 1]);
        assert(canon_vars(rest));
        lemma_mono_insert_then_remove(rest, symb);
        let sub = mono_insert(rest, symb, 1);
        let k = find_sym(sub, symb);
        assert(iv =~= seq![vs[0]] + sub);
        assert(iv[0] == vs[0]);
        assert(iv[0].sym != symb);
        assert(iv.drop_first() =~= sub);
        assert(find_sym(iv, symb) == k + 1);
        assert(iv[k + 1] == sub[k]);
        assert(iv.remove(k + 1) =~= vs) by {
            assert(sub.remove(k) == rest);
            assert forall|i: int| 0 <= i < iv.remove(k + 1).len() implies iv.remove(k + 1)[i]
                == vs[i] by {
                if i == 0 {
                } else if i <= k {
                    assert(iv.remove(k + 1)[i] == sub[i - 1]);
                    assert(sub.remove(k)[i - 1] == sub[i - 1]);
                    assert(rest[i - 1] == vs[i]);
                } else {
                    assert(iv.remove(k + 1)[i] == sub[i]);
                    assert(sub.remove(k)[i - 1] == sub[i]);
                    assert(rest[i - 1] == vs[i]);
                }
            }
        }
    }
}

/// Differentiation undoes integration on a single canonical term: with a
/// zero integration constant, the power rule applied after the inverse
/// power rule returns the term unchanged.
pub proof fn lemma_term_integ_deriv(t: TermV, symb: Seq<u8>)
    requires
        canon_vars(t.vars),
        rat_reduced(t.coeff),
    ensures
        term_deriv(term_integ(t, symb), symb) == t,
{
    let j = find_sym(t.vars, symb);
    lemma_find_sym(t.vars, symb);
    let it = term_integ(t, symb);
    if j >= 0 {
        let d = t.vars[j].deg;
        assert(d >= 1);
        let w = VarV { sym: symb, deg: (d + 1) as nat };
        assert(it.vars == t.vars.update(j, w));
        assert forall|i: int| 0 <= i < j implies (#[trigger] it.vars[i]).sym != symb by {
            assert(it.vars[i] == t.vars[i]);
            assert(blt(t.vars[i].sym, t.vars[j].sym));
            if t.vars[i].sym == symb {
                lemma_blt_irrefl(symb);
            }
        }
        lemma_find_sym_first(it.vars, symb, j);
        assert(it.vars[j].deg == d + 1);
        assert(d + 1 >= 2);
        let dt = term_deriv(it, symb);
        assert(dt.vars == it.vars.update(j, VarV { sym: symb, deg: d }));
        assert(dt.vars =~= t.vars) by {
            assert(t.vars[j] == (VarV { sym: symb, deg: d }));
        }
        lemma_rat_div_mul_cancel(t.coeff, (d + 1) as int);
        assert(dt.coeff == t.coeff);
        assert(dt =~= t) by {
            assert(dt.coeff == t.coeff && dt.vars == t.vars);
        }
    } else {
        lemma_mono_insert_then_remove(t.vars, symb);
        let iv = mono_insert(t.vars, symb, 1);
        assert(it.vars == iv);
        let k = find_sym(iv, symb);
        assert(iv[k].deg == 1);
        let dt = term_deriv(it, symb);
        assert(dt.vars == iv.remove(k));
        assert(dt.vars == t.vars);
        assert(dt.coeff == rat_mul(t.coeff, Rat { n: 1, d: 1 }));
        assert(t.coeff.n * 1 == t.coeff.n && t.coeff.d * 1 == t.coeff.d);
        assert(Rat { n: t.coeff.n * 1, d: t.coeff.d * 1 } == t.coeff);
        crate::coeff::lemma_norm(t.coeff);
        assert(dt.coeff == t.coeff);
        assert(dt == t);
    }
}

/// In a polynomial whose term monomials are distinct, the exact
/// coefficient of a monomial is the one matching term's coefficient.
proof fn lemma_coeff_at_distinct(s: Seq<TermV>, m: Seq<VarV>, k: int)
    requires
        0 <= k < s.len(),
        mono(s[k].vars) == m,
        rat_reduced(s[k].coeff),
        forall|j: int| 0 <= j < s.len() && j != k ==> mono((#[trigger] s[j]).vars) != m,
    ensures
        coeff_at(s, m) == s[k].coeff,
    decreases s.len(),
{
    let front = s.drop_last();
    assert(forall|j: int| 0 <= j < front.len() ==> front[j] == s[j]);
    if k == s.len() - 1 {
        lemma_coeff_at_absent(front, m);
        lemma_rat_add_zero_front(s[k].coeff);
    } else {
        assert(mono(s.last().vars) != m);
        lemma_coeff_at_distinct(front, m, k);
    }
}

/// The terms of the raw antiderivative are canonical in all but order.
proof fn lemma_integ_terms(q: Seq<TermV>, symb: Seq<u8>)
    requires
        is_canonical(q),
    ensures
        poly_integ(q, symb).len() == q.len(),
        forall|j: int| 0 <= j < q.len() ==> (#[trigger] poly_integ(q, symb)[j]) == term_integ(
            q[j],
            symb,
        ) && canon_vars(poly_integ(q, symb)[j].vars) && rat_reduced(poly_integ(q, symb)[j].coeff)
            && poly_integ(q, symb)[j].coeff.n != 0 && mono(poly_integ(q, symb)[j].vars)
            == poly_integ(q, symb)[j].vars,
        forall|j1: int, j2: int| 0 <= j1 < q.len() && 0 <= j2 < q.len() && j1 != j2 ==> (
        #[trigger] poly_integ(q, symb)[j1]).vars != (#[trigger] poly_integ(q, symb)[j2]).vars,
{
    let ii = poly_integ(q, symb);
    assert forall|j: int| 0 <= j < q.len() implies (#[trigger] ii[j]) == term_integ(q[j], symb)
        && canon_vars(ii[j].vars) && rat_reduced(ii[j].coeff) && ii[j].coeff.n != 0 && mono(
        ii[j].vars,
    ) == ii[j].vars by {
        lemma_integ_canon_vars(q[j], symb);
        lemma_mono_id(ii[j].vars);
        lemma_integ_term_wf(q[j], symb);
        let jj = find_sym(q[j].vars, symb);
        if jj >= 0 {
            let inner = Rat { n: q[j].coeff.n, d: q[j].coeff.d * ((q[j].vars[jj].deg + 1) as int) };
            assert(inner.d >= 1) by (nonlinear_arith)
                requires
                    inner.d == q[j].coeff.d * ((q[j].vars[jj].deg + 1) as int),
                    q[j].coeff.d >= 1,
                    q[j].vars[jj].deg >= 0;
            crate::coeff::lemma_norm(inner);
        }
    }
    assert forall|j1: int, j2: int| 0 <= j1 < q.len() && 0 <= j2 < q.len() && j1 != j2 implies (
    #[trigger] ii[j1]).vars != (#[trigger] ii[j2]).vars by {
        if ii[j1].vars == ii[j2].vars {
            lemma_integ_vars_inj(q[j1], q[j2], symb);
            if j1 < j2 {
                assert(term_before(q[j1], q[j2]));
                lemma_term_before_distinct(q[j1], q[j2]);
            } else {
                assert(term_before(q[j2], q[j1]));
                lemma_term_before_distinct(q[j2], q[j1]);
            }
        }
    }
}

/// Membership of a term in a term list.
pub open spec fn appears_in(t: TermV, s: Seq<TermV>) -> bool {
    exists|j: int| 0 <= j < s.len() && t == #[trigger] s[j]
}

/// Each term of a canonical form of the raw antiderivative is one of the
/// raw antiderivative's terms, and conversely.
proof fn lemma_integ_canonical_terms(q: Seq<TermV>, r: Seq<TermV>, symb: Seq<u8>)
    requires
        is_canonical(q),
        is_canonical(r),
        sem_eq(r, poly_integ(q, symb)),
    ensures
        forall|k: int| 0 <= k < r.len() ==> appears_in(#[trigger] r[k], poly_integ(q, symb)),
        forall|j: int| 0 <= j < q.len() ==> appears_in(
            #[trigger] poly_integ(q, symb)[j],
            r,
        ),
{
    let ii = poly_integ(q, symb);
    lemma_integ_terms(q, symb);
    assert forall|k: int| 0 <= k < r.len() implies appears_in(#[trigger] r[k], ii) by {
        assert forall|k2: int| 0 <= k2 < k implies (#[trigger] r[k2]).vars != r[k].vars by {
            assert(term_before(r[k2], r[k]));
            lemma_term_before_distinct(r[k2], r[k]);
        }
        lemma_lookupc_at(r, r[k].vars, k);
        lemma_coeff_at_canonical(r, r[k].vars);
        assert(coeff_at(ii, r[k].vars) == r[k].coeff);
        if forall|j: int| 0 <= j < ii.len() ==> mono((#[trigger] ii[j]).vars) != r[k].vars {
            lemma_coeff_at_absent(ii, r[k].vars);
            assert(r[k].coeff == rat_zero());
            assert(false);
        }
        let j = choose|j: int| 0 <= j < ii.len() && mono((#[trigger] ii[j]).vars) == r[k].vars;
        lemma_coeff_at_distinct(ii, r[k].vars, j);
        assert(r[k] == ii[j]);
        assert(appears_in(r[k], ii));
    }
    assert forall|j: int| 0 <= j < q.len() implies appears_in(#[trigger] ii[j], r) by {
        lemma_coeff_at_distinct(ii, ii[j].vars, j);
        lemma_coeff_at_canonical(r, ii[j].vars);
        assert(lookupc(r, ii[j].vars) == ii[j].coeff);
        if forall|k: int| 0 <= k < r.len() ==> (#[trigger] r[k]).vars != ii[j].vars {
            lemma_lookupc_notin(r, ii[j].vars);
            assert(ii[j].coeff == rat_zero());
            assert(false);
        }
        let k = choose|k: int| 0 <= k < r.len() && (#[trigger] r[k]).vars == ii[j].vars;
        assert forall|k2: int| 0 <= k2 < k implies (#[trigger] r[k2]).vars != ii[j].vars by {
            assert(term_before(r[k2], r[k]));
            lemma_term_before_distinct(r[k2], r[k]);
        }
        lemma_lookupc_at(r, ii[j].vars, k);
        assert(ii[j] == r[k]);
        assert(appears_in(ii[j], r));
    }
}

/// Differentiation undoes integration on whole polynomials: if `r` is a
/// canonical form of the antiderivative of the canonical polynomial `q`
/// with respect to `symb`, and `f` is a canonical form of the derivative
/// of `r` with respect to `symb`, then `f` is `q` itself (the integration
/// constant is zero, so the round trip is exact).
#[verifier::rlimit(50)]
pub proof fn lemma_integ_then_deriv(q: Seq<TermV>, r: Seq<TermV>, f: Seq<TermV>, symb: Seq<u8>)
    requires
        is_canonical(q),
        is_canonical(r),
        sem_eq(r, poly_integ(q, symb)),
        is_canonical(f),
        sem_eq(f, poly_deriv(r, symb)),
    ensures
        f == q,
{
    let ii = poly_integ(q, symb);
    let dr = poly_deriv(r, symb);
    lemma_integ_terms(q, symb);
    lemma_integ_canonical_terms(q, r, symb);
    assert forall|m: Seq<VarV>|
        #![trigger coeff_at(dr, m), coeff_at(q, m)]
        coeff_at(dr, m) == coeff_at(q, m) by {
        lemma_coeff_at_canonical(q, m);
        if exists|k: int| 0 <= k < dr.len() && mono((#[trigger] dr[k]).vars) == m {
            let k = choose|k: int| 0 <= k < dr.len() && mono((#[trigger] dr[k]).vars) == m;
            assert(appears_in(r[k], ii));
            let j = choose|j: int| 0 <= j < ii.len() && r[k] == #[trigger] ii[j];
            lemma_term_integ_deriv(q[j], symb);
            assert(dr[k] == term_deriv(r[k], symb));
            assert(dr[k] == q[j]);
            lemma_mono_id(q[j].vars);
            assert(m == q[j].vars);
            assert forall|k2: int| 0 <= k2 < dr.len() && k2 != k implies mono(
                (#[trigger] dr[k2]).vars,
            ) != m by {
                assert(appears_in(r[k2], ii));
                let j2 = choose|j2: int| 0 <= j2 < ii.len() && r[k2] == #[trigger] ii[j2];
                lemma_term_integ_deriv(q[j2], symb);
                assert(dr[k2] == q[j2]);
                lemma_mono_id(q[j2].vars);
                if q[j2].vars == m {
                    if j2 < j {
                        assert(term_before(q[j2], q[j]));
                        lemma_term_before_distinct(q[j2], q[j]);
                    } else if j2 > j {
                        assert(term_before(q[j], q[j2]));
                        lemma_term_before_distinct(q[j], q[j2]);
                    }
                    assert(j2 == j);
                    assert(r[k2] == r[k]);
                    if k2 < k {
                        assert(term_before(r[k2], r[k]));
                        lemma_term_before_distinct(r[k2], r[k]);
                    } else {
                        assert(term_before(r[k], r[k2]));
                        lemma_term_before_distinct(r[k], r[k2]);
                    }
                }
            }
            lemma_coeff_at_distinct(dr, m, k);
            assert forall|j2: int| 0 <= j2 < j implies (#[trigger] q[j2]).vars != m by {
                assert(term_before(q[j2], q[j]));
                lemma_term_before_distinct(q[j2], q[j]);
            }
            lemma_lookupc_at(q, m, j);
        } else {
            assert(forall|k: int| 0 <= k < dr.len() ==> mono((#[trigger] dr[k]).vars) != m);
            lemma_coeff_at_absent(dr, m);
            assert forall|j: int| 0 <= j < q.len() implies (#[trigger] q[j]).vars != m by {
                if q[j].vars == m {
                    assert(appears_in(ii[j], r));
                    let k = choose|k: int| 0 <= k < r.len() && ii[j] == #[trigger] r[k];
                    lemma_term_integ_deriv(q[j], symb);
                    assert(dr[k] == term_deriv(r[k], symb));
                    assert(dr[k] == q[j]);
                    lemma_mono_id(q[j].vars);
                    assert(mono(dr[k].vars) == m);
                    assert(false);
                }
            }
            lemma_lookupc_notin(q, m);
        }
    }
    assert forall|m: Seq<VarV>|
        #![trigger coeff_at(f, m), coeff_at(q, m)]
        coeff_at(f, m) == coeff_at(q, m) by {
        assert(coeff_at(f, m) == coeff_at(dr, m));
    }
    lemma_canonical_unique(f, q);
}

} // verus!
