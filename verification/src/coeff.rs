//! Exact rational coefficients.
//!
//! A `Coeff` holds a fraction in lowest terms with a positive denominator,
//! so two `Coeff` values are equal exactly when they denote the same
//! rational number.  All arithmetic is exact; operations whose mathematical
//! result would not fit the fixed-width fields state that limit in their
//! `requires`.

use vstd::prelude::*;
use vstd::arithmetic::div_mod::lemma_fundamental_div_mod;
use vstd::arithmetic::div_mod::lemma_fundamental_div_mod_converse;
use vstd::arithmetic::div_mod::lemma_div_basics;

verus! {

/// Mathematical value of a coefficient: the rational `n / d`.
pub struct Rat {
    pub n: int,
    pub d: int,
}

pub open spec fn absn(x: int) -> nat {
    if x >= 0 {
        x as nat
    } else {
        (-x) as nat
    }
}

pub open spec fn gcd(a: nat, b: nat) -> nat
    decreases b,
{
    if b == 0 {
        a
    } else {
        gcd(b, a % b)
    }
}

pub open spec fn divides(d: nat, x: nat) -> bool {
    exists|k: nat| x == #[trigger] (k * d)
}

/// The canonical (lowest-terms) representative of the same rational.
pub open spec fn norm(r: Rat) -> Rat {
    let g = gcd(absn(r.n), absn(r.d)) as int;
    if g == 0 {
        r
    } else {
        Rat { n: r.n / g, d: r.d / g }
    }
}

pub open spec fn rat_zero() -> Rat {
    Rat { n: 0, d: 1 }
}

pub open spec fn rat_one() -> Rat {
    Rat { n: 1, d: 1 }
}

pub open spec fn rat_add(a: Rat, b: Rat) -> Rat {
    norm(Rat { n: a.n * b.d + b.n * a.d, d: a.d * b.d })
}

pub open spec fn rat_mul(a: Rat, b: Rat) -> Rat {
    norm(Rat { n: a.n * b.n, d: a.d * b.d })
}

pub open spec fn rat_neg(a: Rat) -> Rat {
    Rat { n: -a.n, d: a.d }
}

/// Exact division of a rational by a positive integer.
pub open spec fn rat_div(a: Rat, k: int) -> Rat {
    norm(Rat { n: a.n, d: a.d * k })
}

pub open spec fn rat_pow(a: Rat, k: nat) -> Rat
    decreases k,
{
    if k == 0 {
        rat_one()
    } else {
        rat_mul(rat_pow(a, (k - 1) as nat), a)
    }
}

/// In lowest terms, with a positive denominator.
pub open spec fn rat_reduced(r: Rat) -> bool {
    r.d >= 1 && gcd(absn(r.n), absn(r.d)) == 1
}

/// Both components fit the fixed-width representation.
pub open spec fn rat_fits(r: Rat) -> bool {
    -(i64::MAX as int) <= r.n <= i64::MAX as int && 1 <= r.d <= i64::MAX as int
}

pub open spec fn rat_wf(r: Rat) -> bool {
    rat_reduced(r) && rat_fits(r)
}

pub open spec fn signed_val(neg: bool, a: nat) -> int {
    if neg {
        -(a as int)
    } else {
        a as int
    }
}

pub proof fn lemma_gcd_one(a: nat)
    ensures
        gcd(a, 1) == 1,
{
    assert(a % 1 == 0);
    assert(gcd(a, 1) == gcd(1, 0));
}

pub proof fn lemma_gcd_divides(a: nat, b: nat)
    ensures
        divides(gcd(a, b), a),
        divides(gcd(a, b), b),
        a > 0 || b > 0 ==> gcd(a, b) >= 1,
    decreases b,
{
    if b == 0 {
        assert(a == 1nat * a);
        assert(0nat == 0nat * a);
    } else {
        lemma_gcd_divides(b, a % b);
        let g = gcd(b, a % b);
        let k1 = choose|k: nat| b == #[trigger] (k * g);
        let k2 = choose|k: nat| (a % b) == #[trigger] (k * g);
        lemma_fundamental_div_mod(a as int, b as int);
        let q = a as int / b as int;
        assert(q >= 0) by (nonlinear_arith)
            requires
                a as int == q * b + a as int % b as int,
                b >= 1,
                (0 <= a as int % b as int),
                ((a as int % b as int) < b),
                (a >= 0);
        assert(a as int == (q * k1 + k2) * g) by (nonlinear_arith)
            requires
                a as int == q * b + (a % b),
                b == k1 * g,
                (a % b) == k2 * g;
        assert(a == ((q * k1 + k2) as nat) * g) by (nonlinear_arith)
            requires
                a as int == (q * k1 + k2) * g,
                q >= 0;
        assert(divides(g, a));
    }
}

proof fn lemma_div_exact(x: nat, g: nat, k: nat)
    requires
        g >= 1,
        x == k * g,
    ensures
        x as int / g as int == k as int,
{
    lemma_fundamental_div_mod_converse(x as int, g as int, k as int, 0);
}

proof fn lemma_div_exact_neg(x: nat, g: nat, k: nat)
    requires
        g >= 1,
        x == k * g,
    ensures
        (-(x as int)) / (g as int) == -(k as int),
{
    assert(-(x as int) == (-(k as int)) * (g as int) + 0) by (nonlinear_arith)
        requires
            x == k * g;
    lemma_fundamental_div_mod_converse(-(x as int), g as int, -(k as int), 0);
}

proof fn lemma_mod_scale(a: nat, b: nat, k: nat)
    requires
        b >= 1,
        k >= 1,
    ensures
        (k * a) % (k * b) == k * (a % b),
{
    lemma_fundamental_div_mod(a as int, b as int);
    let q = a as int / b as int;
    let r = a as int % b as int;
    assert(q >= 0) by (nonlinear_arith)
        requires
            a as int == q * b + r,
            b >= 1,
            (0 <= r),
            (r < b),
            (a >= 0);
    assert(k as int * a as int == q * (k as int * b as int) + k as int * r) by (nonlinear_arith)
        requires
            a as int == q * b as int + r;
    assert(0 <= k as int * r < k as int * b as int) by (nonlinear_arith)
        requires
            (0 <= r),
            ((r) < (b as int)),
            (k >= 1);
    lemma_fundamental_div_mod_converse(
        k as int * a as int,
        k as int * b as int,
        q,
        k as int * r,
    );
}

pub proof fn lemma_gcd_scale(a: nat, b: nat, k: nat)
    requires
        k >= 1,
    ensures
        gcd(k * a, k * b) == k * gcd(a, b),
    decreases b,
{
    if b == 0 {
        assert(k * b == 0);
    } else {
        assert(k * b > 0) by (nonlinear_arith)
            requires
                k >= 1,
                b >= 1;
        lemma_mod_scale(a, b, k);
        lemma_gcd_scale(b, a % b, k);
        assert(gcd(k * a, k * b) == gcd(k * b, (k * a) % (k * b)));
    }
}

pub proof fn lemma_norm(r: Rat)
    requires
        r.d >= 1,
    ensures
        rat_reduced(norm(r)),
        norm(r).d <= r.d,
        absn(norm(r).n) <= absn(r.n),
        (norm(r).n == 0) <==> (r.n == 0),
        (norm(r).n > 0) <==> (r.n > 0),
        norm(r).n * r.d == r.n * norm(r).d,
        rat_reduced(r) ==> norm(r) == r,
{
    let a = absn(r.n);
    let d = absn(r.d);
    assert(d == r.d);
    lemma_gcd_divides(a, d);
    let g = gcd(a, d);
    assert(g >= 1);
    let ka = choose|k: nat| a == #[trigger] (k * g);
    let kd = choose|k: nat| d == #[trigger] (k * g);
    assert(kd >= 1) by (nonlinear_arith)
        requires
            d == kd * g,
            d >= 1;
    lemma_div_exact(d, g, kd);
    assert(norm(r).d == kd);
    if r.n >= 0 {
        lemma_div_exact(a, g, ka);
        assert(norm(r).n == ka);
    } else {
        lemma_div_exact_neg(a, g, ka);
        assert(norm(r).n == -(ka as int));
        assert(ka >= 1) by (nonlinear_arith)
            requires
                a == ka * g,
                a >= 1;
    }
    assert(ka <= a) by (nonlinear_arith)
        requires
            a == ka * g,
            g >= 1;
    assert(kd <= d) by (nonlinear_arith)
        requires
            d == kd * g,
            g >= 1;
    if r.n > 0 {
        assert(ka >= 1) by (nonlinear_arith)
            requires
                a == ka * g,
                a >= 1;
    }
    lemma_gcd_scale(ka, kd, g);
    assert(g * ka == a && g * kd == d) by (nonlinear_arith)
        requires
            a == ka * g,
            d == kd * g;
    assert(gcd(ka, kd) == 1) by (nonlinear_arith)
        requires
            g == g * gcd(ka, kd),
            g >= 1;
    assert(norm(r).n * r.d == r.n * norm(r).d) by (nonlinear_arith)
        requires
            a == ka * g,
            d == kd * g,
            norm(r).d == kd as int,
            norm(r).n == if r.n >= 0 { ka as int } else { -(ka as int) },
            r.n == if r.n >= 0 { a as int } else { -(a as int) },
            r.d == d as int;
    if rat_reduced(r) {
        assert(g == 1);
        lemma_div_basics(r.n);
        lemma_div_basics(r.d);
        assert(norm(r) == r);
    }
}

pub proof fn lemma_norm_scale(r: Rat, k: int)
    requires
        r.d >= 1,
        k >= 1,
    ensures
        norm(Rat { n: k * r.n, d: k * r.d }) == norm(r),
{
    let a = absn(r.n);
    let d = absn(r.d);
    let kn = k as nat;
    let r2 = Rat { n: k * r.n, d: k * r.d };
    if r.n >= 0 {
        assert(r2.n >= 0 && r2.n == kn * a) by (nonlinear_arith)
            requires
                r2.n == k * r.n,
                k >= 1,
                (r.n >= 0),
                a == r.n,
                kn == k;
    } else {
        assert(r2.n < 0 && -r2.n == kn * a) by (nonlinear_arith)
            requires
                r2.n == k * r.n,
                k >= 1,
                (r.n < 0),
                a == -r.n,
                kn == k;
    }
    assert(absn(r2.n) == kn * a);
    assert(r2.d >= 1 && r2.d == kn * d) by (nonlinear_arith)
        requires
            r2.d == k * r.d,
            k >= 1,
            r.d >= 1,
            d == r.d,
            kn == k;
    assert(absn(r2.d) == kn * d);
    lemma_gcd_scale(a, d, kn);
    lemma_gcd_divides(a, d);
    let g = gcd(a, d);
    assert(g >= 1);
    let g2 = gcd(absn(r2.n), absn(r2.d));
    assert(g2 == kn * g);
    assert(g2 >= 1) by (nonlinear_arith)
        requires
            g2 == kn * g,
            kn >= 1,
            g >= 1;
    let ka = choose|kk: nat| a == #[trigger] (kk * g);
    let kd = choose|kk: nat| d == #[trigger] (kk * g);
    lemma_div_exact(d, g, kd);
    assert(kn * d == kd * g2) by (nonlinear_arith)
        requires
            d == kd * g,
            g2 == kn * g;
    lemma_div_exact(kn * d, g2, kd);
    assert(r2.d as int / g2 as int == r.d / g as int);
    if r.n >= 0 {
        lemma_div_exact(a, g, ka);
        assert(kn * a == ka * g2) by (nonlinear_arith)
            requires
                a == ka * g,
                g2 == kn * g;
        lemma_div_exact(kn * a, g2, ka);
        assert(r2.n >= 0) by (nonlinear_arith)
            requires
                r2.n == k * r.n,
                k >= 1,
                r.n >= 0;
        assert(r2.n as int / g2 as int == r.n / g as int);
    } else {
        lemma_div_exact_neg(a, g, ka);
        assert(kn * a == ka * g2) by (nonlinear_arith)
            requires
                a == ka * g,
                g2 == kn * g;
        lemma_div_exact_neg(kn * a, g2, ka);
        assert(r2.n < 0) by (nonlinear_arith)
            requires
                r2.n == k * r.n,
                k >= 1,
                r.n < 0;
        assert(r2.n == -((kn * a) as int)) by (nonlinear_arith)
            requires
                r2.n == k * r.n,
                r.n == -(a as int),
                kn == k;
        assert(r2.n / g2 as int == r.n / g as int);
    }
    assert(norm(r2) == norm(r));
}

pub proof fn lemma_rat_add_zero(a: Rat)
    requires
        rat_reduced(a),
    ensures
        rat_add(a, rat_zero()) == a,
        rat_add(rat_zero(), a) == a,
{
    assert(a.n * 1 + 0 * a.d == a.n);
    assert(a.d * 1 == a.d);
    assert(Rat { n: a.n * 1 + 0 * a.d, d: a.d * 1 } == a);
    assert(Rat { n: 0 * a.d + a.n * 1, d: 1 * a.d } == a);
    lemma_norm(a);
}

/// An exact rational coefficient, kept in lowest terms.
#[derive(Clone, Copy, Debug, PartialEq, Eq)]
pub struct Coeff {
    num: i64,
    den: i64,
}

impl View for Coeff {
    type V = Rat;

    closed spec fn view(&self) -> Rat {
        Rat { n: self.num as int, d: self.den as int }
    }
}

impl Coeff {
    #[verifier::type_invariant]
    pub open spec fn wf(self) -> bool {
        rat_wf(self@)
    }

    /// The numerator of the fraction in lowest terms.
    pub fn numer(&self) -> (r: i64)
        ensures
            r as int == self@.n,
    {
        self.num
    }

    /// The (positive) denominator of the fraction in lowest terms.
    pub fn denom(&self) -> (r: i64)
        ensures
            r as int == self@.d,
    {
        self.den
    }

    pub fn zero() -> (r: Coeff)
        ensures
            r@ == rat_zero(),
    {
        proof {
            lemma_gcd_one(0);
        }
        Coeff { num: 0, den: 1 }
    }

    pub fn one() -> (r: Coeff)
        ensures
            r@ == rat_one(),
    {
        proof {
            lemma_gcd_one(1);
        }
        Coeff { num: 1, den: 1 }
    }

    /// The integer `n` as a coefficient.
    pub fn from_int(n: i64) -> (r: Coeff)
        requires
            n > i64::MIN,
        ensures
            r@ == (Rat { n: n as int, d: 1 }),
            rat_reduced(r@),
    {
        proof {
            lemma_gcd_one(absn(n as int));
        }
        Coeff { num: n, den: 1 }
    }

    /// The fraction `num / den`, reduced to lowest terms.
    pub fn new(num: i64, den: i64) -> (r: Coeff)
        requires
            num > i64::MIN,
            den >= 1,
        ensures
            r@ == norm(Rat { n: num as int, d: den as int }),
    {
        proof {
            lemma_norm(Rat { n: num as int, d: den as int });
        }
        let neg = num < 0;
        let a: u128 = if neg {
            (-num) as u128
        } else {
            num as u128
        };
        Self::make(neg, a, den as u128)
    }

    /// Shared reducing constructor: builds `±a / d` in lowest terms.
    fn make(neg: bool, a: u128, d: u128) -> (c: Coeff)
        requires
            d >= 1,
            rat_fits(norm(Rat { n: signed_val(neg, a as nat), d: d as int })),
        ensures
            c@ == norm(Rat { n: signed_val(neg, a as nat), d: d as int }),
    {
        let ghost r = Rat { n: signed_val(neg, a as nat), d: d as int };
        proof {
            lemma_gcd_divides(a as nat, d as nat);
            assert(absn(r.n) == a as nat);
            assert(absn(r.d) == d as nat);
        }
        let g = gcd_u128(a, d);
        let ghost gs = gcd(a as nat, d as nat);
        let ghost ka = choose|k: nat| (a as nat) == #[trigger] (k * gs);
        let ghost kd = choose|k: nat| (d as nat) == #[trigger] (k * gs);
        proof {
            lemma_div_exact(a as nat, gs, ka);
            lemma_div_exact(d as nat, gs, kd);
            if neg && a > 0 {
                lemma_div_exact_neg(a as nat, gs, ka);
            }
            if neg && a == 0 {
                assert(ka == 0) by (nonlinear_arith)
                    requires
                        0 == ka * gs,
                        gs >= 1;
            }
            assert(norm(r).d == kd as int);
            assert(norm(r).n == signed_val(neg, ka));
        }
        let qn = a / g;
        let qd = d / g;
        proof {
            assert(qn == ka && qd == kd);
        }
        let num: i64 = if neg {
            -(qn as i64)
        } else {
            qn as i64
        };
        let den: i64 = qd as i64;
        proof {
            lemma_norm(r);
        }
        Coeff { num, den }
    }

    /// Exact sum of two coefficients.
    pub fn add(&self, other: &Coeff) -> (r: Coeff)
        requires
            rat_fits(rat_add(self@, other@)),
        ensures
            r@ == rat_add(self@, other@),
    {
        proof {
            use_type_invariant(self);
            use_type_invariant(other);
            lemma_prod_bound(self.num as int, other.den as int);
            lemma_prod_bound(other.num as int, self.den as int);
            lemma_prod_bound(self.den as int, other.den as int);
        }
        let n: i128 = self.num as i128 * other.den as i128 + other.num as i128 * self.den as i128;
        let d: i128 = self.den as i128 * other.den as i128;
        proof {
            assert(d >= 1) by (nonlinear_arith)
                requires
                    d == self.den as int * other.den as int,
                    self.den >= 1,
                    other.den >= 1;
        }
        Self::signed_make(n, d)
    }

    /// Exact product of two coefficients.
    pub fn mul(&self, other: &Coeff) -> (r: Coeff)
        requires
            rat_fits(rat_mul(self@, other@)),
        ensures
            r@ == rat_mul(self@, other@),
    {
        proof {
            use_type_invariant(self);
            use_type_invariant(other);
            lemma_prod_bound(self.num as int, other.num as int);
            lemma_prod_bound(self.den as int, other.den as int);
        }
        let n: i128 = self.num as i128 * other.num as i128;
        let d: i128 = self.den as i128 * other.den as i128;
        proof {
            assert(d >= 1) by (nonlinear_arith)
                requires
                    d == self.den as int * other.den as int,
                    self.den >= 1,
                    other.den >= 1;
        }
        Self::signed_make(n, d)
    }

    /// Exact division by a positive integer.
    pub fn div_int(&self, k: u64) -> (r: Coeff)
        requires
            k >= 1,
            rat_fits(rat_div(self@, k as int)),
        ensures
            r@ == rat_div(self@, k as int),
    {
        proof {
            use_type_invariant(self);
            assert(self.den as int * k as int <= i64::MAX as int * u64::MAX as int)
                by (nonlinear_arith)
                requires
                    1 <= self.den as int <= i64::MAX as int,
                    1 <= k as int <= u64::MAX as int;
            assert(self.den as int * k as int >= 1) by (nonlinear_arith)
                requires
                    self.den >= 1,
                    k >= 1;
        }
        let d: i128 = self.den as i128 * k as i128;
        Self::signed_make(self.num as i128, d)
    }

    /// Reduces `n / d` (with `d >= 1`) into a `Coeff`.
    fn signed_make(n: i128, d: i128) -> (r: Coeff)
        requires
            d >= 1,
            n > i128::MIN,
            rat_fits(norm(Rat { n: n as int, d: d as int })),
        ensures
            r@ == norm(Rat { n: n as int, d: d as int }),
    {
        let neg = n < 0;
        let a: u128 = if neg {
            (-n) as u128
        } else {
            n as u128
        };
        proof {
            assert(signed_val(neg, a as nat) == n as int);
        }
        Self::make(neg, a, d as u128)
    }

    /// Exact negation.
    pub fn neg(&self) -> (r: Coeff)
        ensures
            r@ == rat_neg(self@),
    {
        proof {
            use_type_invariant(self);
            assert(absn(-(self.num as int)) == absn(self.num as int));
        }
        Coeff { num: -self.num, den: self.den }
    }

    /// Exact `k`-th power.
    pub fn pow(&self, k: usize) -> (r: Coeff)
        requires
            forall|j: int| 0 <= j <= k ==> rat_fits(#[trigger] rat_pow(self@, j as nat)),
        ensures
            r@ == rat_pow(self@, k as nat),
    {
        proof {
            use_type_invariant(self);
        }
        let mut acc = Self::one();
        let mut i: usize = 0;
        while i < k
            invariant
                0 <= i <= k,
                acc@ == rat_pow(self@, i as nat),
                rat_wf(self@),
                forall|j: int| 0 <= j <= k ==> rat_fits(#[trigger] rat_pow(self@, j as nat)),
            decreases k - i,
        {
            proof {
                assert(rat_pow(self@, (i + 1) as nat) == rat_mul(rat_pow(self@, i as nat), self@));
            }
            acc = acc.mul(self);
            i = i + 1;
        }
        acc
    }

    /// True exactly when this coefficient is the rational zero.
    pub fn is_zero(&self) -> (r: bool)
        ensures
            r == (self@.n == 0),
    {
        self.num == 0
    }

    /// True exactly when this coefficient is the rational one.
    pub fn is_one(&self) -> (r: bool)
        ensures
            r == (self@ == rat_one()),
    {
        self.num == 1 && self.den == 1
    }

    /// Value equality (the representation is canonical, so this is also
    /// representation equality).
    pub fn eq_coeff(&self, other: &Coeff) -> (r: bool)
        ensures
            r == (self@ == other@),
    {
        self.num == other.num && self.den == other.den
    }
}

proof fn lemma_prod_bound(x: int, y: int)
    by (nonlinear_arith)
    requires
        -(i64::MAX as int) <= x <= i64::MAX as int,
        -(i64::MAX as int) <= y <= i64::MAX as int,
    ensures
        -(i64::MAX as int * i64::MAX as int) <= x * y <= i64::MAX as int * i64::MAX as int,
{
}

fn gcd_u128(a: u128, b: u128) -> (g: u128)
    ensures
        g as nat == gcd(a as nat, b as nat),
        g as nat == 0 ==> a == 0 && b == 0,
{
    let mut x = a;
    let mut y = b;
    while y != 0
        invariant
            gcd(x as nat, y as nat) == gcd(a as nat, b as nat),
        decreases y,
    {
        let t = x % y;
        x = y;
        y = t;
    }
    proof {
        if x == 0 {
            lemma_gcd_divides(a as nat, b as nat);
            if a > 0 || b > 0 {
                assert(gcd(a as nat, b as nat) >= 1);
            }
        }
    }
    x
}

} // verus!
