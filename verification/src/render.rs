//! Deterministic text rendering of polynomials.
//!
//! The format follows the canonical form: terms separated by one space, an
//! explicit `+` before positive non-leading terms, a leading coefficient of
//! one suppressed, a degree of one suppressed, and multi-character symbols
//! wrapped in parentheses.  A non-integer coefficient renders as
//! `numerator/denominator`.

use vstd::prelude::*;
use vstd::string::StringExecFns;

use crate::coeff::Coeff;
use crate::coeff::Rat;
use crate::coeff::absn;
use crate::coeff::rat_one;
use crate::poly::Poly;
use crate::poly::PolyTerm;
use crate::poly::PolyVar;

verus! {

pub open spec fn digit(d: nat) -> char {
    if d == 0 {
        '0'
    } else if d == 1 {
        '1'
    } else if d == 2 {
        '2'
    } else if d == 3 {
        '3'
    } else if d == 4 {
        '4'
    } else if d == 5 {
        '5'
    } else if d == 6 {
        '6'
    } else if d == 7 {
        '7'
    } else if d == 8 {
        '8'
    } else {
        '9'
    }
}

/// The decimal digits of `n`, most significant first.
pub open spec fn dec_digits(n: nat) -> Seq<char>
    decreases n,
{
    if n < 10 {
        seq![digit(n)]
    } else {
        dec_digits(n / 10).push(digit(n % 10))
    }
}

/// The text of one variable: the symbol, parenthesized when it is more
/// than one character, followed by the degree unless that is one.
pub open spec fn var_text(v: PolyVar) -> Seq<char> {
    (if v.sym@.len() == 1 {
        v.sym@
    } else {
        seq!['('] + v.sym@ + seq![')']
    }) + (if v.deg == 1 {
        Seq::<char>::empty()
    } else {
        dec_digits(v.deg as nat)
    })
}

pub open spec fn vars_text(vs: Seq<PolyVar>) -> Seq<char>
    decreases vs.len(),
{
    if vs.len() == 0 {
        Seq::<char>::empty()
    } else {
        vars_text(vs.drop_last()) + var_text(vs.last())
    }
}

/// The text of a coefficient: a possibly negative integer, with the
/// denominator after a slash when it is not one.
pub open spec fn coeff_text(r: Rat) -> Seq<char> {
    (if r.n < 0 {
        seq!['-']
    } else {
        Seq::<char>::empty()
    }) + dec_digits(absn(r.n)) + (if r.d == 1 {
        Seq::<char>::empty()
    } else {
        seq!['/'] + dec_digits(r.d as nat)
    })
}

/// The text of one term: the coefficient unless it is one, then the
/// variable factors with no separator.
pub open spec fn term_text(t: PolyTerm) -> Seq<char> {
    (if t.coeff@ == rat_one() {
        Seq::<char>::empty()
    } else {
        coeff_text(t.coeff@)
    }) + vars_text(t.vars@)
}

/// The text of the whole polynomial: the first term bare, every further
/// term after one space, with `+` inserted before positive coefficients.
pub open spec fn poly_text(ts: Seq<PolyTerm>) -> Seq<char>
    decreases ts.len(),
{
    if ts.len() == 0 {
        Seq::<char>::empty()
    } else if ts.len() == 1 {
        term_text(ts[0])
    } else {
        poly_text(ts.drop_last()) + seq![' '] + (if ts.last().coeff@.n > 0 {
            seq!['+']
        } else {
            Seq::<char>::empty()
        }) + term_text(ts.last())
    }
}

/// True exactly when the text holds a single character.
fn one_char(s: &str) -> (r: bool)
    ensures
        r == (s@.len() == 1),
{
    broadcast use vstd::string::next_postcondition;
    broadcast use vstd::string::axiom_spec_iter;

    let mut it = s.chars();
    let first = it.next();
    if first.is_none() {
        false
    } else {
        let second = it.next();
        second.is_none()
    }
}

fn digit_str(d: u64) -> (r: &'static str)
    requires
        d < 10,
    ensures
        r@ == seq![digit(d as nat)],
{
    proof {
        reveal_strlit("0");
        reveal_strlit("1");
        reveal_strlit("2");
        reveal_strlit("3");
        reveal_strlit("4");
        reveal_strlit("5");
        reveal_strlit("6");
        reveal_strlit("7");
        reveal_strlit("8");
        reveal_strlit("9");
    }
    if d == 0 {
        "0"
    } else if d == 1 {
        "1"
    } else if d == 2 {
        "2"
    } else if d == 3 {
        "3"
    } else if d == 4 {
        "4"
    } else if d == 5 {
        "5"
    } else if d == 6 {
        "6"
    } else if d == 7 {
        "7"
    } else if d == 8 {
        "8"
    } else {
        "9"
    }
}

fn push_digits(out: &mut String, n: u64)
    ensures
        final(out)@ == old(out)@ + dec_digits(n as nat),
    decreases n,
{
    if n >= 10 {
        push_digits(out, n / 10);
        out.append(digit_str(n % 10));
        proof {
            assert(old(out)@ + dec_digits((n / 10) as nat) + seq![digit((n % 10) as nat)]
                =~= old(out)@ + dec_digits(n as nat));
        }
    } else {
        out.append(digit_str(n));
        proof {
            assert(old(out)@ + seq![digit(n as nat)] =~= old(out)@ + dec_digits(n as nat));
        }
    }
}

impl PolyVar {
    /// Renders this variable.
    pub fn render_into(&self, out: &mut String)
        ensures
            final(out)@ == old(out)@ + var_text(*self),
    {
        proof {
            reveal_strlit("(");
            reveal_strlit(")");
        }
        if one_char(self.sym.as_str()) {
            out.append(self.sym.as_str());
        } else {
            out.append("(");
            out.append(self.sym.as_str());
            out.append(")");
        }
        if self.deg != 1 {
            push_digits(out, self.deg as u64);
        }
        proof {
            assert(final(out)@ =~= old(out)@ + var_text(*self));
        }
    }

    /// The text of this variable on its own.
    pub fn render(&self) -> (r: String)
        ensures
            r@ == var_text(*self),
    {
        let mut s = String::new();
        self.render_into(&mut s);
        proof {
            assert(s@ =~= var_text(*self));
        }
        s
    }
}

impl Coeff {
    /// Renders this coefficient.
    pub fn render_into(&self, out: &mut String)
        ensures
            final(out)@ == old(out)@ + coeff_text(self@),
    {
        proof {
            use_type_invariant(self);
            reveal_strlit("-");
            reveal_strlit("/");
        }
        let n = self.numer();
        let d = self.denom();
        if n < 0 {
            out.append("-");
            push_digits(out, (-n) as u64);
        } else {
            push_digits(out, n as u64);
        }
        if d != 1 {
            out.append("/");
            push_digits(out, d as u64);
        }
        proof {
            assert(final(out)@ =~= old(out)@ + coeff_text(self@));
        }
    }
}

impl PolyTerm {
    /// Renders this term.
    pub fn render_into(&self, out: &mut String)
        ensures
            final(out)@ == old(out)@ + term_text(*self),
    {
        let ghost base = out@;
        if !self.coeff.is_one() {
            self.coeff.render_into(out);
        }
        let mut i: usize = 0;
        while i < self.vars.len()
            invariant
                0 <= i <= self.vars@.len(),
                out@ == base + (if self.coeff@ == rat_one() {
                    Seq::<char>::empty()
                } else {
                    coeff_text(self.coeff@)
                }) + vars_text(self.vars@.take(i as int)),
            decreases self.vars@.len() - i,
        {
            proof {
                assert(self.vars@.take(i + 1).drop_last() =~= self.vars@.take(i as int));
                assert(self.vars@.take(i + 1).last() == self.vars@[i as int]);
            }
            self.vars[i].render_into(out);
            i = i + 1;
        }
        proof {
            assert(self.vars@.take(self.vars@.len() as int) =~= self.vars@);
            assert(final(out)@ =~= base + term_text(*self));
        }
    }

    /// The text of this term on its own.
    pub fn render(&self) -> (r: String)
        ensures
            r@ == term_text(*self),
    {
        let mut s = String::new();
        self.render_into(&mut s);
        proof {
            assert(s@ =~= term_text(*self));
        }
        s
    }
}

impl Poly {
    /// The canonical text of this polynomial; the empty polynomial renders
    /// as the empty string.
    pub fn render(&self) -> (r: String)
        ensures
            r@ == poly_text(self.0@),
    {
        proof {
            reveal_strlit(" ");
            reveal_strlit("+");
        }
        let mut s = String::new();
        let mut i: usize = 0;
        while i < self.0.len()
            invariant
                0 <= i <= self.0@.len(),
                s@ == poly_text(self.0@.take(i as int)),
            decreases self.0@.len() - i,
        {
            proof {
                reveal_strlit(" ");
                reveal_strlit("+");
                assert(self.0@.take(i + 1).drop_last() =~= self.0@.take(i as int));
                assert(self.0@.take(i + 1).last() == self.0@[i as int]);
            }
            if i > 0 {
                s.append(" ");
                if self.0[i].coeff.numer() > 0 {
                    s.append("+");
                }
            }
            self.0[i].render_into(&mut s);
            proof {
                if i == 0 {
                    assert(s@ =~= poly_text(self.0@.take(1)));
                } else {
                    assert(s@ =~= poly_text(self.0@.take(i + 1)));
                }
            }
            i = i + 1;
        }
        proof {
            assert(self.0@.take(self.0@.len() as int) =~= self.0@);
        }
        s
    }
}

} // verus!
