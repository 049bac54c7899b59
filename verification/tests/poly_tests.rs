use poly::Coeff;
use poly::Poly;
use poly::PolyTerm;
use poly::PolyVar;

fn var(sym: &str, deg: usize) -> PolyVar {
    PolyVar { sym: sym.to_string(), deg }
}

fn term(coeff: i64, vars: Vec<PolyVar>) -> PolyTerm {
    PolyTerm { coeff: Coeff::from_int(coeff), vars }
}

#[test]
fn substitute() {
    let mut p = Poly(vec![
        term(1, vec![var("x", 2)]),
        term(-2, vec![var("x", 3), var("yy", 1), var("z", 2)]),
        term(10, vec![var("y", 2)]),
    ]);

    println!("{}", p.render());
    p.substitute("x", Coeff::from_int(2));
    println!("{}", p.render());
    p.simplify();
    println!("{}", p.render());

    let p2 = Poly(vec![]);

    p.add_assign(p2);
}

#[test]
fn coeff_reduces_to_lowest_terms() {
    let c = Coeff::new(2, 4);
    assert_eq!(c.numer(), 1);
    assert_eq!(c.denom(), 2);
    let d = Coeff::new(-6, 4);
    assert_eq!(d.numer(), -3);
    assert_eq!(d.denom(), 2);
}

#[test]
fn coeff_arithmetic_is_exact() {
    let half = Coeff::new(1, 2);
    let third = Coeff::new(1, 3);
    let sum = half.add(&third);
    assert_eq!(sum.numer(), 5);
    assert_eq!(sum.denom(), 6);
    let prod = half.mul(&third);
    assert_eq!(prod.numer(), 1);
    assert_eq!(prod.denom(), 6);
    let q = Coeff::from_int(2).div_int(3);
    assert_eq!(q.numer(), 2);
    assert_eq!(q.denom(), 3);
    let p = Coeff::new(-1, 2).pow(3);
    assert_eq!(p.numer(), -1);
    assert_eq!(p.denom(), 8);
    assert!(Coeff::from_int(0).is_zero());
    assert!(Coeff::from_int(1).is_one());
}

#[test]
fn simplify_merges_vars_and_terms() {
    // 4 x^2 x^3 y^4  ->  4 x^5 y^4, and like terms merge.
    let mut p = Poly(vec![
        term(4, vec![var("x", 2), var("x", 3), var("y", 4)]),
        term(10, vec![var("y", 4), var("x", 5)]),
    ]);
    p.simplify();
    assert_eq!(p.0.len(), 1);
    assert_eq!(p.0[0].coeff.numer(), 14);
    assert_eq!(p.0[0].vars.len(), 2);
    assert_eq!(p.0[0].vars[0].sym, "x");
    assert_eq!(p.0[0].vars[0].deg, 5);
    assert_eq!(p.0[0].vars[1].sym, "y");
    assert_eq!(p.0[0].vars[1].deg, 4);
}

#[test]
fn simplify_is_idempotent() {
    let mut p = Poly(vec![
        term(3, vec![var("a", 2)]),
        term(1, vec![]),
        term(1, vec![var("a", 3)]),
        term(1, vec![var("a", 1)]),
    ]);
    p.simplify();
    let once = p.clone();
    p.simplify();
    assert_eq!(p, once);
}

#[test]
fn canonical_uniqueness() {
    // The same polynomial written two ways canonicalizes identically.
    let mut p1 = Poly(vec![
        term(2, vec![var("x", 1), var("y", 1)]),
        term(5, vec![var("x", 2)]),
    ]);
    let mut p2 = Poly(vec![
        term(5, vec![var("x", 1), var("x", 1)]),
        term(1, vec![var("y", 1), var("x", 1)]),
        term(1, vec![var("x", 1), var("y", 1), var("z", 0)]),
    ]);
    p1.simplify();
    p2.simplify();
    assert_eq!(p1, p2);
}

#[test]
fn zero_elimination() {
    let mut p = Poly(vec![
        term(0, vec![var("x", 3)]),
        term(4, vec![var("x", 0), var("y", 2)]),
        term(2, vec![var("z", 1)]),
        term(-2, vec![var("z", 1)]),
    ]);
    p.simplify();
    for t in &p.0 {
        assert!(t.coeff.numer() != 0);
        for v in &t.vars {
            assert!(v.deg != 0);
        }
    }
    assert_eq!(p.render(), "4y2");
}

#[test]
fn degree_ordering() {
    let mut p = Poly(vec![
        term(3, vec![var("a", 2)]),
        term(1, vec![]),
        term(1, vec![var("a", 3)]),
        term(1, vec![var("a", 1)]),
    ]);
    p.simplify();
    assert_eq!(p.render(), "a3 +3a2 +a +");
    assert_eq!(p.degree(), 3);
    let mut last = usize::MAX;
    for t in &p.0 {
        let d: usize = t.vars.iter().map(|v| v.deg).sum();
        assert!(d <= last);
        last = d;
    }
}

#[test]
fn substitution_consistency() {
    let mut p = Poly(vec![term(1, vec![var("x", 2)])]);
    p.substitute("x", Coeff::from_int(2));
    p.simplify();
    assert_eq!(p.0.len(), 1);
    assert!(p.0[0].vars.is_empty());
    assert_eq!(p.0[0].coeff.numer(), 4);
    assert_eq!(p.0[0].coeff.denom(), 1);
}

#[test]
fn substitute_then_render() {
    let mut p = Poly(vec![
        term(1, vec![var("x", 2)]),
        term(-2, vec![var("x", 3), var("y", 1), var("z", 2)]),
        term(10, vec![var("y", 2)]),
    ]);
    p.substitute("x", Coeff::from_int(2));
    p.simplify();
    assert_eq!(p.render(), "-16yz2 +10y2 +4");
}

#[test]
fn substitute_unknown_symbol_is_noop() {
    let mut p = Poly(vec![term(3, vec![var("x", 2)])]);
    p.substitute("w", Coeff::from_int(7));
    p.simplify();
    assert_eq!(p.render(), "3x2");
}

#[test]
fn derivative_power_rule() {
    let mut p = Poly(vec![term(1, vec![var("x", 2)])]);
    p.differentiate("x");
    assert_eq!(p.render(), "2x");
}

#[test]
fn integral_power_rule() {
    let mut p = Poly(vec![term(2, vec![var("x", 1)])]);
    p.integrate("x");
    assert_eq!(p.render(), "x2");
}

#[test]
fn derivative_of_constant_is_zero() {
    let mut p = Poly(vec![term(5, vec![])]);
    p.differentiate("x");
    assert_eq!(p.0.len(), 0);
    assert_eq!(p.render(), "");
}

#[test]
fn integral_of_constant() {
    let mut p = Poly(vec![term(5, vec![])]);
    p.integrate("x");
    assert_eq!(p.render(), "5x");
}

#[test]
fn derivative_after_integral_restores() {
    let mut p = Poly(vec![
        term(1, vec![var("x", 2)]),
        term(3, vec![var("x", 1), var("y", 1)]),
        term(-7, vec![var("y", 3)]),
    ]);
    p.simplify();
    let before = p.clone();
    p.integrate("x");
    p.differentiate("x");
    assert_eq!(p, before);
}

#[test]
fn multiply_expands_and_simplifies() {
    let a = Poly(vec![term(1, vec![var("x", 1)]), term(1, vec![])]);
    let b = Poly(vec![term(1, vec![var("x", 1)]), term(-1, vec![])]);
    let mut prod = a.mul(&b);
    assert_eq!(prod.0.len(), 4);
    prod.simplify();
    assert_eq!(prod.render(), "x2 -1");
}

#[test]
fn add_sub_neg() {
    let a = Poly(vec![term(2, vec![var("x", 1)])]);
    let b = Poly(vec![term(3, vec![var("x", 1)])]);
    let mut s = a.clone().add(b.clone());
    assert_eq!(s.0.len(), 2);
    s.simplify();
    assert_eq!(s.render(), "5x");
    let mut d = a.clone().sub(b.clone());
    d.simplify();
    assert_eq!(d.render(), "-1x");
    let n = a.neg();
    assert_eq!(n.0[0].coeff.numer(), -2);
    let mut sa = Poly(vec![]);
    sa.sub_assign(b);
    sa.simplify();
    assert_eq!(sa.render(), "-3x");
}

#[test]
fn render_forms() {
    // Coefficient one is suppressed, degree one is suppressed, and a
    // multi-character symbol is parenthesized.
    let p = Poly(vec![term(1, vec![var("foo", 3), var("x", 1)])]);
    assert_eq!(p.render(), "(foo)3x");
    let q = Poly(vec![PolyTerm { coeff: Coeff::new(1, 3), vars: vec![var("x", 2)] }]);
    assert_eq!(q.render(), "1/3x2");
    assert_eq!(Poly(vec![]).render(), "");
}

#[test]
fn single_character_symbol_is_bare() {
    // A one-character symbol is never parenthesized, whatever its UTF-8
    // width; only multi-character symbols are.
    let p = Poly(vec![term(2, vec![var("\u{e9}", 3)])]);
    assert_eq!(p.render(), "2\u{e9}3");
}

#[test]
fn fractional_coefficients_integrate_exactly() {
    // x^2 integrates to x^3 / 3.
    let mut p = Poly(vec![term(1, vec![var("x", 2)])]);
    p.integrate("x");
    assert_eq!(p.0.len(), 1);
    assert_eq!(p.0[0].coeff.numer(), 1);
    assert_eq!(p.0[0].coeff.denom(), 3);
    assert_eq!(p.render(), "1/3x3");
}

#[test]
fn degree_of_empty_is_zero() {
    let p = Poly(vec![]);
    assert_eq!(p.degree(), 0);
}
