//! Multivariate polynomials over exact rational coefficients, with a
//! verified canonical form.
//!
//! A polynomial is an ordered sequence of terms; a term is a coefficient
//! together with an ordered sequence of symbol/exponent pairs.  Callers may
//! build arbitrary "raw" polynomials (duplicate symbols inside a term,
//! duplicate monomials, zero coefficients, zero exponents); `simplify`
//! rewrites any such value into the one canonical representation of the same
//! mathematical polynomial.  The algebraic operations (add, subtract, negate,
//! multiply, substitute, differentiate, integrate) and the deterministic text
//! rendering are built on that canonical form.

use vstd::prelude::*;

mod coeff;
mod poly;
mod laws;
mod render;

pub use coeff::Coeff;
pub use poly::Poly;
pub use poly::PolyTerm;
pub use poly::PolyVar;

verus! {

} // verus!
