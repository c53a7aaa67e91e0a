//! Rank-1 constraint systems over the BLS12-381 scalar field, with a memoized
//! evaluator and a satisfiability check, plus the setup tables (evaluation
//! domain, permutation coefficients) used by a polynomial-commitment based
//! prover.
use vstd::prelude::*;

pub mod constraint_system;
pub mod field;
pub mod setup;

verus! {

} // verus!
