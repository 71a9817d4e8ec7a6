//! Modular ("finite field") arithmetic over exact rational numbers.
//!
//! The crate reduces rational numbers to their canonical representative in
//! GF(m), computes modular inverses with the extended Euclidean algorithm,
//! searches for modular square roots, and adds and multiplies small
//! polynomials with coefficients reduced modulo the field size.  The
//! `Homework1` driver packages five demonstration procedures around that
//! arithmetic; callers print its results.

pub mod number_theory;
pub mod rational;
pub mod homework1;
