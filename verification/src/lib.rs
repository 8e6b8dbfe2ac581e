//! Finite-field arithmetic over a prime modulus of up to 256 bits, and the
//! ring of univariate polynomials over such a field: the algebra that
//! interpolation, evaluation over a domain and low-degree tests are built on.
//!
//! - [`uint`]: the 256-bit and 512-bit integers that hold the values, with the
//!   wide arithmetic of the `bigint` crate;
//! - [`number_theory`]: congruences, greatest common divisors, primes and the
//!   extended Euclidean algorithm;
//! - [`algebra`]: [`algebra::Field`], [`algebra::FieldElement`] and their
//!   operations;
//! - [`encoding`]: the canonical bytes of an element;
//! - [`generator_order`]: the order of the generator of the reference field;
//! - [`poly_spec`]: polynomials as sequences of coefficients, and what their
//!   operations are;
//! - [`unipolynomial`]: [`unipolynomial::UPolynomial`] and its operations;
//! - [`polynomials`]: the same type under the name `Polynomial`;
//! - [`poly_laws`], [`poly_roots`]: what holds of those operations.

pub mod algebra;
pub mod encoding;
pub mod generator_order;
pub mod number_theory;
pub mod poly_laws;
pub mod poly_roots;
pub mod poly_spec;
pub mod polynomials;
pub mod uint;
pub mod unipolynomial;
