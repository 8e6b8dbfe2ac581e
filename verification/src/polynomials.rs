//! The polynomial type under its short name.

use crate::unipolynomial::UPolynomial;
use vstd::prelude::*;

verus! {

/// A polynomial in one variable over a field.
pub type Polynomial = UPolynomial;

} // verus!
