//! Approximate equality, the comparison the demo programs use on their
//! floating-point tuples and colors.
//!
//! The trait is declared here so that every crate in the project compares
//! values through one name; the implementations are floating-point
//! arithmetic (absolute difference under a fixed tolerance), which the
//! verified core does not hold, so callers implement it for their own
//! float-valued types.

use vstd::prelude::*;

verus! {

/// ε-tolerant equality: two values compare equal when they are within a
/// fixed tolerance of each other.
pub trait ApproximateEq<T = Self> {
    fn approx_eq(&self, other: &T) -> bool;
}

} // verus!
