//! Exact rational numbers over `i64`, always kept in lowest terms with a
//! positive denominator.

pub mod arith;
pub mod decimal;
pub mod rational;

pub use rational::{Rational, RationalError};
