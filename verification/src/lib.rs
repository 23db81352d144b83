//! Decimal digits of pi by binary splitting of the Chudnovsky series.
//!
//! The series is folded as triples (P, Q, T) of arbitrary-precision
//! integers with an associative merge rule; the final value is assembled
//! from the combined triple and a scaled integer square root of 10005.

pub mod bigint;
pub mod series;
pub mod terms;
pub mod reduce;
pub mod pi;
