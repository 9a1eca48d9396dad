//! Exact rational arithmetic and lightweight vector math.
//!
//! The heart of the crate is [`fraction::Fraction`], a canonical-form
//! rational number over 128-bit signed integers, kept in lowest terms by a
//! verified binary (Stein's) greatest-common-divisor helper. A small generic
//! [`vectors::Vector`] container with elementwise arithmetic for fraction
//! elements rounds the crate out.

pub mod number_theory;
pub mod helper;
pub mod fraction;
pub mod decimal;
pub mod vectors;
