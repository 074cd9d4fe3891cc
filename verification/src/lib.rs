//! Scalar quantization of embedding vectors into 8-bit codes.
//!
//! A batch of vectors is compressed dimension by dimension: robust bounds
//! are taken from the samples of the dimension ([`bounds`]), the bounds give
//! an affine map onto the codes `0..=255` ([`params`]), and every value is
//! replaced by its code ([`quantizer`]).
//!
//! All arithmetic is exact. Values are fixed-point samples in units of
//! `2^-32`, scales are fractions with denominator 255, and a quantile is a
//! fraction of two integers; [`fixed`] turns single-precision bit patterns
//! into samples. [`fvecs`] reads vectors from the bytes of a vector file and
//! [`sampling`] draws the random record indices for it.

pub mod bounds;
pub mod error;
pub mod fixed;
pub mod fvecs;
pub mod params;
pub mod quantizer;
pub mod sampling;
