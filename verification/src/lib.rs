//! Modular arithmetic over a small fixed modulus — prime in the intended
//! use, so that every nonzero residue is invertible — and the point group of
//! an elliptic curve in short Weierstrass form over that field.

pub mod curve;
pub mod field;
