//! Group arithmetic and point encoding for the two pairing groups of a
//! BN-family curve over a 254-bit prime field: `G1` over the base field and
//! `G2` over its quadratic extension, with Jacobian and affine point
//! representations, the group law, and a compressed byte encoding.
//!
//! The prime-field arithmetic itself (modular multiplication, inversion,
//! square roots) is delegated to the `ark-bn254` field backend behind a small
//! set of trusted wrappers; everything layered on top of those wrappers is
//! verified against integer models of the fields.

pub mod modp;
pub mod fq;
pub mod fq2;
pub mod fr;
pub mod g1;
pub mod g2;
