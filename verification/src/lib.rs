//! A polynomial commitment engine built on linear codes.
//!
//! The coefficients of the polynomials are laid out in a matrix, every row
//! is encoded with an error-correcting code, the columns of the encoded
//! matrix are hashed into a Merkle tree, and the root of the tree is the
//! commitment. A value is proved by sending a combination of the rows and
//! opening randomly sampled columns; the verifier checks the columns
//! against the root and against the codeword of the combined row.
//!
//! - [`field`], [`algebra`], [`linalg`], [`sparse`]: the field and the
//!   arithmetic over it.
//! - [`code`], [`brakedown`]: the codes, Reed-Solomon and expander.
//! - [`hashing`], [`merkle`]: the hashes and the tree over the columns.
//! - [`params`], [`bignat`]: the parameters and what is derived from them.
//! - [`layout`], [`commit`], [`opening`]: the matrix, the commitment, and
//!   proofs under given challenges.
//! - [`transcript`], [`protocol`]: the order in which prover and verifier
//!   speak with the transcript that draws the challenges.
//! - [`laws`]: what holds of the scheme as a whole.

pub mod algebra;
pub mod bignat;
pub mod brakedown;
pub mod code;
pub mod commit;
pub mod error;
pub mod field;
pub mod hashing;
pub mod laws;
pub mod layout;
pub mod linalg;
pub mod merkle;
pub mod opening;
pub mod params;
pub mod protocol;
pub mod sparse;
pub mod transcript;
