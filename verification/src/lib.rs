//! A minimal zero-knowledge rollup: Pedersen commitments, Sigma proofs with
//! Fiat-Shamir challenges, bit-decomposition range proofs, Merkle membership
//! proofs and an account state machine, with their contracts proved by Verus.

pub mod bignum;
pub mod digest;
pub mod random;
pub mod transcript;
pub mod commitment;
pub mod sigma;
pub mod merkle;
pub mod bits;
pub mod bit_or_transcript;
pub mod account;
pub mod batch;
pub mod dto;
pub mod error;
pub mod transaction;
pub mod state;
pub mod wallet;
pub mod access;
pub mod prime_field;
pub mod decimal;
pub mod text;
