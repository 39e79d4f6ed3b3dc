//! A verified prover for the PLONK argument with a width-four main gate, an
//! optional lookup argument and a copy-permutation argument.
//!
//! [`circuit::Assembly::async_create_proof`] starts a proof. Each round then goes
//! on, by `resume`, with the transforms and commitments that it asked for and the
//! challenges that a transcript draws, until [`closing_rounds::Proof`] is made.

pub mod batch_laws;
pub mod bits;
pub mod bn256;
pub mod circuit;
pub mod closing_laws;
pub mod closing_rounds;
pub mod completeness;
pub mod contributions;
pub mod domain;
pub mod errors;
pub mod failure_laws;
pub mod fft;
pub mod field;
pub mod gates;
pub mod honest;
pub mod laws;
pub mod linearization;
pub mod lookup;
pub mod lookup_rounds;
pub mod opening;
pub mod operations;
pub mod outcome_laws;
pub mod permutation;
pub mod polynomial;
pub mod product_laws;
pub mod proof_laws;
pub mod prover;
pub mod quotient;
pub mod refusal;
pub mod request_laws;
pub mod run;
pub mod session;
pub mod table_laws;
pub mod violations;
pub mod witness_laws;
