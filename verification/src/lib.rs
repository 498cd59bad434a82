//! Consensus and state-validation core of a proof-of-work ledger whose blocks
//! form a directed acyclic graph (DAG) rather than a single chain.
//!
//! The crate provides the proof-of-work engine, the post-quantum signature
//! engine, the block model with its wire encoding, the DAG store with the
//! deterministic virtual ordering rule, the block validator, and the
//! compressed-state engine with its bounded proof cache.

pub mod bytes;
pub mod crypto;
pub mod model;
pub mod consensus;
pub mod dag;
pub mod prover;
pub mod sig;
pub mod state;
pub mod validator;
