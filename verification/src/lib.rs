//! Non-interactive proofs of sequential work over a binary labeling graph.
//!
//! A prover labels every vertex of a depth-`N` binary graph with a chain of
//! keyed hashes and hands out the labels that a fixed number of
//! pseudo-random challenges need; a verifier recomputes the challenged
//! leaves and folds their authentication paths back up to the root label.
//!
//! Beside the proofs stand the plain units in which a chain that uses them
//! counts: amounts of coin, block heights and network identifiers.

pub mod bits;
pub mod challenge;
pub mod codec;
pub mod hash;
pub mod label;
pub mod labeler;
pub mod laws;
pub mod network;
pub mod node;
pub mod node_vec;
pub mod table;
pub mod text;
pub mod units;
pub mod work_proof;

pub use crate::node::Node;
pub use crate::work_proof::Proof;
