//! A tamper-evident ledger of receipts: canonical hashing, schema validation,
//! Merkle inclusion proofs, a placeholder signature, twin-divergence detection
//! and the compaction gate.

pub mod binding;
pub mod canonical;
pub mod compaction;
pub mod config;
pub mod decimal;
pub mod digest;
pub mod divergence;
pub mod equivalence;
pub mod hex;
pub mod json;
pub mod json_text;
pub mod merkle;
pub mod receipt;
pub mod schema;
pub mod signature;
pub mod text;
