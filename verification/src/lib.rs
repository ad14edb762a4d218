//! An on-chain transaction-data storage core with a proof-of-storage
//! protocol: payloads are split into fixed-size chunks and committed to by a
//! binary hash tree; each block, chain randomness deterministically selects
//! one retained record and one chunk of it whose possession must be proven
//! by a Merkle inclusion proof; records expire once their storage period
//! elapses, and a bounded authorization ledger meters fee-free storage
//! capacity.

pub mod chunker;
pub mod errors;
pub mod hashing;
pub mod lifecycle;
pub mod merkle;
pub mod records;
pub mod select;
pub mod seq_util;
pub mod state;
