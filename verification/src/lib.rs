//! An append-only, hash-linked ledger of blocks secured by a proof-of-work
//! puzzle and persisted in a local key-value store.
//!
//! Blocks carry value-transfer transactions; a block's identity is the SHA-256
//! digest of its frozen content, and the chain is reconstructed by walking
//! `prev_hash` links backward from a durable head pointer. The unspent-output
//! set of an address is recomputed on demand by that backward walk.

pub mod errors;
pub mod codec;
pub mod hashing;
pub mod transaction;
pub mod block;
pub mod storage;
pub mod blockchain;
