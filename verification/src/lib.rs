//! Core of an off-chain state-channel node over a UTXO ledger.
//!
//! The crate keeps each channel's authoritative state, validates proposed
//! balance updates against cryptographic, monetary and ordering invariants,
//! maintains a UTXO set with atomic spend-and-add semantics, and commits to
//! snapshots with a Merkle tree.

pub mod canonical;
pub mod channel;
pub mod crypto;
pub mod encoding;
pub mod hashing;
pub mod merkle;
pub mod utxo;
