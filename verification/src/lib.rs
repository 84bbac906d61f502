//! A minimal proof-of-work ledger: blocks of transactions linked by hashes,
//! a puzzle that gates each new block, and longest-valid-chain consensus.

pub mod blockchain;
pub mod consensus;
pub mod digest;
pub mod encoding;
pub mod text;
pub mod transaction;
