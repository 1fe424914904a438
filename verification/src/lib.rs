//! A small proof-of-work ledger: transactions, blocks linked by SHA-256
//! hashes, chains that mint blocks whose hash holds enough `1` digits, and
//! the fork bookkeeping of a network node.

pub mod text;
pub mod digest;
pub mod clock;
pub mod entropy;
pub mod transaction;
pub mod block;
pub mod blockchain;
pub mod network;
pub mod emulation;
pub mod minting;
