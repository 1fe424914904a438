//! A node of a blockchain network: blocks that carry a batch of
//! transactions, the node's chain with its forks and mempool, and the node's
//! identity and peers.

pub mod block;
pub mod blockchain;
pub mod node;
pub mod key;
pub mod server;
