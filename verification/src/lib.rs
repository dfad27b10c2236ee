//! A verified core for a proof-of-work blockchain node: blocks, chains,
//! the hash-prefix consensus rule, a bounded time-expiring mempool, the
//! mining coordinator's decision logic, replication bookkeeping, and the
//! JSON codec used for gossip payloads and the on-disk chain file.

pub mod block;
pub mod chain;
pub mod codec;
pub mod consensus;
pub mod hashing;
pub mod mempool;
pub mod mining;
pub mod replication;
