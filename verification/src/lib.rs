//! A peer-to-peer replicated ledger core.
//!
//! Nodes exchange a handshake protocol, gossip transactions and blocks with
//! content-hash deduplication, and a chain component assembles, proof-of-works,
//! persists, and resynchronizes blocks. Wire framing, hashing, the connection
//! registry, and the ledger rules are verified; the cryptographic digest, the
//! id generator, and the clock are called through trusted wrappers.

pub mod block;
pub mod chain;
pub mod codec;
pub mod digest;
pub mod endian;
pub mod envelope;
pub mod handshake;
pub mod hex;
pub mod menu;
pub mod merkle;
pub mod node;
pub mod runtime;
pub mod snake;
pub mod store;
pub mod sync;
pub mod tx;
pub mod util;
