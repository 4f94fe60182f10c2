//! A verifiable, append-only directory service: a hash-chained log of signed
//! blocks whose operations build a hierarchical tree of typed entries.
//!
//! - `path`: absolute paths in the tree.
//! - `hashing`: canonical digests of structured values.
//! - `encoding` and `codec`: the canonical wire encoding and its decoding.
//! - `object`: the typed payloads of entries.
//! - `store`: the transactional store the tree is materialized into.
//! - `op` and `block`: applying operations and blocks to the store.
//! - `crypto`: signatures and sealed key blobs.
pub mod block;
pub mod codec;
pub mod crypto;
pub mod encoding;
pub mod error;
pub mod hashing;
pub mod object;
pub mod op;
pub mod path;
pub mod store;
