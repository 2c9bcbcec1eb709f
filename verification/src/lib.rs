//! Metadata and failure tracking for an erasure-coded object backup store.
//!
//! An original file is split into data and parity shards, each written to an
//! independent remote backend. This crate is the source of truth mapping a
//! logical object back to its ordered shard list, the per-shard checksums and
//! backend locations needed to reconstruct it. It also tracks backends marked
//! as replaced and keeps a durable queue of failed upload attempts.

pub mod codec;
pub mod meta;
pub mod store;

pub use meta::Checksum;
pub use meta::Compression;
pub use meta::Encryption;
pub use meta::FailureMeta;
pub use meta::Key;
pub use meta::MetaData;
pub use meta::ShardInfo;
pub use meta::SymmetricKey;
pub use meta::ZdbConnectionInfo;
pub use meta::CHECKSUM_LENGTH;
pub use meta::KEY_LENGTH;
