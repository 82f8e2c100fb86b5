//! A persistent key-value store built from verified parts: a line-oriented
//! wire-protocol codec, an in-memory keyspace with exact contracts, and a
//! write-ahead log with replay and compaction proven equivalent to the
//! keyspace they reproduce.

pub mod client;
pub mod error;
pub mod json;
pub mod protocol;
pub mod server;
pub mod store;
pub mod text;
pub mod wal;

pub use error::RustVaultError;
pub use protocol::{Command, Response};
pub use server::ServerConfig;
pub use store::{MemoryStore, Store};
pub use wal::WalEntry;
