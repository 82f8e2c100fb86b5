use vstd::prelude::*;

verus! {

/// The library's error type. Every variant carries a diagnostic message as
/// plain text; no variant wraps a foreign error value, so contracts can pin
/// the message down exactly.
#[derive(Debug, Clone, PartialEq, Eq)]
pub enum RustVaultError {
    /// An input/output failure reported by the surrounding runtime.
    Io(String),
    /// A write-ahead-log record could not be encoded or decoded.
    Serialization(String),
    /// A request line did not follow the wire protocol.
    Protocol(String),
    /// A key was looked up and is absent.
    KeyNotFound(String),
    /// A command was recognized but cannot be executed.
    InvalidCommand(String),
    /// A failure on the server side of a connection.
    Server(String),
    /// A failure on the client side of a connection.
    Client(String),
    /// The write-ahead log is unreadable or holds a malformed record.
    Wal(String),
}

} // verus!
