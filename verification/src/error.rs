//! Error types of the storage and index layers.
use vstd::prelude::*;

verus! {

/// A failure of the page store underneath a buffer pool.
#[derive(Debug)]
pub enum BufferError {
    /// The operating system reported an I/O failure; the payload is its message.
    Io(String),
}

/// A failure of a B+tree index operation.
#[derive(Debug)]
pub enum IndexError {
    /// The buffer pool failed.
    Buffer(BufferError),
    /// A node's bytes could not be encoded or decoded.
    Encoding(String),
    /// The entries do not fit in one page.
    NodeFull,
    /// The write-ahead log failed; the payload is its message.
    Wal(String),
}

} // verus!
