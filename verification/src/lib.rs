//! Line-aligned chunking of a byte stream.
//!
//! Given a source of bytes and a destination buffer of fixed capacity, the
//! chunkers in this crate produce successive chunks such that no chunk
//! boundary falls in the middle of a delimited record: bytes after the last
//! delimiter of a read are carried over into the next chunk.

pub mod search;
pub mod gz;
pub mod gzcsv_core;
pub mod gzeus;
pub mod session;
pub mod source;
