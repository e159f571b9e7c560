//! Reader for the "pak" archive container: a little-endian entry table
//! followed by per-entry payloads that are stored raw or zlib-compressed.
//!
//! `format` gives the byte-level model of the container and the verified
//! helpers that read it; `archive` holds the decoded index and the
//! extraction engine.

pub mod archive;
pub mod format;

pub use archive::{Archive, DecodeError, Entry, ExtractError};
