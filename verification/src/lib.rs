//! A decoder for bencode, the serialization format of torrent metadata files.
//!
//! The format knows four shapes of value: signed integers (`i42e`), byte
//! strings (`4:spam`), lists (`l...e`) and dictionaries keyed by byte strings
//! (`d...e`).  [`bdecode::parse`] reads one value from the front of a byte
//! slice and hands back the value together with the bytes it did not use.
//!
//! Every executable function is verified against the grammar in
//! [`grammar`], a mathematical description of the format over sequences of
//! bytes.  [`encoding`] proves that whatever a conformant encoder writes is
//! read back unchanged, and [`equality`] that the equality of values is an
//! equivalence.
pub mod error;
pub mod model;
pub mod grammar;
mod text;
pub mod bdecode;
pub mod encoding;
pub mod equality;
