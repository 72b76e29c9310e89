//! A verified decoder for the Bencode serialization format.
//!
//! Bencode (the format of BitTorrent metainfo files) has four value kinds:
//! byte strings, integers, lists and dictionaries.  This crate decodes a byte
//! buffer into a tree of values without copying byte-string payloads: a
//! payload is kept as a span (offset and length) into the caller's buffer.
//!
//! The grammar itself is written down twice: once as mathematical functions
//! over byte sequences (`grammar`), and once as executable code (`decode`)
//! whose contracts state that it returns exactly what the mathematical
//! grammar denotes, error taxonomy included.

pub mod decode;
pub mod grammar;
pub mod laws;
pub mod model;
pub mod value;
