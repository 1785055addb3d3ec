//! A verified decoder for Bencode, the serialization format used by
//! BitTorrent metainfo files.
//!
//! The decoder turns a raw byte buffer into a tree of [`Bencode`] values:
//! dictionaries keyed by UTF-8 strings, ordered lists, signed integers and
//! raw byte strings.  The meaning of every byte of input is pinned down by
//! the specification-level decoder in [`model`], and [`Parser::parse`] is
//! proved to return exactly what that model prescribes.

pub mod laws;
pub mod model;
pub mod parser;
pub mod value;

pub use parser::Parser;
pub use value::Bencode;
pub use value::DecodeError;
