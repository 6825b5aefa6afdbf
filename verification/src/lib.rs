//! A single-pass decoder for the Bencode serialization format, with a
//! pretty-printer for decoded values.
//!
//! [`decode`] reads the first value of a byte buffer and returns it with
//! the input that it did not read; [`render`] turns a value into indented
//! text. What decoding means is laid down in [`grammar`], and [`encoding`]
//! proves that it undoes the encoding of every value.

pub mod decoder;
pub mod dict;
pub mod encoding;
pub mod grammar;
pub mod properties;
pub mod render;
pub mod value;

pub use crate::decoder::{decode, decode_with_depth, DEFAULT_MAX_DEPTH};
pub use crate::dict::{dict_get, dict_insert};
pub use crate::grammar::DecodeError;
pub use crate::render::render;
pub use crate::value::BencodeObj;
