//! Decoder for NBT ("Named Binary Tag"), a binary format for trees of named, tagged
//! values.
//!
//! [`decode::parse`] turns the bytes of a stream, already decompressed, into a [`Value`]:
//! the root record with everything below it, or the error on which decoding stopped.
//! Nothing is decoded in part and nothing is skipped.
//!
//! What decoding yields is stated over a mathematical model of the tree, [`Tree`], by
//! the functions in [`grammar`]. The modules [`encode`], [`laws`], [`shape`] and
//! [`truncation`] hold what is proved of the grammar: that decoding undoes encoding, what
//! a reader makes of the special forms of lists and of unknown tags, that what is decoded
//! keeps to the data model, and that a stream that breaks off inside a value never
//! decodes to something else.
//!
//! The decoder descends one level of calls for each level to which lists and records
//! nest. So that no input makes it exhaust the stack, it descends no deeper than a
//! bound, [`decode::MAX_DEPTH`] unless the caller gives another, and stops with
//! [`decode::DecodeError::TooDeep`] where the input goes deeper.
pub mod access;
pub mod decode;
pub mod encode;
pub mod equality;
pub mod error;
pub mod grammar;
pub mod laws;
pub mod shape;
pub mod text;
pub mod truncation;
pub mod value;

pub use error::Error;
pub use value::{Compound, Tree, Value};
