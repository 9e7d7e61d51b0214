//! Zero-copy decoder for the Redis serialization protocol.
//!
//! A buffer of bytes is decoded into a value whose byte strings are slices
//! of that buffer, together with the bytes that follow the value, so that
//! a stream of frames can be decoded one after the other.
//!
//! - [`value`] holds the decoded value and its mathematical content.
//! - [`error`] holds the failures.
//! - [`grammar`] says, on sequences of bytes, what every input decodes to.
//! - [`parser`] is the executable decoder, proved to compute what the
//!   grammar says.
//! - [`encoding`] says which bytes stand for a content.
//! - [`laws`] proves what holds of the grammar for every input.

pub mod encoding;
pub mod error;
pub mod grammar;
pub mod laws;
pub mod parser;
pub mod value;

pub use error::NumericError;
pub use error::RError;
pub use parser::RedisProtocolParser;
pub use value::Content;
pub use value::RESP;
