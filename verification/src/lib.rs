//! Incremental decoder core for a self-describing binary message format.
//!
//! Every field of a message starts with a header: a single prefix-length
//! varint whose low 3 bits select a [`wire_type::WireType`] and whose
//! remaining bits are the field's tag. Tags must be strictly increasing
//! within one message, which gives each message a single canonical byte
//! representation.
//!
//! Decoding is resumable: input may arrive in chunks of any size, and a
//! decoder returned without an event simply holds its partial progress
//! until more bytes are supplied.

pub mod decoder;
pub mod error;
pub mod field;
pub mod varint;
pub mod wire_type;
