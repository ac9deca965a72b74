//! Error types for the decoder core.

use crate::wire_type::WireType;
use vstd::prelude::*;

verus! {

/// Part of a field that a decoding error refers to.
#[derive(Clone, Copy, Debug, PartialEq, Eq)]
pub enum Element {
    /// The field-header varint (tag and wire type combined)
    Tag,

    /// A field's value
    Value,
}

/// Errors produced while decoding.
///
/// Insufficient input is never an error: it is reported as an
/// `Ok((state, None))` decode outcome instead.
#[derive(Clone, Copy, Debug, PartialEq, Eq)]
pub enum Error {
    /// A value's byte encoding is structurally invalid: a malformed or
    /// non-canonical varint, or a wire-type/value mismatch reported by a
    /// value-level decoder. The wire type is present when it is known at
    /// the point of failure.
    Decode { element: Element, wire_type: Option<WireType> },

    /// A strictly validated wire-type code lies outside the range 0..=7.
    InvalidWireType,

    /// A field's tag is not strictly greater than the previous field's
    /// tag within the same message scope; carries the offending tag.
    Order { tag: u64 },
}

} // verus!
