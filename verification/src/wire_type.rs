//! Wire types: the 3-bit discriminant carried in every field header.

use crate::error::{Element, Error};
use vstd::prelude::*;

verus! {

/// Wire type identifiers for the format's value kinds.
///
/// Every 3-bit pattern maps to exactly one variant, so decoding a masked
/// code can never fail.
#[derive(Clone, Copy, Debug, PartialEq, Eq, PartialOrd, Ord)]
pub enum WireType {
    /// False (boolean)
    False,

    /// True (boolean)
    True,

    /// 64-bit unsigned integer
    UInt64,

    /// 64-bit (zigzag) signed integer
    SInt64,

    /// Binary data
    Bytes,

    /// Unicode string
    String,

    /// Nested message
    Message,

    /// Sequence
    Sequence,
}

/// The 3-bit code of a wire type.
pub open spec fn wire_code(w: WireType) -> u64 {
    match w {
        WireType::False => 0,
        WireType::True => 1,
        WireType::UInt64 => 2,
        WireType::SInt64 => 3,
        WireType::Bytes => 4,
        WireType::String => 5,
        WireType::Message => 6,
        WireType::Sequence => 7,
    }
}

/// The wire type selected by the low 3 bits of a value.
pub open spec fn wire_type_of(value: u64) -> WireType {
    let code = value % 8;
    if code == 0 {
        WireType::False
    } else if code == 1 {
        WireType::True
    } else if code == 2 {
        WireType::UInt64
    } else if code == 3 {
        WireType::SInt64
    } else if code == 4 {
        WireType::Bytes
    } else if code == 5 {
        WireType::String
    } else if code == 6 {
        WireType::Message
    } else {
        WireType::Sequence
    }
}

/// A wire type is dynamically sized exactly when a length-prefixed
/// payload follows its header.
pub open spec fn spec_dynamically_sized(w: WireType) -> bool {
    w is Bytes || w is String || w is Message || w is Sequence
}

impl WireType {
    /// Decode a [`WireType`] from an unmasked u64: the low 3 bits pick
    /// the variant, so the conversion is total.
    pub fn from_unmasked(value: u64) -> (r: Self)
        ensures
            r == wire_type_of(value),
    {
        let code = value % 8;
        if code == 0 {
            WireType::False
        } else if code == 1 {
            WireType::True
        } else if code == 2 {
            WireType::UInt64
        } else if code == 3 {
            WireType::SInt64
        } else if code == 4 {
            WireType::Bytes
        } else if code == 5 {
            WireType::String
        } else if code == 6 {
            WireType::Message
        } else {
            WireType::Sequence
        }
    }

    /// Strict conversion over the full 64-bit domain: succeeds exactly on
    /// the valid codes 0..=7 and rejects everything above.
    pub fn try_from(encoded: u64) -> (r: Result<Self, Error>)
        ensures
            encoded <= 7 ==> r == Ok::<WireType, Error>(wire_type_of(encoded)),
            encoded > 7 ==> r == Err::<WireType, Error>(Error::InvalidWireType),
    {
        if encoded == 0 {
            Ok(WireType::False)
        } else if encoded == 1 {
            Ok(WireType::True)
        } else if encoded == 2 {
            Ok(WireType::UInt64)
        } else if encoded == 3 {
            Ok(WireType::SInt64)
        } else if encoded == 4 {
            Ok(WireType::Bytes)
        } else if encoded == 5 {
            Ok(WireType::String)
        } else if encoded == 6 {
            Ok(WireType::Message)
        } else if encoded == 7 {
            Ok(WireType::Sequence)
        } else {
            Err(Error::InvalidWireType)
        }
    }

    /// Is this a dynamically-sized [`WireType`]?
    pub fn is_dynamically_sized(self) -> (r: bool)
        ensures
            r == spec_dynamically_sized(self),
    {
        match self {
            WireType::Bytes | WireType::String | WireType::Message | WireType::Sequence => true,
            _ => false,
        }
    }

    /// Convert a [`WireType`] to its canonical byte representation.
    pub fn to_u8(self) -> (r: u8)
        ensures
            r == wire_code(self),
    {
        match self {
            WireType::False => 0,
            WireType::True => 1,
            WireType::UInt64 => 2,
            WireType::SInt64 => 3,
            WireType::Bytes => 4,
            WireType::String => 5,
            WireType::Message => 6,
            WireType::Sequence => 7,
        }
    }

    /// Create a decoding error for this wire type, for value-level
    /// decoders that discover a type mismatch.
    pub fn decoding_error(self) -> (r: Error)
        ensures
            r == (Error::Decode { element: Element::Value, wire_type: Some(self) }),
    {
        Error::Decode { element: Element::Value, wire_type: Some(self) }
    }
}

/// Decoding a masked 3-bit code and re-encoding it is the identity: for
/// every `value`, the code of `wire_type_of(value)` is `value % 8`, so in
/// particular every code in 0..=7 round-trips exactly.
pub proof fn lemma_wire_type_total(value: u64)
    ensures
        wire_code(wire_type_of(value)) == value % 8,
        wire_type_of(wire_code(wire_type_of(value))) == wire_type_of(value),
{
}

} // verus!
