//! Field headers: a tag and a wire type packed into one header value.

use crate::wire_type::{wire_code, wire_type_of, WireType};
use vstd::arithmetic::div_mod::lemma_fundamental_div_mod_converse;
use vstd::prelude::*;

verus! {

/// Field identifier: unsigned, and strictly increasing across the fields
/// of one message.
pub type Tag = u64;

/// The largest tag that fits beside the 3-bit wire-type code in a 64-bit
/// header value.
pub const MAX_TAG: u64 = 0x1FFF_FFFF_FFFF_FFFF;

/// A field header: the tag and wire type decoded from a single varint.
#[derive(Clone, Copy, Debug, PartialEq, Eq)]
pub struct Header {
    /// The field's tag
    pub tag: Tag,

    /// The wire type of the field's value
    pub wire_type: WireType,
}

/// The header described by a decoded header value: the low 3 bits are
/// the wire-type code, the remaining high bits the tag.
pub open spec fn header_of(value: u64) -> Header {
    Header { tag: value / 8, wire_type: wire_type_of(value) }
}

/// The header value that packs `tag` with the code of `w`.
pub open spec fn header_value(tag: Tag, w: WireType) -> u64
    recommends
        tag <= MAX_TAG,
{
    (tag * 8 + wire_code(w)) as u64
}

impl Header {
    /// Split a decoded header value into its tag and wire type.
    pub fn from_value(value: u64) -> (r: Header)
        ensures
            r == header_of(value),
    {
        Header { tag: value / 8, wire_type: WireType::from_unmasked(value) }
    }

    /// The header value whose decoding yields this header.
    pub fn to_value(&self) -> (r: u64)
        requires
            self.tag <= MAX_TAG,
        ensures
            r == header_value(self.tag, self.wire_type),
    {
        self.tag * 8 + (self.wire_type.to_u8() as u64)
    }
}

/// Packing any tag and wire type into a header value and splitting it
/// again reproduces the original pair exactly.
pub proof fn lemma_header_value_round_trip(tag: Tag, w: WireType)
    requires
        tag <= MAX_TAG,
    ensures
        header_of(header_value(tag, w)) == (Header { tag: tag, wire_type: w }),
{
    let c: int = wire_code(w) as int;
    let v: int = tag * 8 + c;
    assert(header_value(tag, w) == v);
    lemma_fundamental_div_mod_converse(v, 8, tag as int, c);
}

} // verus!
