use veriform::error::{Element, Error};
use veriform::wire_type::WireType;

const ALL: [WireType; 8] = [
    WireType::False,
    WireType::True,
    WireType::UInt64,
    WireType::SInt64,
    WireType::Bytes,
    WireType::String,
    WireType::Message,
    WireType::Sequence,
];

#[test]
fn from_unmasked_is_total_on_codes() {
    for v in 0u64..=7 {
        let w = WireType::from_unmasked(v);
        assert_eq!(w.to_u8() as u64, v);
    }
}

#[test]
fn from_unmasked_masks_high_bits() {
    for v in 8u64..=64 {
        let w = WireType::from_unmasked(v);
        assert_eq!(w.to_u8() as u64, v & 0b111);
    }
    assert_eq!(WireType::from_unmasked(u64::MAX).to_u8(), 7);
    assert_eq!(WireType::from_unmasked(1 << 63).to_u8(), 0);
}

#[test]
fn from_unmasked_variants() {
    assert_eq!(WireType::from_unmasked(0), WireType::False);
    assert_eq!(WireType::from_unmasked(1), WireType::True);
    assert_eq!(WireType::from_unmasked(2), WireType::UInt64);
    assert_eq!(WireType::from_unmasked(3), WireType::SInt64);
    assert_eq!(WireType::from_unmasked(4), WireType::Bytes);
    assert_eq!(WireType::from_unmasked(5), WireType::String);
    assert_eq!(WireType::from_unmasked(6), WireType::Message);
    assert_eq!(WireType::from_unmasked(7), WireType::Sequence);
}

#[test]
fn try_from_succeeds_on_valid_codes() {
    for v in 0u64..=7 {
        let w = WireType::try_from(v).unwrap();
        assert_eq!(w.to_u8() as u64, v);
    }
}

#[test]
fn try_from_rejects_out_of_range() {
    for v in [8u64, 9, 63, 256, 1 << 40, u64::MAX] {
        assert_eq!(WireType::try_from(v), Err(Error::InvalidWireType));
    }
}

#[test]
fn dynamically_sized_classification() {
    for w in ALL {
        let expected = matches!(
            w,
            WireType::Bytes | WireType::String | WireType::Message | WireType::Sequence
        );
        assert_eq!(w.is_dynamically_sized(), expected);
    }
}

#[test]
fn to_u8_round_trips_through_from_unmasked() {
    for w in ALL {
        assert_eq!(WireType::from_unmasked(w.to_u8() as u64), w);
    }
}

#[test]
fn decoding_error_carries_wire_type_and_value_element() {
    for w in ALL {
        let e = w.decoding_error();
        assert_eq!(
            e,
            Error::Decode { element: Element::Value, wire_type: Some(w) }
        );
    }
}
