use veriform::decoder::{Decoder, Event, State};
use veriform::error::Error;
use veriform::field::{Header, MAX_TAG};
use veriform::varint::encode;
use veriform::wire_type::WireType;

fn header_bytes(tag: u64, wire_type: WireType) -> Vec<u8> {
    let header = Header { tag, wire_type };
    encode(header.to_value())
}

fn decode_header(bytes: &[u8], last_tag: Option<u64>) -> Result<(State, Option<Event>), Error> {
    let mut input = bytes;
    let result = Decoder::new().decode(&mut input, last_tag);
    assert!(input.is_empty());
    result
}

#[test]
fn decodes_a_simple_header() {
    // tag 1, UInt64: header value 10, one varint byte 10 * 2 + 1
    let bytes = header_bytes(1, WireType::UInt64);
    assert_eq!(bytes, vec![0x15]);
    let (state, event) = decode_header(&bytes, None).unwrap();
    assert_eq!(
        event,
        Some(Event::FieldHeader(Header { tag: 1, wire_type: WireType::UInt64 }))
    );
    assert!(matches!(state, State::Value(WireType::UInt64)));
}

#[test]
fn round_trips_tag_and_wire_type() {
    let tags: [u64; 7] = [0, 1, 5, 42, 0x3FFF, 0x1234_5678, MAX_TAG];
    let types: [WireType; 4] =
        [WireType::False, WireType::SInt64, WireType::String, WireType::Sequence];
    for &tag in &tags {
        for &wire_type in &types {
            let bytes = header_bytes(tag, wire_type);
            let (_, event) = decode_header(&bytes, None).unwrap();
            assert_eq!(event, Some(Event::FieldHeader(Header { tag, wire_type })));
        }
    }
}

#[test]
fn resumes_across_any_split() {
    let tag: u64 = 0x1234_5678;
    let wire_type = WireType::Bytes;
    let bytes = header_bytes(tag, wire_type);
    assert!(bytes.len() > 1);
    for split in 0..=bytes.len() {
        let (first, second) = bytes.split_at(split);
        let mut input = first;
        let (state, event) = Decoder::new().decode(&mut input, None).unwrap();
        if split == bytes.len() {
            assert_eq!(event, Some(Event::FieldHeader(Header { tag, wire_type })));
            continue;
        }
        assert_eq!(event, None, "event before the header completed, split {split}");
        assert!(input.is_empty());
        let decoder = match state {
            State::Header(decoder) => decoder,
            State::Value(_) => panic!("left header state early, split {split}"),
        };
        let mut rest = second;
        let (_, event) = decoder.decode(&mut rest, None).unwrap();
        assert!(rest.is_empty());
        assert_eq!(
            event,
            Some(Event::FieldHeader(Header { tag, wire_type })),
            "split {split}"
        );
    }
}

#[test]
fn rejects_equal_tag() {
    let bytes = header_bytes(5, WireType::String);
    let result = decode_header(&bytes, Some(5));
    assert_eq!(result.unwrap_err(), Error::Order { tag: 5 });
}

#[test]
fn rejects_decreasing_tag() {
    let bytes = header_bytes(3, WireType::UInt64);
    let result = decode_header(&bytes, Some(7));
    assert_eq!(result.unwrap_err(), Error::Order { tag: 3 });
}

#[test]
fn accepts_strictly_increasing_tags() {
    let mut last_tag = None;
    for tag in [1u64, 2, 5, 100, 0x8000, MAX_TAG] {
        let bytes = header_bytes(tag, WireType::UInt64);
        let (_, event) = decode_header(&bytes, last_tag).unwrap();
        assert_eq!(
            event,
            Some(Event::FieldHeader(Header { tag, wire_type: WireType::UInt64 }))
        );
        last_tag = Some(tag);
    }
}

#[test]
fn three_headers_scenario() {
    // tag 1 / UInt64, then tag 5 / Bytes, then tag 5 / String
    let first = header_bytes(1, WireType::UInt64);
    let (_, event) = decode_header(&first, None).unwrap();
    assert_eq!(
        event,
        Some(Event::FieldHeader(Header { tag: 1, wire_type: WireType::UInt64 }))
    );

    let second = header_bytes(5, WireType::Bytes);
    let (_, event) = decode_header(&second, Some(1)).unwrap();
    assert_eq!(
        event,
        Some(Event::FieldHeader(Header { tag: 5, wire_type: WireType::Bytes }))
    );

    let third = header_bytes(5, WireType::String);
    let result = decode_header(&third, Some(5));
    assert_eq!(result.unwrap_err(), Error::Order { tag: 5 });
}

#[test]
fn needs_more_input_on_empty_slice() {
    let mut input: &[u8] = &[];
    let (state, event) = Decoder::new().decode(&mut input, None).unwrap();
    assert_eq!(event, None);
    assert!(matches!(state, State::Header(_)));
}

#[test]
fn consumes_only_the_header() {
    let mut bytes = header_bytes(9, WireType::Message);
    bytes.extend_from_slice(&[0x55, 0x66]);
    let mut input: &[u8] = &bytes;
    let (state, event) = Decoder::new().decode(&mut input, None).unwrap();
    assert_eq!(
        event,
        Some(Event::FieldHeader(Header { tag: 9, wire_type: WireType::Message }))
    );
    assert!(matches!(state, State::Value(WireType::Message)));
    assert_eq!(input, &[0x55, 0x66]);
}

#[test]
fn transition_hands_over_to_the_value_decoder() {
    let event = Event::FieldHeader(Header { tag: 2, wire_type: WireType::Bytes });
    assert!(matches!(State::transition(&event), State::Value(WireType::Bytes)));
}
