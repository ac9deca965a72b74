use veriform::error::{Element, Error};
use veriform::varint::{decoded_len, encode, Decoder};

fn decode_all(bytes: &[u8]) -> Result<Option<u64>, Error> {
    let mut decoder = Decoder::new();
    let mut input = bytes;
    decoder.decode(&mut input)
}

#[test]
fn encode_small_values() {
    assert_eq!(encode(0), vec![0x01]);
    assert_eq!(encode(5), vec![0x0B]);
    assert_eq!(encode(0x7F), vec![0xFF]);
}

#[test]
fn encode_two_bytes() {
    // 300 * 4 + 2 == 1202 == 0x04B2, little-endian
    assert_eq!(encode(300), vec![0xB2, 0x04]);
    assert_eq!(encode(0x80), vec![0x02, 0x02]);
}

#[test]
fn encode_nine_bytes() {
    assert_eq!(
        encode(u64::MAX),
        vec![0x00, 0xFF, 0xFF, 0xFF, 0xFF, 0xFF, 0xFF, 0xFF, 0xFF]
    );
}

#[test]
fn encoded_lengths_at_boundaries() {
    let cases: [(u64, usize); 10] = [
        (0, 1),
        (0x7F, 1),
        (0x80, 2),
        (0x3FFF, 2),
        (0x4000, 3),
        (0x1F_FFFF, 3),
        (0x20_0000, 4),
        (0xFF_FFFF_FFFF_FFFF, 8),
        (0x100_0000_0000_0000, 9),
        (u64::MAX, 9),
    ];
    for (value, len) in cases {
        let bytes = encode(value);
        assert_eq!(bytes.len(), len, "length for {value:#x}");
        assert_eq!(decoded_len(bytes[0]), len, "announced length for {value:#x}");
    }
}

#[test]
fn decode_round_trips_every_length() {
    let values: [u64; 12] = [
        0,
        1,
        5,
        0x7F,
        0x80,
        300,
        0x3FFF,
        0x4000,
        0x1234_5678,
        0xFF_FFFF_FFFF_FFFF,
        0x100_0000_0000_0000,
        u64::MAX,
    ];
    for value in values {
        let bytes = encode(value);
        assert_eq!(decode_all(&bytes), Ok(Some(value)), "round trip of {value:#x}");
    }
}

#[test]
fn decode_empty_input_needs_more() {
    let mut decoder = Decoder::new();
    let mut input: &[u8] = &[];
    assert_eq!(decoder.decode(&mut input), Ok(None));
}

#[test]
fn decode_byte_by_byte_resumes() {
    let bytes = encode(0x1234_5678);
    let mut decoder = Decoder::new();
    for (i, b) in bytes.iter().enumerate() {
        let chunk = [*b];
        let mut input: &[u8] = &chunk;
        let step = decoder.decode(&mut input).unwrap();
        assert!(input.is_empty());
        if i + 1 == bytes.len() {
            assert_eq!(step, Some(0x1234_5678));
        } else {
            assert_eq!(step, None, "value produced after {} bytes", i + 1);
        }
    }
}

#[test]
fn decode_leaves_trailing_bytes() {
    let mut bytes = encode(300);
    bytes.extend_from_slice(&[0xAA, 0xBB]);
    let mut decoder = Decoder::new();
    let mut input: &[u8] = &bytes;
    assert_eq!(decoder.decode(&mut input), Ok(Some(300)));
    assert_eq!(input, &[0xAA, 0xBB]);
}

#[test]
fn decode_rejects_overlong_encoding() {
    // 5 padded into a two-byte encoding: 5 * 4 + 2 == 22, bytes [22, 0]
    let result = decode_all(&[22, 0]);
    assert_eq!(
        result,
        Err(Error::Decode { element: Element::Tag, wire_type: None })
    );
}

#[test]
fn decode_rejects_small_value_in_nine_bytes() {
    // 1 spelled with a zero length prefix and eight payload bytes
    let result = decode_all(&[0x00, 0x01, 0, 0, 0, 0, 0, 0, 0]);
    assert_eq!(
        result,
        Err(Error::Decode { element: Element::Tag, wire_type: None })
    );
}
