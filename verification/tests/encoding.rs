use ntex_bytes::{Bytes, BytesMut};
use ntex_grpc::encoding::{
    check_wire_type, decode_key, decode_varint, encode_key, encode_varint, encoded_len_varint,
    key_len, skip_field, DecodeError, WireType,
};

fn encoded(value: u64) -> Vec<u8> {
    let mut buf = BytesMut::new();
    encode_varint(value, &mut buf);
    buf.to_vec()
}

#[test]
fn varint_encodes_known_values() {
    assert_eq!(encoded(0), vec![0x00]);
    assert_eq!(encoded(1), vec![0x01]);
    assert_eq!(encoded(127), vec![0x7F]);
    assert_eq!(encoded(128), vec![0x80, 0x01]);
    assert_eq!(encoded(300), vec![0xAC, 0x02]);
    assert_eq!(
        encoded(u64::MAX),
        vec![0xFF, 0xFF, 0xFF, 0xFF, 0xFF, 0xFF, 0xFF, 0xFF, 0xFF, 0x01]
    );
}

#[test]
fn varint_round_trip_and_length() {
    let mut values = vec![0u64, 1, 2, 127, 128, 255, 256, 300, 16383, 16384, u64::MAX];
    for shift in 0..64 {
        values.push(1u64 << shift);
        values.push((1u64 << shift) - 1);
        values.push((1u64 << shift) + 1);
    }
    for value in values {
        let bytes = encoded(value);
        assert_eq!(bytes.len(), encoded_len_varint(value));
        assert!((1..=10).contains(&bytes.len()));
        let mut buf = Bytes::from(bytes.clone());
        assert_eq!(decode_varint(&mut buf), Ok(value));
        assert!(buf.is_empty());
        // the slow path: the input ends with the varint and is short
        let mut tail = bytes.clone();
        tail.extend_from_slice(&[0x80]);
        let mut buf = Bytes::from(tail);
        if bytes.len() < 10 {
            assert_eq!(decode_varint(&mut buf), Ok(value));
            assert_eq!(&buf[..], &[0x80]);
        }
        // the fast path: more than ten bytes
        let mut long = bytes.clone();
        long.extend_from_slice(&[7; 12]);
        let mut buf = Bytes::from(long);
        assert_eq!(decode_varint(&mut buf), Ok(value));
        assert_eq!(&buf[..], &[7; 12]);
    }
}

#[test]
fn encoded_len_varint_exact_values() {
    assert_eq!(encoded_len_varint(0), 1);
    assert_eq!(encoded_len_varint(127), 1);
    assert_eq!(encoded_len_varint(128), 2);
    assert_eq!(encoded_len_varint(16383), 2);
    assert_eq!(encoded_len_varint(16384), 3);
    assert_eq!(encoded_len_varint((1 << 63) - 1), 9);
    assert_eq!(encoded_len_varint(1 << 63), 10);
    assert_eq!(encoded_len_varint(u64::MAX), 10);
}

#[test]
fn varint_rejects_malformed_input() {
    let invalid = DecodeError::new("invalid varint");
    // no input at all
    let mut buf = Bytes::new();
    assert_eq!(decode_varint(&mut buf), Err(invalid.clone()));
    // the input gives out
    let mut buf = Bytes::from(vec![0x80, 0x80]);
    assert_eq!(decode_varint(&mut buf), Err(invalid.clone()));
    assert!(buf.is_empty());
    // a tenth byte that overflows 64 bits
    let mut bytes = vec![0xFF; 9];
    bytes.push(0x02);
    let mut buf = Bytes::from(bytes.clone());
    assert_eq!(decode_varint(&mut buf), Err(invalid.clone()));
    assert_eq!(&buf[..], &bytes[..]);
    // more than ten bytes
    let mut buf = Bytes::from(vec![0x80; 11]);
    assert_eq!(decode_varint(&mut buf), Err(invalid.clone()));
    assert_eq!(buf.len(), 11);
    // ten bytes, all of which announce a successor
    let mut buf = Bytes::from(vec![0x80; 10]);
    assert_eq!(decode_varint(&mut buf), Err(invalid));
    assert!(buf.is_empty());
}

#[test]
fn varint_accepts_padded_zero() {
    let mut buf = Bytes::from(vec![0x80, 0x00, 0x05]);
    assert_eq!(decode_varint(&mut buf), Ok(0));
    assert_eq!(&buf[..], &[0x05]);
}

#[test]
fn key_round_trip() {
    let types = [
        WireType::Varint,
        WireType::SixtyFourBit,
        WireType::LengthDelimited,
        WireType::StartGroup,
        WireType::EndGroup,
        WireType::ThirtyTwoBit,
    ];
    for tag in [1u32, 2, 15, 16, 99, 2047, 2048, (1 << 29) - 1] {
        for wire_type in types {
            let mut buf = BytesMut::new();
            encode_key(tag, wire_type, &mut buf);
            assert_eq!(buf.len(), key_len(tag));
            let mut buf = buf.freeze();
            assert_eq!(decode_key(&mut buf), Ok((tag, wire_type)));
            assert!(buf.is_empty());
        }
    }
}

#[test]
fn key_exact_bytes() {
    let mut buf = BytesMut::new();
    encode_key(1, WireType::LengthDelimited, &mut buf);
    assert_eq!(&buf[..], &[0x0A]);
    let mut buf = BytesMut::new();
    encode_key(99, WireType::LengthDelimited, &mut buf);
    assert_eq!(&buf[..], &[0x9A, 0x06]);
    assert_eq!(key_len(1), 1);
    assert_eq!(key_len(15), 1);
    assert_eq!(key_len(16), 2);
    assert_eq!(key_len((1 << 29) - 1), 5);
}

#[test]
fn key_rejects_malformed_input() {
    let mut buf = Bytes::from(vec![0x00]);
    assert_eq!(decode_key(&mut buf), Err(DecodeError::new("invalid tag value: 0")));
    let mut buf = Bytes::from(vec![0x0E]);
    assert_eq!(decode_key(&mut buf), Err(DecodeError::new("invalid wire type value: 6")));
    let mut buf = Bytes::from(vec![0x0F]);
    assert_eq!(decode_key(&mut buf), Err(DecodeError::new("invalid wire type value: 7")));
    // 2^32 as a varint
    let mut buf = Bytes::from(vec![0x80, 0x80, 0x80, 0x80, 0x10]);
    assert_eq!(decode_key(&mut buf), Err(DecodeError::new("invalid key value: 4294967296")));
    let mut buf = Bytes::new();
    assert_eq!(decode_key(&mut buf), Err(DecodeError::new("invalid varint")));
}

#[test]
fn wire_type_from_number() {
    assert_eq!(WireType::try_from(0), Ok(WireType::Varint));
    assert_eq!(WireType::try_from(1), Ok(WireType::SixtyFourBit));
    assert_eq!(WireType::try_from(2), Ok(WireType::LengthDelimited));
    assert_eq!(WireType::try_from(3), Ok(WireType::StartGroup));
    assert_eq!(WireType::try_from(4), Ok(WireType::EndGroup));
    assert_eq!(WireType::try_from(5), Ok(WireType::ThirtyTwoBit));
    assert_eq!(
        WireType::try_from(6),
        Err(DecodeError::new("invalid wire type value: 6"))
    );
    assert_eq!(
        WireType::try_from(1234567),
        Err(DecodeError::new("invalid wire type value: 1234567"))
    );
}

#[test]
fn check_wire_type_names_both() {
    assert_eq!(check_wire_type(WireType::Varint, WireType::Varint), Ok(()));
    assert_eq!(
        check_wire_type(WireType::Varint, WireType::LengthDelimited),
        Err(DecodeError::new("invalid wire type: LengthDelimited (expected Varint)"))
    );
    assert_eq!(
        check_wire_type(WireType::ThirtyTwoBit, WireType::SixtyFourBit),
        Err(DecodeError::new("invalid wire type: SixtyFourBit (expected ThirtyTwoBit)"))
    );
}

#[test]
fn skip_field_by_wire_type() {
    // varint
    let mut buf = Bytes::from(vec![0xAC, 0x02, 0x09]);
    assert_eq!(skip_field(WireType::Varint, 1, &mut buf), Ok(()));
    assert_eq!(&buf[..], &[0x09]);
    // 32 and 64 bits
    let mut buf = Bytes::from(vec![1, 2, 3, 4, 5]);
    assert_eq!(skip_field(WireType::ThirtyTwoBit, 1, &mut buf), Ok(()));
    assert_eq!(&buf[..], &[5]);
    let mut buf = Bytes::from(vec![1, 2, 3, 4, 5, 6, 7, 8, 9]);
    assert_eq!(skip_field(WireType::SixtyFourBit, 1, &mut buf), Ok(()));
    assert_eq!(&buf[..], &[9]);
    // length-delimited
    let mut buf = Bytes::from(vec![3, b'a', b'b', b'c', 0x55]);
    assert_eq!(skip_field(WireType::LengthDelimited, 1, &mut buf), Ok(()));
    assert_eq!(&buf[..], &[0x55]);
}

#[test]
fn skip_field_group() {
    // group 3 { field 1 varint 5; group 4 { field 2: "x" } } then 0x77
    let bytes = vec![
        0x08, 0x05, // field 1, varint 5
        0x23, // start group 4
        0x12, 0x01, b'x', // field 2, "x"
        0x24, // end group 4
        0x1C, // end group 3
        0x77,
    ];
    let mut buf = Bytes::from(bytes);
    assert_eq!(skip_field(WireType::StartGroup, 3, &mut buf), Ok(()));
    assert_eq!(&buf[..], &[0x77]);
}

#[test]
fn skip_field_rejects_malformed_input() {
    let incomplete = DecodeError::new("Not enough data");
    let mut buf = Bytes::from(vec![1, 2, 3]);
    assert_eq!(skip_field(WireType::ThirtyTwoBit, 1, &mut buf), Err(incomplete.clone()));
    let mut buf = Bytes::from(vec![1, 2, 3, 4, 5, 6, 7]);
    assert_eq!(skip_field(WireType::SixtyFourBit, 1, &mut buf), Err(incomplete.clone()));
    let mut buf = Bytes::from(vec![5, b'a', b'b']);
    assert_eq!(skip_field(WireType::LengthDelimited, 1, &mut buf), Err(incomplete));
    let end_group = DecodeError::new("unexpected end group tag");
    let mut buf = Bytes::from(vec![1, 2, 3]);
    assert_eq!(skip_field(WireType::EndGroup, 1, &mut buf), Err(end_group.clone()));
    // a group that is closed under another number
    let mut buf = Bytes::from(vec![0x08, 0x05, 0x24]);
    assert_eq!(skip_field(WireType::StartGroup, 3, &mut buf), Err(end_group));
    // a group that is never closed
    let mut buf = Bytes::from(vec![0x08, 0x05]);
    assert_eq!(
        skip_field(WireType::StartGroup, 3, &mut buf),
        Err(DecodeError::new("invalid varint"))
    );
    let mut buf = Bytes::from(vec![0x80]);
    assert_eq!(
        skip_field(WireType::Varint, 3, &mut buf),
        Err(DecodeError::new("invalid varint"))
    );
}

#[test]
fn decode_error_message() {
    let err = DecodeError::new("invalid varint");
    assert_eq!(err.to_string(), "failed to decode Protobuf message: invalid varint");
    assert_eq!(err.describe(), "invalid varint");
    let err = err.push("Inner", "value").push("Outer", "inner");
    assert_eq!(
        err.to_string(),
        "failed to decode Protobuf message: Inner.value: Outer.inner: invalid varint"
    );
    assert_eq!(
        DecodeError::incomplete().to_string(),
        "failed to decode Protobuf message: Not enough data"
    );
}
