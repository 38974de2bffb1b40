use ntex_bytes::{Bytes, BytesMut};
use ntex_grpc::encoding::{decode_key, DecodeError, WireType};
use ntex_grpc::properties::Properties;
use ntex_grpc::types::{DefaultValue, Fixed32, Fixed64, MapField, Message, NativeType};
use ntex_grpc::ByteString;

fn field<T: NativeType>(value: &T, tag: u32, default: DefaultValue<&T>) -> Vec<u8> {
    let mut buf = BytesMut::new();
    value.serialize(tag, default, &mut buf);
    buf.to_vec()
}

fn read_field<T: NativeType>(bytes: &[u8]) -> (T, Vec<u8>) {
    let mut buf = Bytes::copy_from_slice(bytes);
    let (tag, wire_type) = decode_key(&mut buf).unwrap();
    let value = T::deserialize_default(tag, wire_type, &mut buf).unwrap();
    (value, buf.to_vec())
}

#[test]
fn test_hashmap_default_values() {
    let mut msg = Properties::default();

    msg.b = true;
    msg.props.insert("test1".to_string(), 1);
    msg.props.insert("test2".to_string(), 0);
    msg.props.insert("".to_string(), 0);

    let mut buf = BytesMut::new();
    msg.write(&mut buf);
    assert_eq!(Message::encoded_len(&msg), 24);
    assert_eq!(buf.len(), 24);

    let mut buf2 = BytesMut::new();
    msg.serialize(1, DefaultValue::Default, &mut buf2);
    assert_eq!(NativeType::encoded_len(&msg, 1), 26);
    assert_eq!(buf2.len(), 26);

    let msg2 = Properties::read(&mut buf.freeze()).unwrap();
    assert_eq!(Message::encoded_len(&msg2), 24);
    assert_eq!(msg, msg2);

    let mut buf2 = buf2.freeze();
    let mut msg3 = Properties::default();
    let (tag, wire_type) = decode_key(&mut buf2).unwrap();
    msg3.deserialize(tag, wire_type, &mut buf2).unwrap();
    assert_eq!(msg, msg3);
}

#[test]
fn scalar_fields_exact_bytes() {
    assert_eq!(field(&150u32, 1, DefaultValue::Default), vec![0x08, 0x96, 0x01]);
    assert_eq!(field(&true, 2, DefaultValue::Default), vec![0x10, 0x01]);
    assert_eq!(field(&1u64, 3, DefaultValue::Unknown), vec![0x18, 0x01]);
    assert_eq!(
        field(&-1i32, 1, DefaultValue::Default),
        vec![0x08, 0xFF, 0xFF, 0xFF, 0xFF, 0xFF, 0xFF, 0xFF, 0xFF, 0xFF, 0x01]
    );
    assert_eq!(
        field(&-2i64, 1, DefaultValue::Default),
        vec![0x08, 0xFE, 0xFF, 0xFF, 0xFF, 0xFF, 0xFF, 0xFF, 0xFF, 0xFF, 0x01]
    );
    assert_eq!(
        field(&"hi".to_string(), 2, DefaultValue::Default),
        vec![0x12, 0x02, b'h', b'i']
    );
    assert_eq!(
        field(&Bytes::from_static(b"\x00\xFF"), 2, DefaultValue::Default),
        vec![0x12, 0x02, 0x00, 0xFF]
    );
    assert_eq!(
        field(&vec![1u8, 2, 3], 4, DefaultValue::Default),
        vec![0x22, 0x03, 1, 2, 3]
    );
    assert_eq!(
        field(&ByteString::from_static("world"), 1, DefaultValue::Default),
        vec![0x0A, 0x05, 0x77, 0x6F, 0x72, 0x6C, 0x64]
    );
}

#[test]
fn default_values_are_left_out() {
    assert!(field(&0u32, 1, DefaultValue::Default).is_empty());
    assert!(field(&0u64, 1, DefaultValue::Default).is_empty());
    assert!(field(&0i32, 1, DefaultValue::Default).is_empty());
    assert!(field(&0i64, 1, DefaultValue::Default).is_empty());
    assert!(field(&false, 1, DefaultValue::Default).is_empty());
    assert!(field(&String::new(), 1, DefaultValue::Default).is_empty());
    assert!(field(&Bytes::new(), 1, DefaultValue::Default).is_empty());
    assert!(field(&ByteString::new(), 1, DefaultValue::Default).is_empty());
    assert!(field(&Vec::<u8>::new(), 1, DefaultValue::Default).is_empty());
    assert!(field(&Option::<u32>::None, 1, DefaultValue::Default).is_empty());
    assert!(field(&Vec::<u32>::new(), 1, DefaultValue::Default).is_empty());
    assert!(field(&Vec::<String>::new(), 1, DefaultValue::Default).is_empty());
    assert!(field(&MapField::<String, u32>::new(), 1, DefaultValue::Default).is_empty());
    // never under the policy that knows no default
    assert_eq!(field(&0u32, 1, DefaultValue::Unknown), vec![0x08, 0x00]);
    assert_eq!(field(&String::new(), 1, DefaultValue::Unknown), vec![0x0A, 0x00]);
    // and under a default of one's own
    assert!(field(&7u32, 1, DefaultValue::Value(&7)).is_empty());
    assert_eq!(field(&0u32, 1, DefaultValue::Value(&7)), vec![0x08, 0x00]);
    assert_eq!(0u32.serialized_len(1, DefaultValue::Default), 0);
    assert_eq!(0u32.serialized_len(1, DefaultValue::Unknown), 2);
    assert_eq!(7u32.serialized_len(1, DefaultValue::Value(&7)), 0);
    assert!(0u32.is_default() && !1u32.is_default());
    assert!(String::new().is_default() && !"x".to_string().is_default());
}

#[test]
fn scalar_fields_round_trip() {
    for value in [0u32, 1, 127, 128, u32::MAX] {
        let bytes = field(&value, 5, DefaultValue::Unknown);
        assert_eq!(bytes.len(), value.encoded_len(5));
        assert_eq!(read_field::<u32>(&bytes), (value, vec![]));
    }
    for value in [0u64, 1, u64::MAX] {
        let bytes = field(&value, 5, DefaultValue::Unknown);
        assert_eq!(bytes.len(), value.encoded_len(5));
        assert_eq!(read_field::<u64>(&bytes), (value, vec![]));
    }
    for value in [0i32, 1, -1, i32::MIN, i32::MAX] {
        let bytes = field(&value, 5, DefaultValue::Unknown);
        assert_eq!(bytes.len(), value.encoded_len(5));
        assert_eq!(read_field::<i32>(&bytes), (value, vec![]));
    }
    for value in [0i64, 1, -1, i64::MIN, i64::MAX] {
        let bytes = field(&value, 5, DefaultValue::Unknown);
        assert_eq!(bytes.len(), value.encoded_len(5));
        assert_eq!(read_field::<i64>(&bytes), (value, vec![]));
    }
    for value in [false, true] {
        let bytes = field(&value, 5, DefaultValue::Unknown);
        assert_eq!(read_field::<bool>(&bytes), (value, vec![]));
    }
    for value in ["", "hello", "héllo wörld ✓"] {
        let value = value.to_string();
        let mut bytes = field(&value, 5, DefaultValue::Unknown);
        assert_eq!(bytes.len(), value.encoded_len(5));
        bytes.push(0x33);
        assert_eq!(read_field::<String>(&bytes), (value, vec![0x33]));
    }
    let value = Bytes::from_static(b"\x00\x01\x02");
    let bytes = field(&value, 5, DefaultValue::Unknown);
    assert_eq!(read_field::<Bytes>(&bytes), (value, vec![]));
    let value = vec![9u8, 8, 7];
    let bytes = field(&value, 5, DefaultValue::Unknown);
    assert_eq!(read_field::<Vec<u8>>(&bytes), (value, vec![]));
    let value = ByteString::from_static("text");
    let bytes = field(&value, 5, DefaultValue::Unknown);
    assert_eq!(read_field::<ByteString>(&bytes), (value, vec![]));
}

#[test]
fn bool_reads_only_one_as_true() {
    assert_eq!(read_field::<bool>(&[0x08, 0x01]), (true, vec![]));
    assert_eq!(read_field::<bool>(&[0x08, 0x00]), (false, vec![]));
    assert_eq!(read_field::<bool>(&[0x08, 0x02]), (false, vec![]));
    assert_eq!(read_field::<bool>(&[0x08, 0x81, 0x01]), (false, vec![]));
    // a value that was true becomes false on any varint but 1
    let mut value = true;
    let mut buf = Bytes::from_static(&[0x02]);
    assert!(value.deserialize(1, WireType::Varint, &mut buf).is_ok());
    assert_eq!(value, false);
    assert!(buf.is_empty());
}

#[test]
fn a_wrong_wire_type_leaves_value_and_buffer() {
    let mut flag = true;
    let mut buf = Bytes::from_static(&[0x01, 0x02]);
    assert!(flag.deserialize(1, WireType::LengthDelimited, &mut buf).is_err());
    assert_eq!(flag, true);
    assert_eq!(buf.to_vec(), vec![0x01, 0x02]);

    let mut number = 7i64;
    let mut buf = Bytes::from_static(&[0x05]);
    assert!(number.deserialize(1, WireType::ThirtyTwoBit, &mut buf).is_err());
    assert_eq!(number, 7);
    assert_eq!(buf.to_vec(), vec![0x05]);

    let mut text = String::from("kept");
    let mut buf = Bytes::from_static(&[0x01, 0x41]);
    assert!(text.deserialize(1, WireType::Varint, &mut buf).is_err());
    assert_eq!(text, "kept");
    assert_eq!(buf.to_vec(), vec![0x01, 0x41]);

    let mut bits = Fixed32(9);
    let mut buf = Bytes::from_static(&[0x04, 1, 0, 0, 0]);
    assert!(bits.deserialize(1, WireType::Varint, &mut buf).is_err());
    assert_eq!(bits, Fixed32(9));
    assert_eq!(buf.len(), 5);

    let mut map: MapField<String, u32> = MapField::new();
    map.insert("a".to_string(), 1);
    let mut buf = Bytes::from_static(&[0x00]);
    assert!(map.deserialize(1, WireType::Varint, &mut buf).is_err());
    assert_eq!(map.len(), 1);
    assert_eq!(buf.len(), 1);
}

#[test]
fn refused_bytes_leave_the_value() {
    // a text keeps its value on bytes that are no UTF-8
    let mut text = String::from("kept");
    let mut buf = Bytes::from_static(&[0xFF, 0xFE]);
    let err = text.merge(&mut buf).unwrap_err();
    assert_eq!(err.describe(), "invalid string value: data is not UTF-8 encoded");
    assert_eq!(text, "kept");
    let mut buf = Bytes::from_static("héllo".as_bytes());
    assert!(text.merge(&mut buf).is_ok());
    assert_eq!(text, "héllo");
    assert!(buf.is_empty());

    // a length that runs past the input: the length is taken, the value stays
    let mut text = String::from("kept");
    let mut buf = Bytes::from_static(&[0x05, 0x41]);
    assert!(text.deserialize(1, WireType::LengthDelimited, &mut buf).is_err());
    assert_eq!(text, "kept");
    assert_eq!(buf.to_vec(), vec![0x41]);

    // a number keeps its value on a varint that gives out
    let mut number = 7u64;
    let mut buf = Bytes::from_static(&[0x80, 0x80]);
    assert!(number.merge(&mut buf).is_err());
    assert_eq!(number, 7);
    assert!(buf.is_empty());

    // the items of a packed field that were read before the refusal stay
    let mut items: Vec<u32> = vec![7];
    let mut buf = Bytes::from_static(&[0x03, 0x01, 0x80, 0x80, 0x09]);
    assert!(items.deserialize(1, WireType::LengthDelimited, &mut buf).is_err());
    assert_eq!(items, vec![7, 1]);
    assert_eq!(buf.to_vec(), vec![0x09]);

    // an optional field stays as it was
    let mut maybe: Option<u32> = Some(3);
    let mut buf = Bytes::from_static(&[0x80]);
    assert!(maybe.deserialize(1, WireType::Varint, &mut buf).is_err());
    assert_eq!(maybe, Some(3));
}

#[test]
fn maps_are_equal_whatever_the_order() {
    let mut a: MapField<String, u32> = MapField::new();
    a.insert("one".to_string(), 1);
    a.insert("two".to_string(), 2);
    let mut b: MapField<String, u32> = MapField::new();
    b.insert("two".to_string(), 2);
    b.insert("one".to_string(), 1);
    assert!(a == b);
    assert!(!a.is_same(&b));
    b.insert("one".to_string(), 3);
    assert!(a != b);
    b.insert("one".to_string(), 1);
    assert!(a == b);
    b.insert("three".to_string(), 3);
    assert!(a != b);
    assert!(b != a);
    assert_eq!(b.len(), 3);
    let empty: MapField<String, u32> = MapField::new();
    assert!(empty == MapField::new());
    assert!(empty != a);
}

#[test]
fn u32_reads_low_bits_of_wide_varint() {
    // 2^32 + 5
    assert_eq!(
        read_field::<u32>(&[0x08, 0x85, 0x80, 0x80, 0x80, 0x10]),
        (5, vec![])
    );
}

#[test]
fn string_rejects_invalid_utf8() {
    let mut buf = Bytes::from_static(&[0x02, 0xC3, 0x28]);
    let mut value = String::new();
    assert_eq!(
        value.deserialize(1, WireType::LengthDelimited, &mut buf),
        Err(DecodeError::new("invalid string value: data is not UTF-8 encoded"))
    );
    let mut buf = Bytes::from_static(&[0x02, 0xC3, 0x28]);
    let mut value = ByteString::new();
    assert_eq!(
        value.deserialize(1, WireType::LengthDelimited, &mut buf),
        Err(DecodeError::new("invalid string value: data is not UTF-8 encoded"))
    );
}

#[test]
fn deserialize_rejects_wrong_wire_type_and_short_input() {
    let mut buf = Bytes::from_static(&[0x01]);
    let mut value = 0u32;
    assert_eq!(
        value.deserialize(1, WireType::LengthDelimited, &mut buf),
        Err(DecodeError::new("invalid wire type: LengthDelimited (expected Varint)"))
    );
    let mut buf = Bytes::from_static(&[0x05, b'a', b'b']);
    let mut value = String::new();
    assert_eq!(
        value.deserialize(1, WireType::LengthDelimited, &mut buf),
        Err(DecodeError::new("Not enough data, message size 5 buffer size 2"))
    );
    let mut buf = Bytes::from_static(&[0x05, b'a', b'b']);
    assert_eq!(
        value.deserialize(1, WireType::Varint, &mut buf),
        Err(DecodeError::new("invalid wire type: Varint (expected LengthDelimited)"))
    );
    let mut buf = Bytes::from_static(&[0x80]);
    assert_eq!(
        value.deserialize(1, WireType::LengthDelimited, &mut buf),
        Err(DecodeError::new("invalid varint"))
    );
}

#[test]
fn optional_field_is_written_iff_present() {
    assert_eq!(field(&Some(0u32), 1, DefaultValue::Default), vec![0x08, 0x00]);
    assert_eq!(field(&Some(5u32), 1, DefaultValue::Default), vec![0x08, 0x05]);
    assert_eq!(Some(5u32).encoded_len(1), 2);
    assert_eq!(Option::<u32>::None.encoded_len(1), 0);
    assert_eq!(Some(5u32).serialized_len(1, DefaultValue::Default), 2);
    assert_eq!(read_field::<Option<u32>>(&[0x08, 0x00]), (Some(0), vec![]));
    assert_eq!(
        read_field::<Option<String>>(&[0x0A, 0x01, b'x', 0x07]),
        (Some("x".to_string()), vec![0x07])
    );
    let mut value: Option<u32> = None;
    assert_eq!(
        value.merge(&mut Bytes::from_static(&[0x01])),
        Err(DecodeError::new("Cannot directly call deserialize for Option<T>"))
    );
}

#[test]
fn repeated_varints_are_packed() {
    let values = vec![3u32, 270, 86942];
    let bytes = field(&values, 4, DefaultValue::Default);
    assert_eq!(bytes, vec![0x22, 0x06, 0x03, 0x8E, 0x02, 0x9E, 0xA7, 0x05]);
    assert_eq!(values.encoded_len(4), 8);
    assert_eq!(read_field::<Vec<u32>>(&bytes), (values, vec![]));
    // an empty list is written where no default is known
    assert_eq!(field(&Vec::<u32>::new(), 4, DefaultValue::Unknown), vec![0x22, 0x00]);
}

#[test]
fn repeated_varints_read_packed_and_unpacked_alike() {
    let packed = [0x22, 0x06, 0x03, 0x8E, 0x02, 0x9E, 0xA7, 0x05];
    let unpacked = [0x20, 0x03, 0x20, 0x8E, 0x02, 0x20, 0x9E, 0xA7, 0x05];
    let mut from_packed: Vec<u32> = Vec::new();
    let mut buf = Bytes::copy_from_slice(&packed);
    while !buf.is_empty() {
        let (tag, wire_type) = decode_key(&mut buf).unwrap();
        from_packed.deserialize(tag, wire_type, &mut buf).unwrap();
    }
    let mut from_unpacked: Vec<u32> = Vec::new();
    let mut buf = Bytes::copy_from_slice(&unpacked);
    while !buf.is_empty() {
        let (tag, wire_type) = decode_key(&mut buf).unwrap();
        from_unpacked.deserialize(tag, wire_type, &mut buf).unwrap();
    }
    assert_eq!(from_packed, vec![3, 270, 86942]);
    assert_eq!(from_unpacked, from_packed);
    // a packed field that is cut short
    let mut values: Vec<u32> = Vec::new();
    let mut buf = Bytes::from_static(&[0x06, 0x03]);
    assert_eq!(
        values.deserialize(4, WireType::LengthDelimited, &mut buf),
        Err(DecodeError::new("Not enough data"))
    );
    let mut buf = Bytes::from_static(&[0x01, 0x02, 0x03, 0x04]);
    assert_eq!(
        values.deserialize(4, WireType::ThirtyTwoBit, &mut buf),
        Err(DecodeError::new("invalid wire type: ThirtyTwoBit (expected LengthDelimited)"))
    );
}

#[test]
fn repeated_strings_are_one_field_each() {
    let values = vec!["a".to_string(), "".to_string(), "bc".to_string()];
    let bytes = field(&values, 2, DefaultValue::Default);
    assert_eq!(bytes, vec![0x12, 0x01, b'a', 0x12, 0x00, 0x12, 0x02, b'b', b'c']);
    assert_eq!(values.encoded_len(2), 9);
    let mut read: Vec<String> = Vec::new();
    let mut buf = Bytes::from(bytes);
    while !buf.is_empty() {
        let (tag, wire_type) = decode_key(&mut buf).unwrap();
        read.deserialize(tag, wire_type, &mut buf).unwrap();
    }
    assert_eq!(read, values);
}

#[test]
fn map_field_entries() {
    let mut map: MapField<String, u32> = MapField::new();
    assert!(map.is_empty());
    map.insert("a".to_string(), 1);
    map.insert("b".to_string(), 2);
    map.insert("a".to_string(), 3);
    assert_eq!(map.len(), 2);
    assert_eq!(map.get(&"a".to_string()), Some(&3));
    assert_eq!(map.get(&"b".to_string()), Some(&2));
    assert_eq!(map.get(&"c".to_string()), None);
    let bytes = field(&map, 7, DefaultValue::Default);
    assert_eq!(
        bytes,
        vec![0x3A, 0x05, 0x0A, 0x01, b'a', 0x10, 0x03, 0x3A, 0x05, 0x0A, 0x01, b'b', 0x10, 0x02]
    );
    let mut read: MapField<String, u32> = MapField::new();
    let mut buf = Bytes::from(bytes);
    while !buf.is_empty() {
        let (tag, wire_type) = decode_key(&mut buf).unwrap();
        read.deserialize(tag, wire_type, &mut buf).unwrap();
    }
    assert_eq!(read, map);
    // a field in an entry that is neither key nor value
    let mut buf = Bytes::from_static(&[0x02, 0x18, 0x01]);
    assert_eq!(
        read.deserialize(7, WireType::LengthDelimited, &mut buf),
        Err(DecodeError::new("Map deserialization error"))
    );
    let mut buf = Bytes::from_static(&[0x09, 0x18, 0x01]);
    assert_eq!(
        read.deserialize(7, WireType::LengthDelimited, &mut buf),
        Err(DecodeError::new("Not enough data for HashMap, message size 9, buf size 2"))
    );
}

#[test]
fn a_default_of_ones_own_compares_values() {
    let same = |a: &[u8], b: &[u8]| {
        field(&Bytes::copy_from_slice(a), 1, DefaultValue::Value(&Bytes::copy_from_slice(b)))
            .is_empty()
    };
    assert!(same(b"abc", b"abc"));
    assert!(!same(b"abc", b"abd"));
    assert!(!same(b"abc", b"ab"));
    assert!(same(b"", b""));
    let a = ByteString::from_static("one");
    assert!(a.is_same(&ByteString::from_static("one")));
    assert!(!a.is_same(&ByteString::from_static("two")));
    assert!(field(&a, 1, DefaultValue::Value(&a.clone())).is_empty());
    assert!("x".to_string().is_same(&"x".to_string()));
    assert!(!"x".to_string().is_same(&"y".to_string()));
    assert!(vec![1u8, 2].is_same(&vec![1u8, 2]));
    assert!(!vec![1u8, 2].is_same(&vec![1u8, 3]));
    assert!(!vec![1u8, 2].is_same(&vec![1u8]));
    assert!(Some(1u32).is_same(&Some(1)));
    assert!(!Some(1u32).is_same(&Some(2)));
    assert!(!Some(1u32).is_same(&None));
    assert!(Option::<u32>::None.is_same(&None));
    assert!(vec![1u32, 2].is_same(&vec![1, 2]));
    assert!(!vec![1u32, 2].is_same(&vec![2, 1]));
    assert!(field(&vec![1u32, 2], 1, DefaultValue::Value(&vec![1, 2])).is_empty());
    let mut m: MapField<String, u32> = MapField::new();
    m.insert("k".to_string(), 1);
    let mut n: MapField<String, u32> = MapField::new();
    assert!(!m.is_same(&n));
    n.insert("k".to_string(), 1);
    assert!(m.is_same(&n));
    n.insert("k".to_string(), 2);
    assert!(!m.is_same(&n));
}

#[test]
fn byte_string_is_text_in_a_buffer() {
    let text = ByteString::from_static("héllo");
    assert_eq!(text.as_str(), "héllo");
    assert_eq!(text.as_slice(), "héllo".as_bytes());
    assert_eq!(text.len(), 6);
    assert!(!text.is_empty());
    assert_eq!(text.clone(), text);
    assert_eq!(&text.into_bytes()[..], "héllo".as_bytes());
    assert!(ByteString::new().is_empty());
    assert_eq!(ByteString::default(), ByteString::new());
    assert!(ByteString::try_from(Bytes::from_static(&[0xFF])).is_err());
    assert_eq!(
        ByteString::try_from(Bytes::from_static(b"ok")).unwrap().as_str(),
        "ok"
    );
}

#[test]
fn fixed_width_values() {
    let value = Fixed32::from_bits(1.5f32.to_bits());
    let bytes = field(&value, 1, DefaultValue::Default);
    assert_eq!(bytes, vec![0x0D, 0x04, 0x00, 0x00, 0xC0, 0x3F]);
    assert_eq!(value.encoded_len(1), 6);
    assert_eq!(value.value_len(), 4);
    let (read, rest) = read_field::<Fixed32>(&bytes);
    assert_eq!(f32::from_bits(read.to_bits()), 1.5);
    assert!(rest.is_empty());
    let value = Fixed64::from_bits((-2.25f64).to_bits());
    let bytes = field(&value, 2, DefaultValue::Default);
    assert_eq!(bytes, vec![0x11, 0x08, 0, 0, 0, 0, 0, 0, 0x02, 0xC0]);
    let (read, _) = read_field::<Fixed64>(&bytes);
    assert_eq!(f64::from_bits(read.to_bits()), -2.25);
    for bits in [0u32, 1, 0x0102_0304, u32::MAX] {
        let bytes = field(&Fixed32(bits), 3, DefaultValue::Unknown);
        assert_eq!(&bytes[2..], &bits.to_le_bytes());
        assert_eq!(read_field::<Fixed32>(&bytes).0, Fixed32(bits));
    }
    for bits in [0u64, 1, 0x0102_0304_0506_0708, u64::MAX] {
        let bytes = field(&Fixed64(bits), 3, DefaultValue::Unknown);
        assert_eq!(&bytes[2..], &bits.to_le_bytes());
        assert_eq!(read_field::<Fixed64>(&bytes).0, Fixed64(bits));
    }
    // zero of either sign is the default
    assert!(field(&Fixed32::from_bits(0.0f32.to_bits()), 1, DefaultValue::Default).is_empty());
    assert!(field(&Fixed32::from_bits((-0.0f32).to_bits()), 1, DefaultValue::Default).is_empty());
    assert!(field(&Fixed64::from_bits((-0.0f64).to_bits()), 1, DefaultValue::Default).is_empty());
    assert_eq!(Fixed64::default(), Fixed64(0));
    // a value that is cut short
    let mut value = Fixed32(0);
    assert_eq!(
        value.merge(&mut Bytes::from_static(&[1, 2, 3])),
        Err(DecodeError::new("Buffer underflow"))
    );
    let mut src = Bytes::from_static(&[0x03, 1, 2, 3]);
    assert_eq!(
        value.deserialize(1, WireType::ThirtyTwoBit, &mut src),
        Err(DecodeError::new("Buffer underflow"))
    );
    let mut src = Bytes::from_static(&[0x04, 1, 2, 3, 4]);
    assert_eq!(
        value.deserialize(1, WireType::SixtyFourBit, &mut src),
        Err(DecodeError::new("invalid wire type: SixtyFourBit (expected ThirtyTwoBit)"))
    );
}
