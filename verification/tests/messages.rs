use ntex_bytes::{Bytes, BytesMut};
use ntex_grpc::contact::{Channel, Contact};
use ntex_grpc::encoding::DecodeError;
use ntex_grpc::frame::{frame_message, frame_payload, split_frame, FrameError};
use ntex_grpc::google_types::{
    BoolValue, BytesValue, Duration, Int32Value, Int64Value, StringValue, Timestamp, UInt32Value,
    UInt64Value,
};
use ntex_grpc::helloworld::{
    DocumentType, Greeter, GreeterMethods, GreeterSayHelloMethod, HelloReply, HelloRequest,
};
use ntex_grpc::types::{DefaultValue, Message, NativeType};
use ntex_grpc::{ByteString, MethodDef, ServiceDef};

fn written<M: Message>(msg: &M) -> Vec<u8> {
    let mut buf = BytesMut::new();
    msg.write(&mut buf);
    assert_eq!(buf.len(), msg.encoded_len());
    buf.to_vec()
}

fn read<M: Message>(bytes: &[u8]) -> Result<M, DecodeError> {
    M::read(&mut Bytes::copy_from_slice(bytes))
}

#[test]
fn hello_request_wire_body() {
    let request = HelloRequest { name: ByteString::from_static("world") };
    let body = frame_message(&request);
    assert_eq!(
        &body[..],
        &[0x00, 0x00, 0x00, 0x00, 0x07, 0x0A, 0x05, 0x77, 0x6F, 0x72, 0x6C, 0x64]
    );
    // the server takes the frame apart and decodes the request
    let mut body = body;
    let (compressed, mut payload) = split_frame(&mut body).unwrap();
    assert!(!compressed);
    assert!(body.is_empty());
    let method = GreeterSayHelloMethod;
    assert_eq!(method.decode(&mut payload), Ok(request));
    // the handler answers, and the client decodes that exact string
    let reply = HelloReply { message: ByteString::from_static("Hello world!") };
    let mut buf = BytesMut::new();
    method.encode(reply.clone(), &mut buf);
    let mut body = frame_payload(&buf.freeze()).unwrap();
    let (_, mut payload) = split_frame(&mut body).unwrap();
    let decoded = HelloReply::read(&mut payload).unwrap();
    assert_eq!(decoded.message.as_str(), "Hello world!");
    assert_eq!(decoded, reply);
}

#[test]
fn hello_request_with_empty_name_has_empty_payload() {
    let request = HelloRequest { name: ByteString::from_static("") };
    let body = frame_message(&request);
    assert_eq!(&body[..], &[0x00, 0x00, 0x00, 0x00, 0x00]);
    assert_eq!(written(&request), Vec::<u8>::new());
    assert_eq!(read::<HelloRequest>(&[]), Ok(HelloRequest::default()));
    assert_eq!(HelloRequest::default().name.as_str(), "");
}

#[test]
fn hello_reply_ignores_unknown_field() {
    // {message: "ok", 99: "ignored"}
    let mut bytes = vec![0x0A, 0x02, b'o', b'k'];
    bytes.extend_from_slice(&[0x9A, 0x06, 0x07]);
    bytes.extend_from_slice(b"ignored");
    let reply = read::<HelloReply>(&bytes).unwrap();
    assert_eq!(reply, HelloReply { message: ByteString::from_static("ok") });
    // the unknown field in front, of every wire type
    let mut bytes = vec![0x98, 0x06, 0x05]; // 99: varint 5
    bytes.extend_from_slice(&[0x9D, 0x06, 1, 2, 3, 4]); // 99: 32 bits
    bytes.extend_from_slice(&[0x99, 0x06, 1, 2, 3, 4, 5, 6, 7, 8]); // 99: 64 bits
    bytes.extend_from_slice(&[0x9B, 0x06, 0x08, 0x01, 0x9C, 0x06]); // 99: group
    bytes.extend_from_slice(&[0x0A, 0x02, b'o', b'k']);
    let reply = read::<HelloReply>(&bytes).unwrap();
    assert_eq!(reply.message.as_str(), "ok");
}

#[test]
fn a_later_field_replaces_an_earlier_one() {
    let bytes = [0x0A, 0x01, b'a', 0x0A, 0x01, b'b'];
    assert_eq!(read::<HelloReply>(&bytes).unwrap().message.as_str(), "b");
    let bytes = [0x08, 0x01, 0x08, 0x02];
    assert_eq!(read::<Int64Value>(&bytes), Ok(Int64Value { value: 2 }));
}

#[test]
fn read_names_the_field_that_failed() {
    let err = read::<HelloReply>(&[0x0A, 0x02, 0xC3, 0x28]).unwrap_err();
    assert_eq!(
        err.to_string(),
        "failed to decode Protobuf message: HelloReply.message: invalid string value: data is not UTF-8 encoded"
    );
    let err = read::<Duration>(&[0x10, 0x80]).unwrap_err();
    assert_eq!(
        err,
        DecodeError::new("invalid varint").push("Duration", "nanos")
    );
    let err = read::<Duration>(&[0x0A, 0x00]).unwrap_err();
    assert_eq!(
        err.to_string(),
        "failed to decode Protobuf message: Duration.seconds: invalid wire type: LengthDelimited (expected Varint)"
    );
    // a failure in an unknown field passes no field
    let err = read::<Duration>(&[0x1A, 0x05]).unwrap_err();
    assert_eq!(err, DecodeError::new("Not enough data"));
    let err = read::<Duration>(&[0x00]).unwrap_err();
    assert_eq!(err, DecodeError::new("invalid tag value: 0"));
}

#[test]
fn enum_coercion() {
    let mut value = DocumentType::Quota;
    value.merge(&mut Bytes::from_static(&[99])).unwrap();
    assert_eq!(value, DocumentType::default());
    assert_eq!(value, DocumentType::Broker);
    let mut value = DocumentType::Broker;
    value.merge(&mut Bytes::from_static(&[6])).unwrap();
    assert_eq!(value, DocumentType::Quota);
    assert_eq!(DocumentType::from_i32(99), None);
    assert_eq!(DocumentType::from_i32(2), Some(DocumentType::TestDoc));
    assert_eq!(DocumentType::coerce(-1), DocumentType::Broker);
    assert_eq!(DocumentType::Quota.number(), 6);
    assert_eq!(DocumentType::TestDoc.to_str_name(), "TEST_DOC");
    let mut buf = BytesMut::new();
    DocumentType::Quota.serialize(8, DefaultValue::Default, &mut buf);
    assert_eq!(&buf[..], &[0x40, 0x06]);
    let mut buf = BytesMut::new();
    DocumentType::Broker.serialize(8, DefaultValue::Default, &mut buf);
    assert!(buf.is_empty());
}

#[test]
fn greeter_descriptors() {
    assert_eq!(<Greeter as ServiceDef>::NAME, "helloworld.Greeter");
    assert_eq!(<GreeterSayHelloMethod as MethodDef>::NAME, "SayHello");
    assert_eq!(<GreeterSayHelloMethod as MethodDef>::PATH, "/helloworld.Greeter/SayHello");
    assert_eq!(
        Greeter::method_by_name("SayHello"),
        Some(GreeterMethods::SayHello(GreeterSayHelloMethod))
    );
    assert_eq!(Greeter::method_by_name("sayhello"), None);
    assert_eq!(Greeter::method_by_name(""), None);
}

#[test]
fn duration_message_round_trip() {
    for (seconds, nanos) in [(0, 0), (1, 0), (0, 1), (-1, -1), (i64::MAX, i32::MAX), (i64::MIN, i32::MIN)] {
        let msg = Duration { seconds, nanos };
        let bytes = written(&msg);
        assert_eq!(read::<Duration>(&bytes), Ok(msg));
        let msg = Timestamp { seconds, nanos };
        let bytes = written(&msg);
        assert_eq!(read::<Timestamp>(&bytes), Ok(msg));
    }
    assert_eq!(written(&Duration { seconds: 3, nanos: 5 }), vec![0x08, 0x03, 0x10, 0x05]);
    assert_eq!(written(&Duration { seconds: 0, nanos: 5 }), vec![0x10, 0x05]);
    assert_eq!(written(&Duration::default()), Vec::<u8>::new());
    assert_eq!(read::<Duration>(&[0x10, 0x05, 0x08, 0x03]), Ok(Duration { seconds: 3, nanos: 5 }));
}

#[test]
fn wrapper_messages_round_trip() {
    assert_eq!(written(&Int64Value { value: -1 }).len(), 11);
    for value in [0i64, 1, -1, i64::MIN, i64::MAX] {
        assert_eq!(read(&written(&Int64Value { value })), Ok(Int64Value { value }));
    }
    for value in [0u64, 1, u64::MAX] {
        assert_eq!(read(&written(&UInt64Value { value })), Ok(UInt64Value { value }));
    }
    for value in [0i32, 1, -1, i32::MIN, i32::MAX] {
        assert_eq!(read(&written(&Int32Value { value })), Ok(Int32Value { value }));
    }
    for value in [0u32, 1, u32::MAX] {
        assert_eq!(read(&written(&UInt32Value { value })), Ok(UInt32Value { value }));
    }
    for value in [false, true] {
        assert_eq!(read(&written(&BoolValue { value })), Ok(BoolValue { value }));
    }
    for value in ["", "text", "ünïcödé"] {
        let msg = StringValue { value: ByteString::try_from(Bytes::copy_from_slice(value.as_bytes())).unwrap() };
        assert_eq!(read(&written(&msg)), Ok(msg));
    }
    for value in [&b""[..], &b"\x00\x80\xFF"[..]] {
        let msg = BytesValue { value: Bytes::copy_from_slice(value) };
        assert_eq!(read(&written(&msg)), Ok(msg));
    }
    assert_eq!(written(&UInt32Value { value: 150 }), vec![0x08, 0x96, 0x01]);
    assert_eq!(written(&BoolValue { value: true }), vec![0x08, 0x01]);
}

#[test]
fn nested_message_as_field() {
    let inner = Duration { seconds: 3, nanos: 5 };
    let mut buf = BytesMut::new();
    NativeType::serialize(&inner, 2, DefaultValue::Default, &mut buf);
    assert_eq!(&buf[..], &[0x12, 0x04, 0x08, 0x03, 0x10, 0x05]);
    assert_eq!(NativeType::encoded_len(&inner, 2), 6);
    assert_eq!(inner.value_len(), 4);
    // a message is never a default: an empty one is written as an empty field
    let mut buf = BytesMut::new();
    NativeType::serialize(&Duration::default(), 2, DefaultValue::Default, &mut buf);
    assert_eq!(&buf[..], &[0x12, 0x00]);
    let mut read = Duration::default();
    let mut src = Bytes::from_static(&[0x04, 0x08, 0x03, 0x10, 0x05, 0x77]);
    read.deserialize(2, ntex_grpc::WireType::LengthDelimited, &mut src).unwrap();
    assert_eq!(read, inner);
    assert_eq!(&src[..], &[0x77]);
}

#[test]
fn frames() {
    let mut body = Bytes::from_static(&[0, 0, 0, 0, 2, 7, 8, 9]);
    let (compressed, payload) = split_frame(&mut body).unwrap();
    assert!(!compressed);
    assert_eq!(&payload[..], &[7, 8]);
    assert_eq!(&body[..], &[9]);
    let mut body = Bytes::from_static(&[1, 0, 0, 1, 0]);
    assert_eq!(split_frame(&mut body), Err(FrameError::Truncated));
    let mut body = Bytes::from_static(&[0, 0, 0, 0]);
    assert_eq!(split_frame(&mut body), Err(FrameError::NoPrefix));
    assert_eq!(body.len(), 4);
    let mut body = Bytes::from_static(&[1, 0, 0, 0, 0]);
    assert_eq!(split_frame(&mut body).unwrap(), (true, Bytes::new()));
    let payload = Bytes::from(vec![5u8; 300]);
    let mut body = frame_payload(&payload).unwrap();
    assert_eq!(&body[..5], &[0, 0, 0, 1, 44]);
    assert_eq!(split_frame(&mut body).unwrap(), (false, payload));
}

#[test]
fn oneof_is_written_as_the_field_that_is_set() {
    let unset = Contact { id: 7, channel: Channel::Unset };
    assert_eq!(written(&unset), vec![0x08, 0x07]);
    let email = Contact { id: 7, channel: Channel::Email("a@b".to_string()) };
    assert_eq!(written(&email), vec![0x08, 0x07, 0x12, 0x03, b'a', b'@', b'b']);
    let phone = Contact { id: 0, channel: Channel::Phone(5) };
    assert_eq!(written(&phone), vec![0x18, 0x05]);
    // a channel that is set is written whatever its value
    let zero = Contact { id: 0, channel: Channel::Phone(0) };
    assert_eq!(written(&zero), vec![0x18, 0x00]);
    let empty = Contact { id: 0, channel: Channel::Email(String::new()) };
    assert_eq!(written(&empty), vec![0x12, 0x00]);
    for msg in [unset, email, phone, zero, empty, Contact::default()] {
        assert_eq!(read::<Contact>(&written(&msg)), Ok(msg));
    }
}

#[test]
fn oneof_last_field_wins() {
    let bytes = [0x12, 0x01, b'x', 0x18, 0x05];
    assert_eq!(
        read::<Contact>(&bytes),
        Ok(Contact { id: 0, channel: Channel::Phone(5) })
    );
    let bytes = [0x18, 0x05, 0x08, 0x09, 0x12, 0x01, b'x'];
    assert_eq!(
        read::<Contact>(&bytes),
        Ok(Contact { id: 9, channel: Channel::Email("x".to_string()) })
    );
    let bytes = [0x12, 0x01, b'x', 0x12, 0x01, b'y'];
    assert_eq!(
        read::<Contact>(&bytes),
        Ok(Contact { id: 0, channel: Channel::Email("y".to_string()) })
    );
    let err = read::<Contact>(&[0x18, 0x80]).unwrap_err();
    assert_eq!(err, DecodeError::new("invalid varint").push("Contact", "channel"));
}

#[test]
fn a_refused_message_leaves_what_was_not_looked_at() {
    // the key is no varint: the reader takes the bytes of the key it tried
    let mut buf = Bytes::from_static(&[0x80]);
    assert!(Duration::read(&mut buf).is_err());
    assert!(buf.is_empty());

    // field 1 comes with the wrong wire type: the key is taken and nothing else
    let mut buf = Bytes::from_static(&[0x0A, 0x00, 0xFF]);
    assert!(Duration::read(&mut buf).is_err());
    assert_eq!(buf.to_vec(), vec![0x00, 0xFF]);

    // a field is read, then the next key has field number 0
    let mut buf = Bytes::from_static(&[0x08, 0x01, 0x00, 0x07]);
    assert!(Duration::read(&mut buf).is_err());
    assert_eq!(buf.to_vec(), vec![0x07]);

    // an unknown field whose length runs past the input: key and length are taken
    let mut buf = Bytes::from_static(&[0x3A, 0x05, 0x01]);
    assert!(Duration::read(&mut buf).is_err());
    assert_eq!(buf.to_vec(), vec![0x01]);

    // a nested message that is refused: the whole field is taken, the value stays
    let mut nested = Duration { seconds: 4, nanos: 2 };
    let mut buf = Bytes::from_static(&[0x02, 0x08, 0x80, 0x33]);
    assert!(nested
        .deserialize(1, ntex_grpc::WireType::LengthDelimited, &mut buf)
        .is_err());
    assert_eq!(nested, Duration { seconds: 4, nanos: 2 });
    assert_eq!(buf.to_vec(), vec![0x33]);
}
