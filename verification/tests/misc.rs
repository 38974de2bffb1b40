use ntex_bytes::{Bytes, BytesMut};
use ntex_grpc::buf::{has_room, held, held_mut, BUF_LIMIT};
use ntex_grpc::google_types::{Duration, Timestamp};
use ntex_grpc::text::{decimal_string, push_decimal};
use ntex_grpc::utils::Data;
use ntex_grpc::GrpcStatus;
use ntex_h2::frame::Reason;

#[test]
fn status_codes() {
    let all = [
        (GrpcStatus::Okay, 0, "Ok"),
        (GrpcStatus::Cancelled, 1, "Cancelled"),
        (GrpcStatus::Unknown, 2, "Unknown"),
        (GrpcStatus::InvalidArgument, 3, "InvalidArgument"),
        (GrpcStatus::DeadlineExceeded, 4, "DeadlineExceeded"),
        (GrpcStatus::NotFound, 5, "NotFound"),
        (GrpcStatus::AlreadyExists, 6, "AlreadyExists"),
        (GrpcStatus::PermissionDenied, 7, "PermissionDenied"),
        (GrpcStatus::ResourceExhausted, 8, "ResourceExhausted"),
        (GrpcStatus::FailedPrecondition, 9, "FailedPrecondition"),
        (GrpcStatus::Aborted, 10, "Aborted"),
        (GrpcStatus::OutOfRange, 11, "OutOfRange"),
        (GrpcStatus::Unimplemented, 12, "Unimplemented"),
        (GrpcStatus::Internal, 13, "Internal"),
        (GrpcStatus::Unavailable, 14, "Unavailable"),
        (GrpcStatus::DataLoss, 15, "DataLoss"),
        (GrpcStatus::Unauthenticated, 16, "Unauthenticated"),
    ];
    for (status, code, name) in all {
        assert_eq!(status.code(), code);
        assert_eq!(GrpcStatus::try_from(code), Ok(status));
        assert_eq!(status.as_str(), name);
        assert_eq!(status.header_value(), code.to_string());
    }
    assert_eq!(GrpcStatus::try_from(17), Err(()));
    assert_eq!(GrpcStatus::try_from(255), Err(()));
}

#[test]
fn status_from_http2_reason() {
    for reason in [
        Reason::NO_ERROR,
        Reason::PROTOCOL_ERROR,
        Reason::INTERNAL_ERROR,
        Reason::FLOW_CONTROL_ERROR,
        Reason::SETTINGS_TIMEOUT,
        Reason::FRAME_SIZE_ERROR,
        Reason::COMPRESSION_ERROR,
        Reason::CONNECT_ERROR,
    ] {
        assert_eq!(GrpcStatus::from(reason), GrpcStatus::Internal);
    }
    assert_eq!(GrpcStatus::from(Reason::REFUSED_STREAM), GrpcStatus::Unavailable);
    assert_eq!(GrpcStatus::from(Reason::CANCEL), GrpcStatus::Cancelled);
    assert_eq!(GrpcStatus::from(Reason::ENHANCE_YOUR_CALM), GrpcStatus::ResourceExhausted);
    assert_eq!(GrpcStatus::from(Reason::INADEQUATE_SECURITY), GrpcStatus::PermissionDenied);
    assert_eq!(GrpcStatus::from(Reason::STREAM_CLOSED), GrpcStatus::Unknown);
    assert_eq!(GrpcStatus::from(Reason::HTTP_1_1_REQUIRED), GrpcStatus::Unknown);
    assert_eq!(GrpcStatus::from(Reason::from(1000)), GrpcStatus::Unknown);
    assert_eq!(GrpcStatus::from_reason_code(8), GrpcStatus::Cancelled);
    assert_eq!(GrpcStatus::from_reason_code(u32::MAX), GrpcStatus::Unknown);
}

fn normal(seconds: i64, nanos: i32) -> (i64, i32) {
    let mut d = Duration { seconds, nanos };
    d.normalize();
    (d.seconds, d.nanos)
}

#[test]
fn duration_normalize() {
    assert_eq!(normal(0, 0), (0, 0));
    assert_eq!(normal(1, 500), (1, 500));
    assert_eq!(normal(0, -5), (0, -5));
    assert_eq!(normal(1, 1_000_000_000), (2, 0));
    assert_eq!(normal(1, 1_500_000_000), (2, 500_000_000));
    assert_eq!(normal(1, -1), (0, 999_999_999));
    assert_eq!(normal(-1, 1), (0, -999_999_999));
    assert_eq!(normal(5, -2_000_000_001), (2, 999_999_999));
    assert_eq!(normal(-5, 2_000_000_001), (-2, -999_999_999));
    assert_eq!(normal(0, i32::MAX), (2, 147_483_647));
    assert_eq!(normal(0, i32::MIN), (-2, -147_483_648));
    // beyond what fits
    assert_eq!(normal(i64::MAX, 1_000_000_000), (i64::MAX, 999_999_999));
    assert_eq!(normal(i64::MAX, i32::MAX), (i64::MAX, 999_999_999));
    assert_eq!(normal(i64::MIN, -1_000_000_000), (i64::MIN, -999_999_999));
    assert_eq!(normal(i64::MIN, i32::MIN), (i64::MIN, -999_999_999));
    assert_eq!(normal(i64::MAX, 999_999_999), (i64::MAX, 999_999_999));
    assert_eq!(normal(i64::MAX, -1), (i64::MAX - 1, 999_999_999));
    assert_eq!(normal(i64::MIN, 1), (i64::MIN + 1, -999_999_999));
}

#[test]
fn duration_from_and_to_std() {
    let d = Duration::try_from(std::time::Duration::new(5, 7)).unwrap();
    assert_eq!(d, Duration { seconds: 5, nanos: 7 });
    assert!(Duration::try_from(std::time::Duration::new(u64::MAX, 0)).is_err());
    assert!(Duration::try_from(std::time::Duration::new(i64::MAX as u64 + 1, 0)).is_err());
    assert_eq!(
        Duration::try_from(std::time::Duration::new(i64::MAX as u64, 999_999_999)).unwrap(),
        Duration { seconds: i64::MAX, nanos: 999_999_999 }
    );
    assert_eq!(
        Duration { seconds: 5, nanos: 7 }.to_std().unwrap(),
        std::time::Duration::new(5, 7)
    );
    assert_eq!(
        Duration { seconds: 5, nanos: -7 }.to_std().unwrap(),
        std::time::Duration::new(4, 999_999_993)
    );
    assert_eq!(
        Duration { seconds: -5, nanos: -7 }.to_std().unwrap_err().0,
        std::time::Duration::new(5, 7)
    );
    assert_eq!(
        Duration { seconds: 0, nanos: -7 }.to_std().unwrap_err().0,
        std::time::Duration::new(0, 7)
    );
    assert_eq!(
        Duration { seconds: i64::MIN, nanos: 0 }.to_std().unwrap_err().0,
        std::time::Duration::new(1 << 63, 0)
    );
    assert_eq!(Duration::default().to_std().unwrap(), std::time::Duration::ZERO);
}

fn normal_timestamp(seconds: i64, nanos: i32) -> (i64, i32) {
    let mut t = Timestamp { seconds, nanos };
    t.normalize();
    (t.seconds, t.nanos)
}

#[test]
fn timestamp_normalize() {
    assert_eq!(normal_timestamp(0, 0), (0, 0));
    assert_eq!(normal_timestamp(1, 999_999_999), (1, 999_999_999));
    assert_eq!(normal_timestamp(1, 1_000_000_000), (2, 0));
    assert_eq!(normal_timestamp(1, -1), (0, 999_999_999));
    assert_eq!(normal_timestamp(-1, -1), (-2, 999_999_999));
    assert_eq!(normal_timestamp(0, i32::MIN), (-3, 852_516_352));
    assert_eq!(normal_timestamp(i64::MAX, 1_000_000_000), (i64::MAX, 999_999_999));
    assert_eq!(normal_timestamp(i64::MIN, -1_000_000_000), (i64::MIN, 0));
    assert_eq!(normal_timestamp(i64::MIN, -1), (i64::MIN, 0));
    assert_eq!(Timestamp::from_unix(1_700_000_000, 5), Timestamp { seconds: 1_700_000_000, nanos: 5 });
}

#[test]
fn data_gathers_chunks() {
    let mut data = Data::Empty;
    assert_eq!(data.len(), 0);
    data.push(Bytes::new());
    assert!(matches!(data, Data::Empty));
    data.push(Bytes::from_static(b"ab"));
    assert!(matches!(data, Data::Chunk(_)));
    data.push(Bytes::new());
    assert!(matches!(data, Data::Chunk(_)));
    data.push(Bytes::from_static(b"cd"));
    assert!(matches!(data, Data::MutChunk(_)));
    data.push(Bytes::from_static(b"e"));
    assert_eq!(data.len(), 5);
    assert_eq!(&data.get()[..], b"abcde");
    assert!(matches!(data, Data::Empty));
    assert!(data.get().is_empty());
}

#[test]
fn buffers_tell_how_much_they_hold() {
    assert_eq!(held(&Bytes::new()), 0);
    assert_eq!(held(&Bytes::from_static(b"abc")), 3);
    let mut buf = BytesMut::new();
    assert_eq!(held_mut(&buf), 0);
    buf.extend_from_slice(b"abcd");
    assert_eq!(held_mut(&buf), 4);
    assert!(has_room(&buf, 0));
    assert!(has_room(&buf, BUF_LIMIT - 4));
    assert!(!has_room(&buf, BUF_LIMIT - 3));
    assert!(!has_room(&buf, usize::MAX));
}

#[test]
fn decimal_numerals() {
    assert_eq!(decimal_string(0), "0");
    assert_eq!(decimal_string(7), "7");
    assert_eq!(decimal_string(10), "10");
    assert_eq!(decimal_string(1234567890), "1234567890");
    assert_eq!(decimal_string(u128::MAX), u128::MAX.to_string());
    let mut text = String::from("n=");
    push_decimal(&mut text, 4096);
    assert_eq!(text, "n=4096");
}
