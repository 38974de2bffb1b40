use ntex_bytes::Bytes;
use ntex_grpc::client::{
    check_grpc_status, complete, ClientError, ClientEvent, Inflight, Reply,
};
use ntex_grpc::encoding::DecodeError;
use ntex_grpc::helloworld::HelloReply;
use ntex_grpc::{ByteString, GrpcStatus};

type Headers = Vec<(&'static str, &'static str)>;

fn status(value: &str) -> Option<Vec<u8>> {
    Some(value.as_bytes().to_vec())
}

fn reply_body() -> Bytes {
    // the frame around {message: "Hello world!"}
    let mut body = vec![0, 0, 0, 0, 14, 0x0A, 12];
    body.extend_from_slice(b"Hello world!");
    Bytes::from(body)
}

#[test]
fn grpc_status_header_values() {
    assert_eq!(check_grpc_status(None), None);
    assert_eq!(check_grpc_status(Some(b"0")), Some(Ok(GrpcStatus::Okay)));
    assert_eq!(check_grpc_status(Some(b"5")), Some(Ok(GrpcStatus::NotFound)));
    assert_eq!(check_grpc_status(Some(b"7")), Some(Ok(GrpcStatus::PermissionDenied)));
    assert_eq!(check_grpc_status(Some(b"16")), Some(Ok(GrpcStatus::Unauthenticated)));
    assert_eq!(check_grpc_status(Some(b"007")), Some(Ok(GrpcStatus::PermissionDenied)));
    assert_eq!(check_grpc_status(Some(b"17")), Some(Err(())));
    assert_eq!(check_grpc_status(Some(b"255")), Some(Err(())));
    assert_eq!(check_grpc_status(Some(b"256")), Some(Err(())));
    assert_eq!(check_grpc_status(Some(b"99999999999999999999")), Some(Err(())));
    assert_eq!(check_grpc_status(Some(b"")), Some(Err(())));
    assert_eq!(check_grpc_status(Some(b"-1")), Some(Err(())));
    assert_eq!(check_grpc_status(Some(b"Ok")), Some(Err(())));
    assert_eq!(check_grpc_status(Some(b"1 ")), Some(Err(())));
}

#[test]
fn a_call_gathers_its_response() {
    let mut inflight: Inflight<Headers> = Inflight::new();
    inflight.register(1);
    inflight.register(3);
    assert!(inflight.is_waiting(1) && inflight.is_waiting(3) && !inflight.is_waiting(5));
    let headers = vec![("content-type", "application/grpc")];
    let event = ClientEvent::Headers {
        status: Some(200),
        headers: headers.clone(),
        grpc_status: None,
        eof: false,
    };
    assert!(inflight.handle_message(1, event).is_none());
    let body = reply_body();
    assert!(inflight.handle_message(1, ClientEvent::Data(body.slice(..3))).is_none());
    assert!(inflight.handle_message(3, ClientEvent::Data(Bytes::from_static(b"other"))).is_none());
    assert!(inflight.handle_message(1, ClientEvent::Data(Bytes::new())).is_none());
    assert!(inflight.handle_message(1, ClientEvent::Data(body.slice(3..10))).is_none());
    assert_eq!(inflight.pending_len(1), Some(10));
    assert_eq!(inflight.pending_len(3), Some(5));
    assert_eq!(inflight.pending_len(5), None);
    let trailers = vec![("grpc-status", "0")];
    // an event for a stream on which no call waits
    assert!(inflight.handle_message(5, ClientEvent::Data(Bytes::new())).is_none());
    assert!(inflight.handle_message(1, ClientEvent::Data(body.slice(10..))).is_none());
    let reply = match inflight.handle_message(
        1,
        ClientEvent::EofTrailers { trailers: trailers.clone(), grpc_status: status("0") },
    ) {
        Some(Ok(reply)) => reply,
        _ => panic!("the call is not completed"),
    };
    assert!(!inflight.is_waiting(1));
    assert!(inflight.is_waiting(3));
    assert_eq!(reply.status, Some(200));
    assert_eq!(reply.data, body);
    assert_eq!(reply.headers, Some(headers.clone()));
    assert_eq!(reply.trailers, Some(trailers.clone()));
    match complete::<HelloReply, Headers>(reply) {
        Ok((output, h, t, rest)) => {
            assert_eq!(output, HelloReply { message: ByteString::from_static("Hello world!") });
            assert_eq!(h, Some(headers));
            assert_eq!(t, Some(trailers));
            assert_eq!(rest, 0);
        }
        Err(_) => panic!("the reply is refused"),
    }
}

#[test]
fn the_last_chunk_completes_the_call() {
    let mut inflight: Inflight<Headers> = Inflight::new();
    inflight.register(7);
    let event = ClientEvent::Headers { status: Some(200), headers: vec![], grpc_status: None, eof: false };
    assert!(inflight.handle_message(7, event).is_none());
    let body = reply_body();
    assert!(inflight.handle_message(7, ClientEvent::Data(body.slice(..4))).is_none());
    match inflight.handle_message(7, ClientEvent::EofData(body.slice(4..))) {
        Some(Ok(reply)) => {
            assert_eq!(reply.data, body);
            assert_eq!(reply.trailers, None);
        }
        _ => panic!("the call is not completed"),
    }
    assert!(!inflight.is_waiting(7));
}

#[test]
fn trailers_only_error() {
    let mut inflight: Inflight<Headers> = Inflight::new();
    inflight.register(1);
    let headers = vec![("grpc-status", "5"), ("grpc-message", "not found")];
    let event = ClientEvent::Headers {
        status: Some(200),
        headers: headers.clone(),
        grpc_status: status("5"),
        eof: true,
    };
    match inflight.handle_message(1, event) {
        Some(Err(ClientError::GrpcStatus(st, h))) => {
            assert_eq!(st, GrpcStatus::NotFound);
            assert_eq!(h, headers);
        }
        _ => panic!("the call does not fail with its status"),
    }
    assert!(!inflight.is_waiting(1));
}

#[test]
fn status_propagation() {
    let mut inflight: Inflight<Headers> = Inflight::new();
    // grpc-status 7 in the trailers
    inflight.register(1);
    let event = ClientEvent::EofTrailers { trailers: vec![], grpc_status: status("7") };
    assert!(matches!(
        inflight.handle_message(1, event),
        Some(Err(ClientError::GrpcStatus(GrpcStatus::PermissionDenied, _)))
    ));
    // grpc-status 0
    inflight.register(1);
    let event = ClientEvent::EofTrailers { trailers: vec![], grpc_status: status("0") };
    assert!(matches!(inflight.handle_message(1, event), Some(Ok(_))));
    // no grpc-status and no payload
    inflight.register(1);
    let event = ClientEvent::Headers { status: Some(200), headers: vec![], grpc_status: None, eof: true };
    assert!(matches!(
        inflight.handle_message(1, event),
        Some(Err(ClientError::UnexpectedEof(Some(200), Some(_))))
    ));
    // grpc-status 0 on headers that end the stream: still no payload
    inflight.register(1);
    let event = ClientEvent::Headers { status: Some(200), headers: vec![], grpc_status: status("0"), eof: true };
    assert!(matches!(
        inflight.handle_message(1, event),
        Some(Err(ClientError::UnexpectedEof(Some(200), Some(_))))
    ));
    // a status that is none
    inflight.register(1);
    let event = ClientEvent::EofTrailers { trailers: vec![], grpc_status: status("abc") };
    match inflight.handle_message(1, event) {
        Some(Err(ClientError::Decode(e))) => {
            assert_eq!(e, DecodeError::new("Cannot parse grpc status"))
        }
        _ => panic!("the malformed status is not refused"),
    }
    // trailers without a status complete the call
    inflight.register(1);
    let event = ClientEvent::EofTrailers { trailers: vec![], grpc_status: None };
    assert!(matches!(inflight.handle_message(1, event), Some(Ok(_))));
}

#[test]
fn failures_of_stream_and_connection() {
    let mut inflight: Inflight<Headers> = Inflight::new();
    inflight.register(1);
    assert!(matches!(
        inflight.handle_message(1, ClientEvent::EofError),
        Some(Err(ClientError::Stream))
    ));
    assert!(!inflight.is_waiting(1));
    inflight.register(1);
    assert!(matches!(
        inflight.handle_message(1, ClientEvent::Disconnect),
        Some(Err(ClientError::Operation))
    ));
    assert!(!inflight.is_waiting(1));
    inflight.register(1);
    assert!(inflight.handle_message(1, ClientEvent::Empty).is_none());
    assert!(!inflight.is_waiting(1));
}

#[test]
fn cancellation_removes_the_waiter() {
    let mut inflight: Inflight<Headers> = Inflight::new();
    inflight.register(1);
    inflight.register(3);
    assert!(inflight.cancel(1));
    assert!(!inflight.is_waiting(1));
    assert!(inflight.is_waiting(3));
    assert!(!inflight.cancel(1));
    // what still comes for the stream is ignored
    assert!(inflight.handle_message(1, ClientEvent::EofData(Bytes::new())).is_none());
    assert!(!inflight.is_waiting(1));
}

#[test]
fn completion_checks_status_and_frame() {
    let reply = |status: Option<u16>, data: &'static [u8]| Reply::<Headers> {
        status,
        data: Bytes::from_static(data),
        headers: Some(vec![("a", "b")]),
        trailers: None,
    };
    match complete::<HelloReply, Headers>(reply(Some(404), b"nope")) {
        Err(ClientError::Response(st, h, body)) => {
            assert_eq!(st, Some(404));
            assert_eq!(h, Some(vec![("a", "b")]));
            assert_eq!(&body[..], b"nope");
        }
        _ => panic!("a failed response is not refused"),
    }
    assert!(matches!(
        complete::<HelloReply, Headers>(reply(None, b"")),
        Err(ClientError::Response(None, _, _))
    ));
    assert!(matches!(
        complete::<HelloReply, Headers>(reply(Some(199), b"")),
        Err(ClientError::Response(Some(199), _, _))
    ));
    assert!(matches!(
        complete::<HelloReply, Headers>(reply(Some(300), b"")),
        Err(ClientError::Response(Some(300), _, _))
    ));
    assert!(matches!(
        complete::<HelloReply, Headers>(reply(Some(200), b"")),
        Err(ClientError::UnexpectedEof(Some(200), Some(_)))
    ));
    match complete::<HelloReply, Headers>(reply(Some(299), &[0, 0, 0, 0, 9, 1])) {
        Err(ClientError::Decode(e)) => assert_eq!(e, DecodeError::incomplete()),
        _ => panic!("a truncated frame is not refused"),
    }
    match complete::<HelloReply, Headers>(reply(Some(200), &[0, 0, 0, 0, 2, 0x0A, 0x05])) {
        Err(ClientError::Decode(e)) => assert_eq!(
            e,
            DecodeError::new("Not enough data, message size 5 buffer size 0").push("HelloReply", "message")
        ),
        _ => panic!("a malformed message is not refused"),
    }
    // what follows the frame is not looked at, and counted
    match complete::<HelloReply, Headers>(reply(Some(200), &[0, 0, 0, 0, 3, 0x0A, 0x01, b'x', 9, 9])) {
        Ok((output, _, _, rest)) => {
            assert_eq!(output.message.as_str(), "x");
            assert_eq!(rest, 2);
        }
        Err(_) => panic!("the reply is refused"),
    }
}
