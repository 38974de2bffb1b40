use ntex_bytes::Bytes;
use ntex_grpc::helloworld::{Greeter, GreeterMethods, GreeterSayHelloMethod};
use ntex_grpc::server::{
    call_timeout, outcome_trailers, parse_path, route, route_call, route_message, str_eq,
    try_parse_grpc_timeout, CallOutcome, GrpcServer, Request, Response, Route, ServerAction,
    ServerError, ServerEvent, ServerRequest, ServerResponse, Streams, ERR_DEADLINE, ERR_DECODE,
    ERR_DECODE_TIMEOUT,
};
use ntex_grpc::{DecodeError, GrpcStatus};

type Headers = Vec<(&'static str, &'static str)>;

fn path(p: &str) -> Option<Vec<u8>> {
    Some(p.as_bytes().to_vec())
}

#[test]
fn paths() {
    assert_eq!(
        parse_path(b"/helloworld.Greeter/SayHello"),
        Some((&b"helloworld.Greeter"[..], &b"SayHello"[..]))
    );
    assert_eq!(parse_path(b"/a/b/c"), Some((&b"a"[..], &b"b"[..])));
    assert_eq!(parse_path(b"/a/"), Some((&b"a"[..], &b""[..])));
    assert_eq!(parse_path(b"//m"), Some((&b""[..], &b"m"[..])));
    assert_eq!(parse_path(b""), None);
    assert_eq!(parse_path(b"/"), None);
    assert_eq!(parse_path(b"/service"), None);
    assert_eq!(parse_path(b"service/method"), None);
    assert_eq!(parse_path(b"xservice/method"), None);
}

#[test]
fn routing() {
    assert_eq!(str_eq("a", "a"), true);
    assert_eq!(str_eq("a", "b"), false);
    assert_eq!(str_eq("a", "ab"), false);
    match route::<Greeter>("helloworld.Greeter", "SayHello") {
        Route::Method(GreeterMethods::SayHello(GreeterSayHelloMethod)) => {}
        _ => panic!("the known method is not found"),
    }
    let unknown = route::<Greeter>("helloworld.Greeter", "SayGoodbye");
    assert!(matches!(unknown, Route::Unimplemented));
    assert_eq!(unknown.status(), Some(GrpcStatus::Unimplemented));
    let elsewhere = route::<Greeter>("helloworld.Other", "SayHello");
    assert!(matches!(elsewhere, Route::NotFound));
    assert_eq!(elsewhere.status(), Some(GrpcStatus::NotFound));
    assert_eq!(route::<Greeter>("helloworld.Greeter", "SayHello").status(), None);
}

#[test]
fn a_call_that_goes_nowhere_says_why() {
    let known = route_call::<Greeter>(b"helloworld.Greeter", b"SayHello");
    assert!(matches!(known, Route::Method(GreeterMethods::SayHello(GreeterSayHelloMethod))));
    assert_eq!(route_message(&known, "SayHello"), None);

    let unknown = route_call::<Greeter>(b"helloworld.Greeter", b"SayGoodbye");
    assert!(matches!(unknown, Route::Unimplemented));
    assert_eq!(unknown.status(), Some(GrpcStatus::Unimplemented));
    assert_eq!(
        route_message(&unknown, "SayGoodbye"),
        Some("Service method is not implemented: SayGoodbye".to_string())
    );

    let elsewhere = route_call::<Greeter>(b"other.Service", b"SayHello");
    assert!(matches!(elsewhere, Route::NotFound));
    assert_eq!(elsewhere.status(), Some(GrpcStatus::NotFound));
    assert_eq!(
        route_message(&elsewhere, "SayHello"),
        Some("Service method is not found: SayHello".to_string())
    );

    // a name that is no text is the name of no method
    let garbled = route_call::<Greeter>(b"helloworld.Greeter", &[0xFF, 0xFE]);
    assert!(matches!(garbled, Route::Unimplemented));
    // the service is looked at first
    let both = route_call::<Greeter>(b"helloworld.Greete", &[0xFF]);
    assert!(matches!(both, Route::NotFound));
}

#[test]
fn a_dispatched_call_is_routed_by_its_names() {
    let mut streams: Streams<Headers> = Streams::new();
    streams.call(
        1,
        ServerEvent::Headers { path: path("/other.Service/M"), headers: vec![], eof: false },
    );
    let action = streams.call(1, ServerEvent::EofData(Bytes::from_static(&[0, 0, 0, 0, 0])));
    match action {
        ServerAction::Dispatch { service, name, .. } => {
            let to = route_call::<Greeter>(&service, &name);
            assert_eq!(to.status(), Some(GrpcStatus::NotFound));
            assert_eq!(
                route_message(&to, "M"),
                Some("Service method is not found: M".to_string())
            );
        }
        _ => panic!("the call is not dispatched"),
    }
}

#[test]
fn timeouts() {
    assert_eq!(try_parse_grpc_timeout(b"1H"), Ok(3_600_000));
    assert_eq!(try_parse_grpc_timeout(b"2M"), Ok(120_000));
    assert_eq!(try_parse_grpc_timeout(b"3S"), Ok(3_000));
    assert_eq!(try_parse_grpc_timeout(b"100m"), Ok(100));
    assert_eq!(try_parse_grpc_timeout(b"30000000u"), Ok(30_000));
    assert_eq!(try_parse_grpc_timeout(b"1999u"), Ok(1));
    assert_eq!(try_parse_grpc_timeout(b"5000000n"), Ok(5));
    assert_eq!(try_parse_grpc_timeout(b"999999n"), Ok(0));
    assert_eq!(try_parse_grpc_timeout(b"0S"), Ok(0));
    assert_eq!(try_parse_grpc_timeout(b"00000001S"), Ok(1_000));
    // more than 32 bits of milliseconds hold
    assert_eq!(try_parse_grpc_timeout(b"99999999H"), Ok(u32::MAX));
    assert_eq!(try_parse_grpc_timeout(b"99999999M"), Ok(u32::MAX));
    assert_eq!(try_parse_grpc_timeout(b"4294967S"), Ok(4_294_967_000));
    assert_eq!(try_parse_grpc_timeout(b"4294968S"), Ok(u32::MAX));
    assert_eq!(try_parse_grpc_timeout(b"99999999m"), Ok(99_999_999));
    // malformed
    assert_eq!(try_parse_grpc_timeout(b""), Err(()));
    assert_eq!(try_parse_grpc_timeout(b"S"), Err(()));
    assert_eq!(try_parse_grpc_timeout(b"12"), Err(()));
    assert_eq!(try_parse_grpc_timeout(b"123456789S"), Err(()));
    assert_eq!(try_parse_grpc_timeout(b"1x"), Err(()));
    assert_eq!(try_parse_grpc_timeout(b"1s"), Err(()));
    assert_eq!(try_parse_grpc_timeout(b"-1S"), Err(()));
    assert_eq!(try_parse_grpc_timeout(b"1.5S"), Err(()));
    assert_eq!(call_timeout(None), Ok(None));
    assert_eq!(call_timeout(Some(b"100m")), Ok(Some(100)));
    assert_eq!(
        call_timeout(Some(b"soon")),
        Err((GrpcStatus::InvalidArgument, ERR_DECODE_TIMEOUT))
    );
}

#[test]
fn a_request_is_gathered_and_dispatched() {
    let mut streams: Streams<Headers> = Streams::new();
    let headers = vec![("grpc-timeout", "100m")];
    let event = ServerEvent::Headers {
        path: path("/helloworld.Greeter/SayHello"),
        headers: headers.clone(),
        eof: false,
    };
    assert!(matches!(streams.call(1, event), ServerAction::Nothing));
    assert_eq!(streams.pending_len(1), Some(0));
    let body: &'static [u8] = &[0x00, 0x00, 0x00, 0x00, 0x07, 0x0A, 0x05, 0x77, 0x6F, 0x72, 0x6C, 0x64];
    assert!(matches!(
        streams.call(1, ServerEvent::Data(Bytes::from_static(&body[..6]))),
        ServerAction::Nothing
    ));
    assert_eq!(streams.pending_len(1), Some(6));
    // a chunk for a stream that is not known
    assert!(matches!(
        streams.call(9, ServerEvent::Data(Bytes::from_static(b"x"))),
        ServerAction::Nothing
    ));
    assert_eq!(streams.pending_len(9), None);
    match streams.call(1, ServerEvent::EofData(Bytes::from_static(&body[6..]))) {
        ServerAction::Dispatch { service, name, payload, headers: h, trailers } => {
            assert_eq!(service, b"helloworld.Greeter");
            assert_eq!(name, b"SayHello");
            assert_eq!(&payload[..], &body[5..]);
            assert_eq!(h, headers);
            assert_eq!(trailers, None);
        }
        _ => panic!("the request is not dispatched"),
    }
    assert_eq!(streams.pending_len(1), None);
}

#[test]
fn a_request_that_ends_with_trailers() {
    let mut streams: Streams<Headers> = Streams::new();
    let event = ServerEvent::Headers { path: path("/s/m"), headers: vec![], eof: false };
    assert!(matches!(streams.call(3, event), ServerAction::Nothing));
    assert!(matches!(
        streams.call(3, ServerEvent::Data(Bytes::from_static(&[0, 0, 0, 0, 0]))),
        ServerAction::Nothing
    ));
    match streams.call(3, ServerEvent::EofTrailers(vec![("x", "y")])) {
        ServerAction::Dispatch { service, name, payload, trailers, .. } => {
            assert_eq!(service, b"s");
            assert_eq!(name, b"m");
            assert!(payload.is_empty());
            assert_eq!(trailers, Some(vec![("x", "y")]));
        }
        _ => panic!("the request is not dispatched"),
    }
}

#[test]
fn malformed_requests_are_refused() {
    let mut streams: Streams<Headers> = Streams::new();
    // a path that names nothing
    for p in [path(""), path("/"), path("/service"), path("no/slash"), None] {
        let event = ServerEvent::Headers { path: p, headers: vec![], eof: false };
        assert!(matches!(streams.call(1, event), ServerAction::NotFound));
        assert_eq!(streams.pending_len(1), None);
    }
    // headers that end the stream
    let event = ServerEvent::Headers { path: path("/s/m"), headers: vec![], eof: true };
    match streams.call(1, event) {
        ServerAction::Reject { status, message } => {
            assert_eq!(status, GrpcStatus::InvalidArgument);
            assert_eq!(message, ERR_DECODE);
        }
        _ => panic!("the request is not refused"),
    }
    assert_eq!(streams.pending_len(1), None);
    // a body without a whole prefix, a body cut short, a compressed body
    for body in [&[0u8, 0, 0][..], &[0, 0, 0, 0, 9, 1, 2][..], &[1, 0, 0, 0, 1, 7][..], &[][..]] {
        let event = ServerEvent::Headers { path: path("/s/m"), headers: vec![], eof: false };
        assert!(matches!(streams.call(1, event), ServerAction::Nothing));
        match streams.call(1, ServerEvent::EofData(Bytes::copy_from_slice(body))) {
            ServerAction::Reject { status, message } => {
                assert_eq!(status, GrpcStatus::InvalidArgument);
                assert_eq!(message, ERR_DECODE);
            }
            _ => panic!("the request is not refused"),
        }
        assert_eq!(streams.pending_len(1), None);
    }
}

#[test]
fn failures_of_stream_and_connection_drop_the_request() {
    let mut streams: Streams<Headers> = Streams::new();
    let event = ServerEvent::Headers { path: path("/s/m"), headers: vec![], eof: false };
    assert!(matches!(streams.call(1, event), ServerAction::Nothing));
    assert!(matches!(streams.call(1, ServerEvent::EofError), ServerAction::Fail));
    assert_eq!(streams.pending_len(1), None);
    assert!(matches!(streams.call(1, ServerEvent::EofError), ServerAction::Nothing));
    let event = ServerEvent::Headers { path: path("/s/m"), headers: vec![], eof: false };
    assert!(matches!(streams.call(1, event), ServerAction::Nothing));
    assert!(matches!(streams.call(1, ServerEvent::Disconnect), ServerAction::Nothing));
    assert_eq!(streams.pending_len(1), None);
    assert!(matches!(
        streams.call(1, ServerEvent::EofData(Bytes::new())),
        ServerAction::Nothing
    ));
    assert!(matches!(streams.call(1, ServerEvent::EofTrailers(vec![])), ServerAction::Nothing));
}

#[test]
fn outcomes_become_trailers() {
    assert_eq!(outcome_trailers(CallOutcome::Done), (GrpcStatus::Okay, None));
    assert_eq!(
        outcome_trailers(CallOutcome::Failed {
            status: GrpcStatus::AlreadyExists,
            message: "there it is".to_string()
        }),
        (GrpcStatus::AlreadyExists, Some("there it is".to_string()))
    );
    assert_eq!(
        outcome_trailers(CallOutcome::DeadlineExceeded),
        (GrpcStatus::DeadlineExceeded, Some("Deadline exceeded".to_string()))
    );
    assert_eq!(ERR_DEADLINE, "Deadline exceeded");
}

#[test]
fn server_values() {
    let server = GrpcServer::new(5u32);
    assert_eq!(*server.factory(), 5);
    let err: ServerError<Headers> = ServerError::from(DecodeError::new("whatever"));
    assert_eq!(err.status, GrpcStatus::InvalidArgument);
    assert_eq!(err.message, "Cannot decode grpc message");
    assert_eq!(err.headers, None);
    let err = ServerError::new(GrpcStatus::Aborted, "stop".to_string(), Some(vec![("a", "b")]));
    assert_eq!(err.status, GrpcStatus::Aborted);
    assert_eq!(err.message, "stop");
    assert_eq!(err.headers, Some(vec![("a", "b")]));
    let response: ServerResponse<(String, String)> = ServerResponse::new(Bytes::from_static(b"x"));
    assert_eq!(&response.payload[..], b"x");
    assert!(response.headers.is_empty());
    let response = ServerResponse::with_headers(Bytes::new(), vec![("a", "b")]);
    assert_eq!(response.headers, vec![("a", "b")]);
    let request = ServerRequest { name: b"m".to_vec(), payload: Bytes::new(), headers: 1u8 };
    assert_eq!(request.name, b"m");
    let request = Request { name: b"m".to_vec(), headers: (), message: 7u8 };
    assert_eq!(request.into_inner(), 7);
    let response: Response<u8, ()> = Response::new(9);
    assert_eq!(response.message, 9);
    assert!(response.headers.is_empty());
}
