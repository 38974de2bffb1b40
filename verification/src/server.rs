//! The server side of a call: how the events on a stream become a request
//! for a method of a service, and how the outcome of the method becomes
//! trailers.

pub mod error;
pub mod service;

pub use self::error::{GrpcError, ServerError};
pub use self::service::{
    call_timeout, outcome_trailers, parse_path, route, route_call, route_message, str_eq,
    try_parse_grpc_timeout, CallOutcome, GrpcServer, Pending, Route, ServerAction, ServerEvent,
    Streams, ERR_DEADLINE, ERR_DECODE, ERR_DECODE_TIMEOUT,
};
use ntex_bytes::Bytes;
use vstd::prelude::*;

verus! {

/// A request as the dispatcher hands it to a service: the name of the
/// method, the encoded message, and the headers.
#[derive(Debug)]
pub struct ServerRequest<H> {
    pub name: Vec<u8>,
    pub payload: Bytes,
    pub headers: H,
}

/// A response as a service hands it to the dispatcher: the encoded message,
/// and headers to go into the trailers.
#[derive(Debug)]
pub struct ServerResponse<H> {
    pub payload: Bytes,
    pub headers: Vec<H>,
}

impl<H> ServerResponse<H> {
    /// A response without headers of its own.
    pub fn new(payload: Bytes) -> (r: ServerResponse<H>)
        ensures
            r.payload == payload,
            r.headers@.len() == 0,
    {
        ServerResponse::with_headers(payload, Vec::new())
    }

    /// A response with headers to go into the trailers.
    pub fn with_headers(payload: Bytes, headers: Vec<H>) -> (r: ServerResponse<H>)
        ensures
            r.payload == payload,
            r.headers == headers,
    {
        ServerResponse { payload, headers }
    }
}

/// A request as a method sees it: the name of the method, the headers, and
/// the decoded message.
pub struct Request<T, H> {
    pub name: Vec<u8>,
    pub headers: H,
    pub message: T,
}

impl<T, H> Request<T, H> {
    pub fn into_inner(self) -> (message: T)
        ensures
            message == self.message,
    {
        self.message
    }
}

/// A response as a method gives it: the message, and headers to go into the
/// trailers.
pub struct Response<T, H> {
    pub message: T,
    pub headers: Vec<H>,
}

impl<T, H> Response<T, H> {
    /// A response without headers of its own.
    pub fn new(message: T) -> (r: Response<T, H>)
        ensures
            r.message == message,
            r.headers@.len() == 0,
    {
        Response { message, headers: Vec::new() }
    }
}

} // verus!
