//! How a method says that it failed.

use crate::encoding::DecodeError;
use crate::status::GrpcStatus;
use vstd::prelude::*;

verus! {

/// An error that knows the status and the message of the call it fails.
pub trait GrpcError<H> {
    /// The status that the call ends with.
    spec fn spec_status(&self) -> GrpcStatus;

    /// The message that goes with the status.
    spec fn spec_message(&self) -> Seq<char>;

    /// Headers to go into the trailers, if any.
    spec fn spec_headers(&self) -> Option<H>;

    /// The status that the call ends with.
    fn status(&self) -> (status: GrpcStatus)
        ensures
            status == self.spec_status(),
    ;

    /// The message that goes with the status.
    fn message(&self) -> (message: String)
        ensures
            message@ == self.spec_message(),
    ;

    /// Headers to go into the trailers, if any.
    fn headers(&self) -> (headers: Option<H>)
        ensures
            headers == self.spec_headers(),
    ;
}

/// The failure of a call as the dispatcher writes it into the trailers: the
/// status, the message, and headers to go with them.
#[derive(Debug)]
pub struct ServerError<H> {
    pub status: GrpcStatus,
    pub message: String,
    pub headers: Option<H>,
}

impl<H> ServerError<H> {
    pub fn new(status: GrpcStatus, message: String, headers: Option<H>) -> (e: ServerError<H>)
        ensures
            e.status == status,
            e.message == message,
            e.headers == headers,
    {
        ServerError { status, message, headers }
    }

    /// The failure that a request which cannot be decoded amounts to: an
    /// invalid argument.
    pub fn from(_err: DecodeError) -> (e: ServerError<H>)
        ensures
            e.status == GrpcStatus::InvalidArgument,
            e.message@ == "Cannot decode grpc message"@,
            e.headers.is_none(),
    {
        ServerError::new(
            GrpcStatus::InvalidArgument,
            String::from_str("Cannot decode grpc message"),
            None,
        )
    }

    /// The failure that the error of a method amounts to: the status, the
    /// message and the headers that the error names.
    pub fn of<E: GrpcError<H>>(err: &E) -> (e: ServerError<H>)
        ensures
            e.status == err.spec_status(),
            e.message@ == err.spec_message(),
            e.headers == err.spec_headers(),
    {
        ServerError::new(err.status(), err.message(), err.headers())
    }
}

} // verus!
