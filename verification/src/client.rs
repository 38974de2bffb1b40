//! The client side of a call: what goes into a request, and how the events
//! on the streams of a shared connection become the responses of the calls.

pub mod request;
pub mod transport;

pub use self::request::{
    baseline_headers, checked_grpc_timeout, duration_to_grpc_timeout, grpc_timeout_value,
    RequestContext, Response,
};
pub use self::transport::{
    check_grpc_status, complete, ClientError, ClientEvent, Inflight, Reply, Waiter,
};
