//! The dispatcher: from the events on the streams of a connection to the
//! calls of methods, and from their outcomes to trailers.

use crate::buf::{bytes_seq, BUF_LIMIT};
use crate::frame::{frame_parse, split_frame};
use crate::service::{MethodsDef, ServiceDef};
use crate::status::GrpcStatus;
use crate::std_text::str_from_utf8;
use crate::types::same_bytes;
use crate::utils::Data;
use ntex_bytes::Bytes;
use std::collections::HashMap;
use std::rc::Rc;
use vstd::prelude::*;
use vstd::slice::slice_subrange;
use vstd::string::StringSliceAdditionalSpecFns;
use vstd::utf8::{decode_utf8, encode_utf8, valid_utf8};

verus! {

pub const ERR_DECODE: &'static str = "Cannot decode request message: not enough data provided";

pub const ERR_DECODE_TIMEOUT: &'static str = "Cannot decode grpc-timeout header";

pub const ERR_DEADLINE: &'static str = "Deadline exceeded";

const MILLIS_IN_HOUR: u64 = 3_600_000;

const MILLIS_IN_MINUTE: u64 = 60_000;

/// A server for the services that `factory` makes.
pub struct GrpcServer<T> {
    factory: Rc<T>,
}

impl<T> GrpcServer<T> {
    /// What makes the services.
    pub closed spec fn spec_factory(&self) -> T {
        *self.factory
    }

    /// A server for the services that `factory` makes.
    pub fn new(factory: T) -> (server: GrpcServer<T>)
        ensures
            server.spec_factory() == factory,
    {
        GrpcServer { factory: Rc::new(factory) }
    }

    /// What makes the services, shared.
    pub fn factory(&self) -> (factory: Rc<T>)
        ensures
            *factory == self.spec_factory(),
    {
        self.factory.clone()
    }
}

/// The index of the first slash in `s` at or behind `from`, or the length
/// of `s` where there is none.
pub open spec fn slash_index(s: Seq<u8>, from: int) -> int
    decreases s.len() - from,
{
    if from >= s.len() {
        s.len() as int
    } else if s[from] == 0x2F {
        from
    } else {
        slash_index(s, from + 1)
    }
}

/// The service and the method that a path names: behind the slash that
/// opens the path, the name of the service up to the next slash, and behind
/// that the name of the method, up to a further slash if there is one. A
/// path that does not open with a slash, or has no slash behind the name
/// of the service, names nothing.
pub open spec fn path_parts(path: Seq<u8>) -> Option<(Seq<u8>, Seq<u8>)> {
    if path.len() == 0 || path[0] != 0x2F {
        None
    } else {
        let mid = slash_index(path, 1);
        if mid >= path.len() {
            None
        } else {
            Some((path.subrange(1, mid), path.subrange(mid + 1, slash_index(path, mid + 1))))
        }
    }
}

proof fn lemma_slash_index(s: Seq<u8>, from: int)
    requires
        0 <= from <= s.len(),
    ensures
        from <= slash_index(s, from) <= s.len(),
        slash_index(s, from) < s.len() ==> s[slash_index(s, from)] == 0x2F,
        forall|i: int| from <= i < slash_index(s, from) ==> s[i] != 0x2F,
    decreases s.len() - from,
{
    if from < s.len() && s[from] != 0x2F {
        lemma_slash_index(s, from + 1);
    }
}

/// The index of the first slash at or behind `from`, or the length of the
/// path where there is none.
pub fn first_slash(path: &[u8], from: usize) -> (at: usize)
    requires
        from <= path@.len(),
    ensures
        at == slash_index(path@, from as int),
        from <= at <= path@.len(),
{
    let mut at = from;
    while at < path.len() && path[at] != 0x2F
        invariant
            from <= at <= path@.len(),
            slash_index(path@, from as int) == slash_index(path@, at as int),
        decreases path@.len() - at,
    {
        at += 1;
    }
    at
}

/// The names of the service and of the method in the path of a request.
pub fn parse_path(path: &[u8]) -> (r: Option<(&[u8], &[u8])>)
    ensures
        match path_parts(path@) {
            Some((service, method)) => r matches Some(names) && names.0@ == service && names.1@
                == method,
            None => r.is_none(),
        },
{
    if path.len() == 0 || path[0] != 0x2F {
        return None;
    }
    let mid = first_slash(path, 1);
    if mid >= path.len() {
        // not found
        return None;
    }
    let end = first_slash(path, mid + 1);
    Some((slice_subrange(path, 1, mid), slice_subrange(path, mid + 1, end)))
}

/// **Well-formed paths.** The path made of a slash, the name of a service,
/// a slash and the name of a method names that service and that method,
/// where neither name holds a slash.
pub proof fn lemma_path_round_trip(service: Seq<u8>, method: Seq<u8>)
    requires
        forall|i: int| 0 <= i < service.len() ==> service[i] != 0x2F,
        forall|i: int| 0 <= i < method.len() ==> method[i] != 0x2F,
    ensures
        path_parts(seq![0x2Fu8] + service + seq![0x2Fu8] + method) == Some((service, method)),
{
    let path = seq![0x2Fu8] + service + seq![0x2Fu8] + method;
    let mid = 1 + service.len() as int;
    lemma_slash_index(path, 1);
    lemma_slash_index(path, mid + 1);
    assert(path[mid] == 0x2F);
    assert(forall|i: int| 1 <= i < mid ==> path[i] == service[i - 1]);
    assert(forall|i: int| mid < i < path.len() ==> path[i] == method[i - mid - 1]);
    assert(slash_index(path, 1) == mid);
    assert(slash_index(path, mid + 1) == path.len());
    assert(path.subrange(1, mid) =~= service);
    assert(path.subrange(mid + 1, path.len() as int) =~= method);
}

/// **Malformed paths.** A path without a slash in front, or without one
/// behind it, names nothing.
pub proof fn lemma_malformed_path(path: Seq<u8>)
    requires
        path.len() == 0 || path[0] != 0x2F || forall|i: int| 1 <= i < path.len() ==> path[i]
            != 0x2F,
    ensures
        path_parts(path).is_none(),
{
    if path.len() > 0 && path[0] == 0x2F {
        lemma_slash_index(path, 1);
    }
}

/// The milliseconds that a number of the given unit of time amounts to,
/// rounded down, and no more than 32 bits hold. The units are hours `H`,
/// minutes `M`, seconds `S`, milliseconds `m`, microseconds `u` and
/// nanoseconds `n`.
pub open spec fn timeout_millis(value: nat, unit: u8) -> Option<u32> {
    let millis: Option<nat> = if unit == 0x48 {
        Some(value * 3_600_000)
    } else if unit == 0x4D {
        Some(value * 60_000)
    } else if unit == 0x53 {
        Some(value * 1_000)
    } else if unit == 0x6D {
        Some(value)
    } else if unit == 0x75 {
        Some(value / 1_000)
    } else if unit == 0x6E {
        Some(value / 1_000_000)
    } else {
        None
    };
    match millis {
        Some(m) => Some(
            if m > u32::MAX {
                u32::MAX
            } else {
                m as u32
            },
        ),
        None => None,
    }
}

/// The number that a text of decimal digits stands for.
pub open spec fn digits_value(s: Seq<u8>) -> nat
    decreases s.len(),
{
    if s.len() == 0 {
        0
    } else {
        digits_value(s.drop_last()) * 10 + (s.last() - 0x30) as nat
    }
}

/// The deadline in milliseconds that the value of a `grpc-timeout` header
/// stands for: from one to eight decimal digits, and the letter of a unit.
pub open spec fn timeout_of(value: Seq<u8>) -> Option<u32> {
    if value.len() < 2 || value.len() > 9 || !(forall|i: int|
        0 <= i < value.len() - 1 ==> 0x30 <= #[trigger] value[i] <= 0x39) {
        None
    } else {
        timeout_millis(digits_value(value.drop_last()), value.last())
    }
}

/// Reads the value of a `grpc-timeout` header: the deadline in
/// milliseconds, or `Err` where the value is malformed.
pub fn try_parse_grpc_timeout(val: &[u8]) -> (r: Result<u32, ()>)
    ensures
        match timeout_of(val@) {
            Some(millis) => r == Ok::<u32, ()>(millis),
            None => r.is_err(),
        },
{
    if val.len() < 2 {
        return Err(());
    }
    // The timeout value has at most 8 digits. Capping it there also keeps
    // the arithmetic below from ever overflowing.
    if val.len() - 1 > 8 {
        return Err(());
    }
    let digits = val.len() - 1;
    let mut timeout_value: u64 = 0;
    let mut i: usize = 0;
    while i < digits
        invariant
            digits == val@.len() - 1,
            digits <= 8,
            i <= digits,
            timeout_value == digits_value(val@.take(i as int)),
            timeout_value < pow10(i as nat),
            forall|j: int| 0 <= j < i ==> 0x30 <= #[trigger] val@[j] <= 0x39,
        decreases digits - i,
    {
        let b = val[i];
        if b < 0x30 || b > 0x39 {
            return Err(());
        }
        proof {
            assert(val@.take(i + 1).drop_last() =~= val@.take(i as int));
            lemma_pow10_bound(i as nat);
            lemma_pow10_bound(8);
            lemma_pow10_monotonic(i as nat, 8);
        }
        timeout_value = timeout_value * 10 + (b - 0x30) as u64;
        i += 1;
    }
    proof {
        assert(val@.take(i as int) =~= val@.drop_last());
        lemma_pow10_bound(8);
        lemma_pow10_monotonic(i as nat, 8);
    }
    let unit = val[digits];
    let millis: u64 = if unit == 0x48 {
        // Hours
        timeout_value * MILLIS_IN_HOUR
    } else if unit == 0x4D {
        // Minutes
        timeout_value * MILLIS_IN_MINUTE
    } else if unit == 0x53 {
        // Seconds
        timeout_value * 1000
    } else if unit == 0x6D {
        // Milliseconds
        timeout_value
    } else if unit == 0x75 {
        // Microseconds
        timeout_value / 1000
    } else if unit == 0x6E {
        // Nanoseconds
        timeout_value / 1000000
    } else {
        return Err(());
    };
    if millis > u32::MAX as u64 {
        Ok(u32::MAX)
    } else {
        Ok(millis as u32)
    }
}

/// Ten to the power `k`.
pub open spec fn pow10(k: nat) -> nat
    decreases k,
{
    if k == 0 {
        1
    } else {
        10 * pow10((k - 1) as nat)
    }
}

proof fn lemma_pow10_bound(k: nat)
    ensures
        pow10(k + 1) == 10 * pow10(k),
        pow10(k) >= 1,
        k == 8 ==> pow10(k) == 100_000_000,
    decreases k,
{
    if k > 0 {
        lemma_pow10_bound((k - 1) as nat);
    }
    reveal_with_fuel(pow10, 10);
}

proof fn lemma_pow10_monotonic(a: nat, b: nat)
    requires
        a <= b,
    ensures
        pow10(a) <= pow10(b),
    decreases b - a,
{
    if a < b {
        lemma_pow10_monotonic(a + 1, b);
        lemma_pow10_bound(a);
    }
}

/// Whether two string slices hold the same text.
pub fn str_eq(a: &str, b: &str) -> (r: bool)
    ensures
        r == (a@ == b@),
{
    proof {
        vstd::utf8::encode_utf8_decode_utf8(a@);
        vstd::utf8::encode_utf8_decode_utf8(b@);
    }
    same_bytes(a.as_bytes(), b.as_bytes())
}

/// Where a request goes.
pub enum Route<M> {
    /// To the handler of the method.
    Method(M),
    /// Nowhere: the service has no such method. The call ends as
    /// unimplemented.
    Unimplemented,
    /// Nowhere: the service is another one. The call ends as not found.
    NotFound,
}

impl<M> Route<M> {
    /// The status that the call ends with where the request goes nowhere.
    pub fn status(&self) -> (status: Option<GrpcStatus>)
        ensures
            status == match self {
                Route::Method(_) => None,
                Route::Unimplemented => Some(GrpcStatus::Unimplemented),
                Route::NotFound => Some(GrpcStatus::NotFound),
            },
    {
        match self {
            Route::Method(_) => None,
            Route::Unimplemented => Some(GrpcStatus::Unimplemented),
            Route::NotFound => Some(GrpcStatus::NotFound),
        }
    }
}

/// Finds the handler for a request for `method` of `service` at the
/// service `S`.
pub fn route<S: ServiceDef>(service: &str, method: &str) -> (r: Route<S::Methods>)
    ensures
        r == if service@ != S::NAME@ {
            Route::<S::Methods>::NotFound
        } else {
            match <S::Methods as MethodsDef>::spec_by_name(method@) {
                Some(m) => Route::Method(m),
                None => Route::Unimplemented,
            }
        },
{
    if !str_eq(service, S::NAME) {
        return Route::NotFound;
    }
    match S::method_by_name(method) {
        Some(m) => Route::Method(m),
        None => Route::Unimplemented,
    }
}

/// What the trailers say of a request that goes nowhere: the reason, and
/// the name of the method that was asked for.
pub open spec fn route_text<M>(route: Route<M>, method: Seq<char>) -> Option<Seq<char>> {
    match route {
        Route::Method(_) => None,
        Route::Unimplemented => Some("Service method is not implemented: "@ + method),
        Route::NotFound => Some("Service method is not found: "@ + method),
    }
}

/// The message that the call ends with where the request for `method` goes
/// nowhere.
pub fn route_message<M>(route: &Route<M>, method: &str) -> (m: Option<String>)
    ensures
        match route_text(*route, method@) {
            Some(text) => m matches Some(s) && s@ == text,
            None => m.is_none(),
        },
{
    match route {
        Route::Method(_) => None,
        Route::Unimplemented => {
            let mut text = String::from_str("Service method is not implemented: ");
            text.append(method);
            Some(text)
        },
        Route::NotFound => {
            let mut text = String::from_str("Service method is not found: ");
            text.append(method);
            Some(text)
        },
    }
}

/// Where a call goes at the service `S`, from the two names that the path
/// of the request held: to the method of that name where the service is
/// `S` and has one; nowhere, as unimplemented, where `S` has no method of
/// that name or the name is no text; nowhere, as not found, where the
/// service is another one.
pub open spec fn route_of<S: ServiceDef>(service: Seq<u8>, name: Seq<u8>) -> Route<S::Methods> {
    if service != encode_utf8(S::NAME@) {
        Route::NotFound
    } else if !valid_utf8(name) {
        Route::Unimplemented
    } else {
        match <S::Methods as MethodsDef>::spec_by_name(decode_utf8(name)) {
            Some(m) => Route::Method(m),
            None => Route::Unimplemented,
        }
    }
}

/// Finds the handler for the call that the dispatcher asks for with
/// `ServerAction::Dispatch`: the method `name` of `service`.
pub fn route_call<S: ServiceDef>(service: &[u8], name: &[u8]) -> (r: Route<S::Methods>)
    ensures
        r == route_of::<S>(service@, name@),
{
    if !same_bytes(service, S::NAME.as_bytes()) {
        return Route::NotFound;
    }
    match str_from_utf8(name) {
        Some(method) => {
            proof {
                vstd::utf8::encode_utf8_decode_utf8(method@);
            }
            route::<S>(S::NAME, method)
        },
        None => Route::Unimplemented,
    }
}

/// **Routing of a call.** The handler of a method is found only for the
/// service itself and a method that it has: a call for another service ends
/// as not found, and one for a method that the service does not have as
/// unimplemented, each with a message that names the method.
pub proof fn lemma_call_routing<S: ServiceDef>(service: Seq<u8>, name: Seq<char>)
    ensures
        service != encode_utf8(S::NAME@) ==> route_of::<S>(service, encode_utf8(name))
            is NotFound,
        service == encode_utf8(S::NAME@) ==> route_of::<S>(service, encode_utf8(name)) == match <
            S::Methods as MethodsDef
        >::spec_by_name(name) {
            Some(m) => Route::<S::Methods>::Method(m),
            None => Route::Unimplemented,
        },
        route_text(Route::<S::Methods>::NotFound, name) == Some(
            "Service method is not found: "@ + name,
        ),
        route_text(Route::<S::Methods>::Unimplemented, name) == Some(
            "Service method is not implemented: "@ + name,
        ),
{
    vstd::utf8::encode_utf8_decode_utf8(name);
    vstd::utf8::encode_utf8_valid_utf8(name);
}

/// **Path routing.** A request for a method that the service has goes to
/// the handler of that method; one for a method that it does not have ends
/// as unimplemented; one for another service ends as not found.
pub proof fn lemma_routing<S: ServiceDef>(
    service: Seq<char>,
    method: Seq<char>,
    r: Route<S::Methods>,
)
    requires
        r == if service != S::NAME@ {
            Route::<S::Methods>::NotFound
        } else {
            match <S::Methods as MethodsDef>::spec_by_name(method) {
                Some(m) => Route::Method(m),
                None => Route::Unimplemented,
            }
        },
    ensures
        service == S::NAME@ && <S::Methods as MethodsDef>::spec_by_name(method) is Some ==> r
            == Route::Method(<S::Methods as MethodsDef>::spec_by_name(method).unwrap()),
        service == S::NAME@ && <S::Methods as MethodsDef>::spec_by_name(method) is None ==> r
            is Unimplemented,
        service != S::NAME@ ==> r is NotFound,
{
}

/// What happens on the stream of a request.
pub enum ServerEvent<H> {
    /// The request headers, with the path among them, if any. With `eof`
    /// the stream ends with them.
    Headers { path: Option<Vec<u8>>, headers: H, eof: bool },
    /// A chunk of the body.
    Data(Bytes),
    /// The last chunk of the body.
    EofData(Bytes),
    /// The trailers of the request.
    EofTrailers(H),
    /// The stream failed.
    EofError,
    /// The connection is gone.
    Disconnect,
}

/// A request whose body is still coming in.
pub struct Pending<H> {
    pub name: Vec<u8>,
    pub service: Vec<u8>,
    pub data: Data,
    pub headers: H,
}

/// What a pending request stands for.
pub struct PendingView<H> {
    pub name: Seq<u8>,
    pub service: Seq<u8>,
    pub data: Seq<u8>,
    pub headers: H,
}

impl<H> View for Pending<H> {
    type V = PendingView<H>;

    open spec fn view(&self) -> PendingView<H> {
        PendingView {
            name: self.name@,
            service: self.service@,
            data: self.data@,
            headers: self.headers,
        }
    }
}

/// What the dispatcher does in answer to an event.
pub enum ServerAction<H> {
    /// Nothing.
    Nothing,
    /// Answers with the HTTP status 404 and ends the stream.
    NotFound,
    /// Answers with the HTTP status 200 and ends the call with trailers
    /// that carry the status and the message.
    Reject { status: GrpcStatus, message: &'static str },
    /// Gives up the stream as failed.
    Fail,
    /// Calls the method `name` of `service` with the message in `payload`,
    /// the headers of the request, and its trailers where it had any.
    Dispatch { service: Vec<u8>, name: Vec<u8>, payload: Bytes, headers: H, trailers: Option<H> },
}

/// What an action stands for.
pub enum ServerActionView<H> {
    Nothing,
    NotFound,
    Reject { status: GrpcStatus, message: Seq<char> },
    Fail,
    Dispatch {
        service: Seq<u8>,
        name: Seq<u8>,
        payload: Seq<u8>,
        headers: H,
        trailers: Option<H>,
    },
}

impl<H> View for ServerAction<H> {
    type V = ServerActionView<H>;

    open spec fn view(&self) -> ServerActionView<H> {
        match self {
            ServerAction::Nothing => ServerActionView::Nothing,
            ServerAction::NotFound => ServerActionView::NotFound,
            ServerAction::Reject { status, message } => ServerActionView::Reject {
                status: *status,
                message: message@,
            },
            ServerAction::Fail => ServerActionView::Fail,
            ServerAction::Dispatch {
                service,
                name,
                payload,
                headers,
                trailers,
            } => ServerActionView::Dispatch {
                service: service@,
                name: name@,
                payload: bytes_seq(payload),
                headers: *headers,
                trailers: *trailers,
            },
        }
    }
}

/// What the end of the body of a request leads to: the call of the method
/// with the message that the body frames, or the refusal of a body that
/// frames none or a compressed one.
pub open spec fn dispatch_of<H>(pending: PendingView<H>, body: Seq<u8>, trailers: Option<H>)
    -> ServerActionView<H> {
    match frame_parse(body) {
        Ok((compressed, payload)) => if compressed {
            ServerActionView::Reject {
                status: GrpcStatus::InvalidArgument,
                message: ERR_DECODE@,
            }
        } else {
            ServerActionView::Dispatch {
                service: pending.service,
                name: pending.name,
                payload: payload,
                headers: pending.headers,
                trailers: trailers,
            }
        },
        Err(_) => ServerActionView::Reject {
            status: GrpcStatus::InvalidArgument,
            message: ERR_DECODE@,
        },
    }
}

/// What an event does on a stream: what becomes of the request that is
/// pending there, if any, and what the dispatcher does.
///
/// Headers open a request, unless their path names no method, or they end
/// the stream; chunks are gathered; the end of the body or the trailers
/// lead to the call; a failed stream is given up; a lost connection drops
/// the request.
pub open spec fn serve_event<H>(pending: Option<PendingView<H>>, event: ServerEvent<H>) -> (
    Option<PendingView<H>>,
    ServerActionView<H>,
) {
    match event {
        ServerEvent::Headers { path, headers, eof } => {
            let parts = match path {
                Some(p) => path_parts(p@),
                None => None,
            };
            match parts {
                None => (pending, ServerActionView::NotFound),
                Some((service, name)) => if eof {
                    (
                        pending,
                        ServerActionView::Reject {
                            status: GrpcStatus::InvalidArgument,
                            message: ERR_DECODE@,
                        },
                    )
                } else {
                    (
                        Some(PendingView { name, service, data: Seq::empty(), headers }),
                        ServerActionView::Nothing,
                    )
                },
            }
        },
        ServerEvent::Data(chunk) => match pending {
            Some(p) => (
                Some(
                    PendingView {
                        name: p.name,
                        service: p.service,
                        data: p.data + bytes_seq(&chunk),
                        headers: p.headers,
                    },
                ),
                ServerActionView::Nothing,
            ),
            None => (None, ServerActionView::Nothing),
        },
        ServerEvent::EofData(chunk) => match pending {
            Some(p) => (None, dispatch_of(p, p.data + bytes_seq(&chunk), None)),
            None => (None, ServerActionView::Nothing),
        },
        ServerEvent::EofTrailers(trailers) => match pending {
            Some(p) => (None, dispatch_of(p, p.data, Some(trailers))),
            None => (None, ServerActionView::Nothing),
        },
        ServerEvent::EofError => match pending {
            Some(p) => (None, ServerActionView::Fail),
            None => (None, ServerActionView::Nothing),
        },
        ServerEvent::Disconnect => (None, ServerActionView::Nothing),
    }
}

/// The size of the chunk that an event brings.
pub open spec fn server_chunk_len<H>(event: ServerEvent<H>) -> nat {
    match event {
        ServerEvent::Data(chunk) => bytes_seq(&chunk).len(),
        ServerEvent::EofData(chunk) => bytes_seq(&chunk).len(),
        _ => 0,
    }
}

/// Copies a slice of bytes.
fn to_bytes(s: &[u8]) -> (v: Vec<u8>)
    ensures
        v@ == s@,
{
    vstd::slice::slice_to_vec(s)
}

/// The call that the body of a request leads to.
fn dispatch<H>(pending: Pending<H>, trailers: Option<H>) -> (action: ServerAction<H>)
    ensures
        action@ == dispatch_of(pending@, pending.data@, trailers),
{
    let Pending { name, service, data, headers } = pending;
    let mut data = data;
    let mut body = data.get();
    match split_frame(&mut body) {
        Ok((compressed, payload)) => {
            if compressed {
                ServerAction::Reject { status: GrpcStatus::InvalidArgument, message: ERR_DECODE }
            } else {
                ServerAction::Dispatch { service, name, payload, headers, trailers }
            }
        },
        Err(_) => ServerAction::Reject { status: GrpcStatus::InvalidArgument, message: ERR_DECODE },
    }
}

/// The requests whose bodies are coming in, by the numbers of their
/// streams.
pub struct Streams<H> {
    table: HashMap<u32, Pending<H>>,
}

impl<H> Streams<H> {
    /// The pending requests by the numbers of their streams.
    pub closed spec fn pending(&self) -> Map<u32, PendingView<H>> {
        self.table@.map_values(|p: Pending<H>| p@)
    }

    /// The request that is pending on stream `id`, if any.
    pub open spec fn pending_at(&self, id: u32) -> Option<PendingView<H>> {
        if self.pending().contains_key(id) {
            Some(self.pending()[id])
        } else {
            None
        }
    }

    /// Whether every body gathered so far fits in one buffer. It is so in
    /// a new table, and every event keeps it so.
    pub open spec fn within_limit(&self) -> bool {
        forall|id: u32| #[trigger]
            self.pending().contains_key(id) ==> self.pending()[id].data.len() <= BUF_LIMIT
    }

    /// No request is pending.
    pub fn new() -> (streams: Streams<H>)
        ensures
            streams.pending() == Map::<u32, PendingView<H>>::empty(),
            streams.within_limit(),
    {
        let streams = Streams { table: HashMap::new() };
        assert(streams.pending() =~= Map::empty());
        streams
    }

    /// The number of bytes of the body gathered so far for the request on
    /// stream `id`.
    pub fn pending_len(&self, id: u32) -> (n: Option<usize>)
        ensures
            match n {
                Some(n) => self.pending().contains_key(id) && n == self.pending()[id].data.len(),
                None => !self.pending().contains_key(id),
            },
    {
        broadcast use vstd::std_specs::hash::group_hash_axioms;

        match self.table.get(&id) {
            Some(pending) => Some(pending.data.len()),
            None => None,
        }
    }

    /// Takes an event on stream `id` and says what to do, as
    /// `serve_event` has it.
    ///
    /// An event that brings a chunk for a pending request must bring one
    /// that fits in one buffer together with what has been gathered. Any
    /// other event is taken as it comes.
    pub fn call(&mut self, id: u32, event: ServerEvent<H>) -> (action: ServerAction<H>)
        requires
            server_chunk_len(event) > 0 && old(self).pending().contains_key(id) ==> old(
                self,
            ).pending()[id].data.len() + server_chunk_len(event) <= BUF_LIMIT,
        ensures
            action@ == serve_event(old(self).pending_at(id), event).1,
            final(self).pending() == match serve_event(old(self).pending_at(id), event).0 {
                Some(p) => old(self).pending().insert(id, p),
                None => old(self).pending().remove(id),
            },
            old(self).within_limit() ==> final(self).within_limit(),
    {
        broadcast use vstd::std_specs::hash::group_hash_axioms;

        match event {
            ServerEvent::Headers { path, headers, eof } => {
                let names = match &path {
                    Some(p) => parse_path(p.as_slice()),
                    None => None,
                };
                match names {
                    None => {
                        // not found
                        proof {
                            lemma_keep(old(self).pending(), id);
                        }
                        ServerAction::NotFound
                    },
                    Some((service, name)) => {
                        // stream eof, cannot do anything
                        if eof {
                            proof {
                                lemma_keep(old(self).pending(), id);
                            }
                            return ServerAction::Reject {
                                status: GrpcStatus::InvalidArgument,
                                message: ERR_DECODE,
                            };
                        }
                        let pending = Pending {
                            headers,
                            data: Data::Empty,
                            name: to_bytes(name),
                            service: to_bytes(service),
                        };
                        let ghost p = pending@;
                        self.table.insert(id, pending);
                        assert(self.pending() =~= old(self).pending().insert(id, p));
                        ServerAction::Nothing
                    },
                }
            },
            ServerEvent::Data(chunk) => {
                match self.table.remove(&id) {
                    Some(mut pending) => {
                        pending.data.push(chunk);
                        let ghost p = pending@;
                        self.table.insert(id, pending);
                        assert(self.pending() =~= old(self).pending().insert(id, p));
                    },
                    None => {
                        assert(self.pending() =~= old(self).pending().remove(id));
                    },
                }
                ServerAction::Nothing
            },
            ServerEvent::EofData(chunk) => {
                let removed = self.table.remove(&id);
                assert(self.pending() =~= old(self).pending().remove(id));
                match removed {
                    Some(mut pending) => {
                        pending.data.push(chunk);
                        dispatch(pending, None)
                    },
                    None => ServerAction::Nothing,
                }
            },
            ServerEvent::EofTrailers(trailers) => {
                let removed = self.table.remove(&id);
                assert(self.pending() =~= old(self).pending().remove(id));
                match removed {
                    Some(pending) => dispatch(pending, Some(trailers)),
                    None => ServerAction::Nothing,
                }
            },
            ServerEvent::EofError => {
                let removed = self.table.remove(&id);
                assert(self.pending() =~= old(self).pending().remove(id));
                match removed {
                    Some(_) => ServerAction::Fail,
                    None => ServerAction::Nothing,
                }
            },
            ServerEvent::Disconnect => {
                self.table.remove(&id);
                assert(self.pending() =~= old(self).pending().remove(id));
                ServerAction::Nothing
            },
        }
    }
}

/// A table whose entry for `id` is put back, or left out where there was
/// none, is the table.
proof fn lemma_keep<V>(m: Map<u32, V>, id: u32)
    ensures
        m.contains_key(id) ==> m.insert(id, m[id]) == m,
        !m.contains_key(id) ==> m.remove(id) == m,
{
    if m.contains_key(id) {
        assert(m.insert(id, m[id]) =~= m);
    } else {
        assert(m.remove(id) =~= m);
    }
}

/// The deadline of a call in milliseconds, from the value of its
/// `grpc-timeout` header: none where there is no header, and the refusal of
/// the call where the header is malformed.
pub fn call_timeout(value: Option<&[u8]>) -> (r: Result<Option<u32>, (GrpcStatus, &'static str)>)
    ensures
        match value {
            None => r == Ok::<Option<u32>, (GrpcStatus, &'static str)>(None),
            Some(text) => match timeout_of(text@) {
                Some(millis) => r == Ok::<Option<u32>, (GrpcStatus, &'static str)>(Some(millis)),
                None => (r matches Err(e) && e.0 == GrpcStatus::InvalidArgument && e.1@
                    == ERR_DECODE_TIMEOUT@),
            },
        },
{
    match value {
        None => Ok(None),
        Some(text) => match try_parse_grpc_timeout(text) {
            Ok(millis) => Ok(Some(millis)),
            Err(_) => Err((GrpcStatus::InvalidArgument, ERR_DECODE_TIMEOUT)),
        },
    }
}

/// How the call of a method ended.
pub enum CallOutcome {
    /// The method gave its response.
    Done,
    /// The method failed with a status and a message.
    Failed { status: GrpcStatus, message: String },
    /// The method did not answer within the deadline.
    DeadlineExceeded,
}

/// The status and the message that the trailers carry for the outcome of a
/// call: success without a message; the status and the message of the
/// failure; or the exceeded deadline.
pub fn outcome_trailers(outcome: CallOutcome) -> (r: (GrpcStatus, Option<String>))
    ensures
        match outcome {
            CallOutcome::Done => r.0 == GrpcStatus::Okay && r.1.is_none(),
            CallOutcome::Failed { status, message } => r.0 == status && r.1 == Some(message),
            CallOutcome::DeadlineExceeded => r.0 == GrpcStatus::DeadlineExceeded && (
            r.1 matches Some(m) && m@ == ERR_DEADLINE@),
        },
{
    match outcome {
        CallOutcome::Done => (GrpcStatus::Okay, None),
        CallOutcome::Failed { status, message } => (status, Some(message)),
        CallOutcome::DeadlineExceeded => (
            GrpcStatus::DeadlineExceeded,
            Some(String::from_str(ERR_DEADLINE)),
        ),
    }
}

} // verus!
