//! How the events on the streams of a connection become the responses of
//! the calls that wait for them.

use crate::buf::{bytes_len, bytes_seq, BUF_LIMIT};
use crate::encoding::{DecodeError, Failure};
use crate::frame::{frame_parse, split_frame, FrameError};
use crate::status::GrpcStatus;
use crate::types::Message;
use crate::utils::Data;
use ntex_bytes::Bytes;
use std::collections::HashMap;
use vstd::prelude::*;

verus! {

/// The number that a text of decimal digits stands for, read from the left.
pub open spec fn u8_text_value(s: Seq<u8>) -> nat
    decreases s.len(),
{
    if s.len() == 0 {
        0
    } else {
        u8_text_value(s.drop_last()) * 10 + (s.last() - 0x30) as nat
    }
}

/// The number from 0 to 255 that a text stands for: the text is made of
/// decimal digits, at least one, and says no more than 255.
pub open spec fn parse_u8_text(s: Seq<u8>) -> Option<u8> {
    if s.len() > 0 && (forall|i: int| 0 <= i < s.len() ==> 0x30 <= #[trigger] s[i] <= 0x39)
        && u8_text_value(s) <= 255 {
        Some(u8_text_value(s) as u8)
    } else {
        None
    }
}

/// The status that the value of a `grpc-status` header stands for: a number
/// from 0 to 16 in decimal digits. Anything else is malformed.
pub open spec fn grpc_status_of(value: Seq<u8>) -> Result<GrpcStatus, ()> {
    match parse_u8_text(value) {
        Some(code) => match GrpcStatus::spec_from_code(code) {
            Some(status) => Ok(status),
            None => Err(()),
        },
        None => Err(()),
    }
}

/// A number that has grown beyond 255 stays beyond it.
proof fn lemma_u8_text_grows(s: Seq<u8>, k: int)
    requires
        0 <= k <= s.len(),
        forall|i: int| 0 <= i < s.len() ==> 0x30 <= #[trigger] s[i] <= 0x39,
    ensures
        u8_text_value(s.take(k)) <= u8_text_value(s),
    decreases s.len() - k,
{
    if k < s.len() {
        lemma_u8_text_grows(s, k + 1);
        assert(s.take(k + 1).drop_last() =~= s.take(k));
    } else {
        assert(s.take(k) =~= s);
    }
}

/// Reads the value of a `grpc-status` header, where there is one.
pub fn check_grpc_status(value: Option<&[u8]>) -> (r: Option<Result<GrpcStatus, ()>>)
    ensures
        match value {
            Some(text) => r == Some(grpc_status_of(text@)),
            None => r.is_none(),
        },
{
    let text = match value {
        Some(text) => text,
        None => {
            return None;
        },
    };
    if text.len() == 0 {
        return Some(Err(()));
    }
    let mut code: u16 = 0;
    let mut i: usize = 0;
    while i < text.len()
        invariant
            value == Some(text),
            i <= text@.len(),
            code <= 255,
            code == u8_text_value(text@.take(i as int)),
            forall|j: int| 0 <= j < i ==> 0x30 <= #[trigger] text@[j] <= 0x39,
        decreases text@.len() - i,
    {
        let b = text[i];
        if b < 0x30 || b > 0x39 {
            return Some(Err(()));
        }
        proof {
            assert(text@.take(i + 1).drop_last() =~= text@.take(i as int));
        }
        code = code * 10 + (b - 0x30) as u16;
        if code > 255 {
            proof {
                if forall|j: int| 0 <= j < text@.len() ==> 0x30 <= #[trigger] text@[j] <= 0x39 {
                    lemma_u8_text_grows(text@, i + 1);
                }
            }
            return Some(Err(()));
        }
        i += 1;
    }
    assert(text@.take(i as int) =~= text@);
    match GrpcStatus::try_from(code as u8) {
        Ok(status) => Some(Ok(status)),
        Err(_) => Some(Err(())),
    }
}

/// What happens on the stream of a call.
pub enum ClientEvent<H> {
    /// The response headers, with the HTTP status and the value of the
    /// `grpc-status` header among them, if any. With `eof` the stream ends
    /// with them.
    Headers { status: Option<u16>, headers: H, grpc_status: Option<Vec<u8>>, eof: bool },
    /// A chunk of the body.
    Data(Bytes),
    /// The last chunk of the body.
    EofData(Bytes),
    /// The trailers, with the value of the `grpc-status` header among them,
    /// if any.
    EofTrailers { trailers: H, grpc_status: Option<Vec<u8>> },
    /// The stream failed.
    EofError,
    /// The connection is gone.
    Disconnect,
    /// Nothing: the stream is of no more interest.
    Empty,
}

/// What a call that waits for its response has seen so far.
pub struct Waiter<H> {
    pub data: Data,
    pub status: Option<u16>,
    pub headers: Option<H>,
}

/// What a waiter stands for.
pub struct WaiterView<H> {
    pub data: Seq<u8>,
    pub status: Option<u16>,
    pub headers: Option<H>,
}

impl<H> View for Waiter<H> {
    type V = WaiterView<H>;

    open spec fn view(&self) -> WaiterView<H> {
        WaiterView { data: self.data@, status: self.status, headers: self.headers }
    }
}

/// The response as it came over the stream: the HTTP status, the body, the
/// headers and the trailers.
pub struct Reply<H> {
    pub status: Option<u16>,
    pub data: Bytes,
    pub headers: Option<H>,
    pub trailers: Option<H>,
}

/// What a reply stands for.
pub struct ReplyView<H> {
    pub status: Option<u16>,
    pub data: Seq<u8>,
    pub headers: Option<H>,
    pub trailers: Option<H>,
}

impl<H> View for Reply<H> {
    type V = ReplyView<H>;

    open spec fn view(&self) -> ReplyView<H> {
        ReplyView {
            status: self.status,
            data: bytes_seq(&self.data),
            headers: self.headers,
            trailers: self.trailers,
        }
    }
}

/// Why a call failed.
pub enum ClientError<H> {
    /// The caller gave the call up.
    Canceled,
    /// The response could not be decoded.
    Decode(DecodeError),
    /// The connection failed.
    Operation,
    /// The stream failed.
    Stream,
    /// The HTTP status is no success: the status, the headers and the body.
    Response(Option<u16>, Option<H>, Bytes),
    /// The stream ended where a message was due: the HTTP status and the
    /// headers.
    UnexpectedEof(Option<u16>, Option<H>),
    /// The call ended with a status other than success: the status and the
    /// headers that carried it.
    GrpcStatus(GrpcStatus, H),
}

/// What a failure of a call stands for.
pub enum ClientErrorView<H> {
    Canceled,
    Decode(Failure),
    Operation,
    Stream,
    Response(Option<u16>, Option<H>, Seq<u8>),
    UnexpectedEof(Option<u16>, Option<H>),
    GrpcStatus(GrpcStatus, H),
}

impl<H> View for ClientError<H> {
    type V = ClientErrorView<H>;

    open spec fn view(&self) -> ClientErrorView<H> {
        match self {
            ClientError::Canceled => ClientErrorView::Canceled,
            ClientError::Decode(e) => ClientErrorView::Decode(e@),
            ClientError::Operation => ClientErrorView::Operation,
            ClientError::Stream => ClientErrorView::Stream,
            ClientError::Response(status, headers, body) => ClientErrorView::Response(
                *status,
                *headers,
                bytes_seq(body),
            ),
            ClientError::UnexpectedEof(status, headers) => ClientErrorView::UnexpectedEof(
                *status,
                *headers,
            ),
            ClientError::GrpcStatus(status, headers) => ClientErrorView::GrpcStatus(
                *status,
                *headers,
            ),
        }
    }
}

/// The text of the complaint about a `grpc-status` header that holds no
/// status.
pub open spec fn bad_status_text() -> Seq<char> {
    "Cannot parse grpc status"@
}

/// What the end of a stream with the given `grpc-status` header means,
/// where it means a failure: a status other than success fails the call
/// with that status, and a malformed header fails it as undecodable.
pub open spec fn status_failure<H>(grpc_status: Option<Vec<u8>>, headers: H) -> Option<
    ClientErrorView<H>,
> {
    match grpc_status {
        Some(value) => match grpc_status_of(value@) {
            Ok(status) => if status != GrpcStatus::Okay {
                Some(ClientErrorView::GrpcStatus(status, headers))
            } else {
                None
            },
            Err(_) => Some(ClientErrorView::Decode(Failure::plain(bad_status_text()))),
        },
        None => None,
    }
}

/// What an event does to the call that waits on its stream: what the waiter
/// becomes, if the call goes on waiting, and how the call ends, if it does.
///
/// Headers are kept, chunks are gathered; the end of the body completes
/// the call with what was gathered; trailers complete it unless they carry
/// a status other than success; headers that end the stream fail it, with
/// the status they carry or as an unexpected end; a failed stream or
/// connection fails it.
pub open spec fn handle_event<H>(waiter: WaiterView<H>, event: ClientEvent<H>) -> (
    Option<WaiterView<H>>,
    Option<Result<ReplyView<H>, ClientErrorView<H>>>,
) {
    match event {
        ClientEvent::Headers { status, headers, grpc_status, eof } => if eof {
            match status_failure(grpc_status, headers) {
                Some(failure) => (None, Some(Err(failure))),
                None => (None, Some(Err(ClientErrorView::UnexpectedEof(status, Some(headers))))),
            }
        } else {
            (
                Some(WaiterView { data: waiter.data, status: status, headers: Some(headers) }),
                None,
            )
        },
        ClientEvent::Data(chunk) => (
            Some(
                WaiterView {
                    data: waiter.data + bytes_seq(&chunk),
                    status: waiter.status,
                    headers: waiter.headers,
                },
            ),
            None,
        ),
        ClientEvent::EofData(chunk) => (
            None,
            Some(
                Ok(
                    ReplyView {
                        status: waiter.status,
                        data: waiter.data + bytes_seq(&chunk),
                        headers: waiter.headers,
                        trailers: None,
                    },
                ),
            ),
        ),
        ClientEvent::EofTrailers { trailers, grpc_status } => match status_failure(
            grpc_status,
            trailers,
        ) {
            Some(failure) => (None, Some(Err(failure))),
            None => (
                None,
                Some(
                    Ok(
                        ReplyView {
                            status: waiter.status,
                            data: waiter.data,
                            headers: waiter.headers,
                            trailers: Some(trailers),
                        },
                    ),
                ),
            ),
        },
        ClientEvent::EofError => (None, Some(Err(ClientErrorView::Stream))),
        ClientEvent::Disconnect => (None, Some(Err(ClientErrorView::Operation))),
        ClientEvent::Empty => (None, None),
    }
}

/// The size of the chunk that an event brings.
pub open spec fn chunk_len<H>(event: ClientEvent<H>) -> nat {
    match event {
        ClientEvent::Data(chunk) => bytes_seq(&chunk).len(),
        ClientEvent::EofData(chunk) => bytes_seq(&chunk).len(),
        _ => 0,
    }
}

/// The failure that the end of a stream with the given `grpc-status` header
/// means, if it means one.
fn status_error<H>(grpc_status: Option<Vec<u8>>, headers: H) -> (r: Result<H, ClientError<H>>)
    ensures
        match status_failure(grpc_status, headers) {
            Some(failure) => r matches Err(e) && e@ == failure,
            None => r == Ok::<H, ClientError<H>>(headers),
        },
{
    let checked = match &grpc_status {
        Some(value) => check_grpc_status(Some(value.as_slice())),
        None => check_grpc_status(None),
    };
    match checked {
        Some(Ok(status)) => {
            if status != GrpcStatus::Okay {
                return Err(ClientError::GrpcStatus(status, headers));
            }
            Ok(headers)
        },
        Some(Err(_)) => Err(ClientError::Decode(DecodeError::new("Cannot parse grpc status"))),
        None => Ok(headers),
    }
}

/// The calls that wait for their responses, by the numbers of their
/// streams.
pub struct Inflight<H> {
    table: HashMap<u32, Waiter<H>>,
}

impl<H> Inflight<H> {
    /// The waiters by the numbers of their streams.
    pub closed spec fn waiters(&self) -> Map<u32, WaiterView<H>> {
        self.table@.map_values(|w: Waiter<H>| w@)
    }

    /// Whether every body gathered so far fits in one buffer. It is so in
    /// a new table, and every call and every event keeps it so.
    pub open spec fn within_limit(&self) -> bool {
        forall|id: u32| #[trigger]
            self.waiters().contains_key(id) ==> self.waiters()[id].data.len() <= BUF_LIMIT
    }

    /// No call waits.
    pub fn new() -> (inflight: Inflight<H>)
        ensures
            inflight.waiters() == Map::<u32, WaiterView<H>>::empty(),
            inflight.within_limit(),
    {
        let inflight = Inflight { table: HashMap::new() };
        assert(inflight.waiters() =~= Map::empty());
        inflight
    }

    /// Has a call wait on stream `id`, with nothing seen yet. A call that
    /// waited on the stream before is forgotten.
    pub fn register(&mut self, id: u32)
        ensures
            final(self).waiters() == old(self).waiters().insert(
                id,
                WaiterView { data: Seq::empty(), status: None, headers: None },
            ),
            old(self).within_limit() ==> final(self).within_limit(),
    {
        broadcast use vstd::std_specs::hash::group_hash_axioms;

        self.table.insert(id, Waiter { data: Data::Empty, status: None, headers: None });
        assert(self.waiters() =~= old(self).waiters().insert(
            id,
            WaiterView { data: Seq::empty(), status: None, headers: None },
        ));
    }

    /// Whether a call waits on stream `id`.
    pub fn is_waiting(&self, id: u32) -> (b: bool)
        ensures
            b == self.waiters().contains_key(id),
    {
        broadcast use vstd::std_specs::hash::group_hash_axioms;

        self.table.contains_key(&id)
    }

    /// The number of bytes of the body gathered so far for the call on
    /// stream `id`.
    pub fn pending_len(&self, id: u32) -> (n: Option<usize>)
        ensures
            match n {
                Some(n) => self.waiters().contains_key(id) && n == self.waiters()[id].data.len(),
                None => !self.waiters().contains_key(id),
            },
    {
        broadcast use vstd::std_specs::hash::group_hash_axioms;

        match self.table.get(&id) {
            Some(waiter) => Some(waiter.data.len()),
            None => None,
        }
    }

    /// Gives up the call on stream `id`: nothing waits on the stream any
    /// more. Says whether a call did.
    pub fn cancel(&mut self, id: u32) -> (waited: bool)
        ensures
            waited == old(self).waiters().contains_key(id),
            final(self).waiters() == old(self).waiters().remove(id),
            old(self).within_limit() ==> final(self).within_limit(),
    {
        broadcast use vstd::std_specs::hash::group_hash_axioms;

        let removed = self.table.remove(&id);
        assert(self.waiters() =~= old(self).waiters().remove(id));
        removed.is_some()
    }

    /// Takes the call on stream `id` out with what it has seen so far, where
    /// the stream ends without a word.
    pub fn take(&mut self, id: u32) -> (waiter: Option<Waiter<H>>)
        ensures
            match waiter {
                Some(w) => old(self).waiters().contains_key(id) && w@ == old(self).waiters()[id],
                None => !old(self).waiters().contains_key(id),
            },
            final(self).waiters() == old(self).waiters().remove(id),
            old(self).within_limit() ==> final(self).within_limit(),
    {
        broadcast use vstd::std_specs::hash::group_hash_axioms;

        let removed = self.table.remove(&id);
        assert(self.waiters() =~= old(self).waiters().remove(id));
        removed
    }

    /// Takes an event on stream `id`: the call that waits there goes on
    /// waiting or ends, as `handle_event` says; where no call waits there,
    /// nothing happens.
    ///
    /// An event that brings a chunk for a call that waits must bring one
    /// that fits in one buffer together with what has been gathered. Any
    /// other event is taken as it comes.
    pub fn handle_message(&mut self, id: u32, event: ClientEvent<H>) -> (r: Option<
        Result<Reply<H>, ClientError<H>>,
    >)
        requires
            chunk_len(event) > 0 && old(self).waiters().contains_key(id) ==> old(
                self,
            ).waiters()[id].data.len() + chunk_len(event) <= BUF_LIMIT,
        ensures
            !old(self).waiters().contains_key(id) ==> r.is_none() && final(self).waiters() == old(
                self,
            ).waiters(),
            old(self).waiters().contains_key(id) ==> {
                let (waiter, outcome) = handle_event(old(self).waiters()[id], event);
                &&& final(self).waiters() == match waiter {
                    Some(w) => old(self).waiters().insert(id, w),
                    None => old(self).waiters().remove(id),
                }
                &&& match outcome {
                    Some(Ok(reply)) => r matches Some(Ok(v)) && v@ == reply,
                    Some(Err(failure)) => r matches Some(Err(e)) && e@ == failure,
                    None => r.is_none(),
                }
            },
            old(self).within_limit() ==> final(self).within_limit(),
    {
        broadcast use vstd::std_specs::hash::group_hash_axioms;

        let mut waiter = match self.table.remove(&id) {
            Some(waiter) => waiter,
            None => {
                assert(self.waiters() =~= old(self).waiters());
                return None;
            },
        };
        assert(self.waiters() =~= old(self).waiters().remove(id));
        assert(waiter@ == old(self).waiters()[id]);
        match event {
            ClientEvent::Headers { status, headers, grpc_status, eof } => {
                if eof {
                    match status_error(grpc_status, headers) {
                        Err(e) => Some(Err(e)),
                        Ok(headers) => Some(Err(ClientError::UnexpectedEof(status, Some(headers)))),
                    }
                } else {
                    waiter.status = status;
                    waiter.headers = Some(headers);
                    let ghost w = waiter@;
                    self.table.insert(id, waiter);
                    assert(self.waiters() =~= old(self).waiters().insert(id, w));
                    None
                }
            },
            ClientEvent::Data(chunk) => {
                waiter.data.push(chunk);
                let ghost w = waiter@;
                self.table.insert(id, waiter);
                assert(self.waiters() =~= old(self).waiters().insert(id, w));
                None
            },
            ClientEvent::EofData(chunk) => {
                waiter.data.push(chunk);
                Some(
                    Ok(
                        Reply {
                            status: waiter.status,
                            data: waiter.data.get(),
                            headers: waiter.headers,
                            trailers: None,
                        },
                    ),
                )
            },
            ClientEvent::EofTrailers { trailers, grpc_status } => {
                match status_error(grpc_status, trailers) {
                    Err(e) => Some(Err(e)),
                    Ok(trailers) => Some(
                        Ok(
                            Reply {
                                status: waiter.status,
                                data: waiter.data.get(),
                                headers: waiter.headers,
                                trailers: Some(trailers),
                            },
                        ),
                    ),
                }
            },
            ClientEvent::EofError => Some(Err(ClientError::Stream)),
            ClientEvent::Disconnect => Some(Err(ClientError::Operation)),
            ClientEvent::Empty => None,
        }
    }
}

/// What a reply amounts to for the caller: the message in its body and what
/// is left of the body behind it, or why there is none. The HTTP status is
/// a success, from 200 to 299; the body opens with a frame whose payload
/// decodes as the message. What follows the frame is not looked at.
pub open spec fn reply_outcome<M: Message, H>(reply: ReplyView<H>) -> Result<
    (M::Model, nat),
    ClientErrorView<H>,
> {
    if !(reply.status matches Some(code) && 200 <= code < 300) {
        Err(ClientErrorView::Response(reply.status, reply.headers, reply.data))
    } else {
        match frame_parse(reply.data) {
            Err(FrameError::NoPrefix) => Err(
                ClientErrorView::UnexpectedEof(reply.status, reply.headers),
            ),
            Err(FrameError::Truncated) => Err(
                ClientErrorView::Decode(Failure::plain("Not enough data"@)),
            ),
            Ok((_, payload)) => match M::parse(payload) {
                Ok(m) => Ok((m, (reply.data.len() - 5 - payload.len()) as nat)),
                Err(f) => Err(ClientErrorView::Decode(f)),
            },
        }
    }
}

/// Turns the reply to a call into its result: the message, the headers,
/// the trailers, and the number of bytes left behind the message.
pub fn complete<M: Message, H>(reply: Reply<H>) -> (r: Result<
    (M, Option<H>, Option<H>, usize),
    ClientError<H>,
>)
    ensures
        match reply_outcome::<M, H>(reply@) {
            Ok((m, rest)) => r matches Ok(v) && v.0.model() == m && v.1 == reply.headers && v.2
                == reply.trailers && v.3 == rest,
            Err(failure) => r matches Err(e) && e@ == failure,
        },
{
    let Reply { status, data, headers, trailers } = reply;
    let mut data = data;
    match status {
        Some(st) => {
            if !(200 <= st && st < 300) {
                return Err(ClientError::Response(Some(st), headers, data));
            }
        },
        None => {
            return Err(ClientError::Response(None, headers, data));
        },
    }
    let (_compressed, mut payload) = match split_frame(&mut data) {
        Ok(frame) => frame,
        Err(FrameError::NoPrefix) => {
            return Err(ClientError::UnexpectedEof(status, headers));
        },
        Err(FrameError::Truncated) => {
            return Err(ClientError::Decode(DecodeError::incomplete()));
        },
    };
    match M::read(&mut payload) {
        Ok(output) => Ok((output, headers, trailers, bytes_len(&data))),
        Err(e) => Err(ClientError::Decode(e)),
    }
}

/// **Status propagation.** Trailers with `grpc-status` 7 fail the call as
/// denied, with `grpc-status` 0 they complete it, and headers that end the
/// stream without a `grpc-status` fail it as an unexpected end.
pub proof fn lemma_status_propagation<H>(
    waiter: WaiterView<H>,
    trailers: H,
    status: Option<u16>,
    seven: Vec<u8>,
    zero: Vec<u8>,
)
    requires
        seven@ == seq![0x37u8],
        zero@ == seq![0x30u8],
    ensures
        handle_event(
            waiter,
            ClientEvent::EofTrailers { trailers, grpc_status: Some(seven) },
        ).1 == Some(
            Err::<ReplyView<H>, ClientErrorView<H>>(
                ClientErrorView::GrpcStatus(GrpcStatus::PermissionDenied, trailers),
            ),
        ),
        handle_event(
            waiter,
            ClientEvent::EofTrailers { trailers, grpc_status: Some(zero) },
        ).1 matches Some(Ok(_)),
        handle_event(
            waiter,
            ClientEvent::Headers { status, headers: trailers, grpc_status: None, eof: true },
        ).1 == Some(
            Err::<ReplyView<H>, ClientErrorView<H>>(
                ClientErrorView::UnexpectedEof(status, Some(trailers)),
            ),
        ),
{
    reveal_with_fuel(u8_text_value, 3);
    assert(seven@.drop_last() =~= Seq::<u8>::empty());
    assert(zero@.drop_last() =~= Seq::<u8>::empty());
    assert(u8_text_value(seven@) == 7);
    assert(u8_text_value(zero@) == 0);
}

/// **Cancellation.** Once a call is given up, nothing waits on its stream,
/// and the other calls wait as before.
pub proof fn lemma_cancel_removes<H>(waiters: Map<u32, WaiterView<H>>, id: u32, other: u32)
    requires
        other != id,
    ensures
        !waiters.remove(id).contains_key(id),
        waiters.remove(id).contains_key(other) == waiters.contains_key(other),
        waiters.contains_key(other) ==> waiters.remove(id)[other] == waiters[other],
{
}

} // verus!
