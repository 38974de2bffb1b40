//! The length-prefixed message of gRPC: one byte that says whether the
//! payload is compressed, the length of the payload in four bytes, most
//! significant first, and the payload.

use crate::buf::{
    be32_bytes, be32_value, bytes_chunk, bytes_advance, bytes_get_u32, bytes_len,
    bytes_mut_extend_from_slice, bytes_mut_freeze, bytes_mut_put_u32, bytes_mut_put_u8,
    bytes_mut_seq, bytes_mut_with_capacity, bytes_seq, bytes_split_to_checked, BUF_LIMIT,
};
use crate::types::Message;
use ntex_bytes::{Bytes, BytesMut};
use vstd::prelude::*;

verus! {

/// The number of bytes in front of the payload.
pub const PREFIX_LEN: usize = 5;

/// The frame around an uncompressed payload.
pub open spec fn frame_bytes(payload: Seq<u8>) -> Seq<u8> {
    seq![0u8] + be32_bytes(payload.len() as u32) + payload
}

/// Why the body of a request or a response holds no message.
#[derive(Clone, Copy, Debug, PartialEq, Eq, Structural)]
pub enum FrameError {
    /// The body is shorter than the prefix.
    NoPrefix,
    /// The prefix announces more bytes than follow.
    Truncated,
}

/// The message at the front of a body: whether it is marked as compressed,
/// and its payload.
pub open spec fn frame_parse(s: Seq<u8>) -> Result<(bool, Seq<u8>), FrameError> {
    if s.len() < 5 {
        Err(FrameError::NoPrefix)
    } else if be32_value(s.skip(1)) > s.len() - 5 {
        Err(FrameError::Truncated)
    } else {
        Ok((s[0] != 0, s.subrange(5, 5 + be32_value(s.skip(1)))))
    }
}

/// The four bytes of a length, read back, are the length.
pub proof fn lemma_be32_round_trip(v: u32, rest: Seq<u8>)
    ensures
        be32_value(be32_bytes(v) + rest) == v,
        be32_bytes(v).len() == 4,
{
    let s = be32_bytes(v) + rest;
    assert(s[0] == (v / 0x100_0000) as u8);
    assert(s[1] == ((v / 0x1_0000) % 0x100) as u8);
    assert(s[2] == ((v / 0x100) % 0x100) as u8);
    assert(s[3] == (v % 0x100) as u8);
}

/// **Round trip of a frame.** A payload that was framed is found again at
/// the front of the body, unmarked, whatever follows it.
pub proof fn lemma_frame_round_trip(payload: Seq<u8>, rest: Seq<u8>)
    requires
        payload.len() <= u32::MAX,
    ensures
        frame_parse(frame_bytes(payload) + rest) == Ok::<(bool, Seq<u8>), FrameError>(
            (false, payload),
        ),
        frame_bytes(payload).len() == payload.len() + 5,
{
    let s = frame_bytes(payload) + rest;
    let len = payload.len() as u32;
    lemma_be32_round_trip(len, payload + rest);
    assert(s.skip(1) =~= be32_bytes(len) + (payload + rest));
    assert(s.subrange(5, 5 + len) =~= payload);
}

/// Appends the frame around `payload` to the buffer.
pub fn put_frame(payload: &Bytes, buf: &mut BytesMut)
    requires
        bytes_seq(payload).len() <= u32::MAX,
        bytes_mut_seq(old(buf)).len() + bytes_seq(payload).len() + 5 <= BUF_LIMIT,
    ensures
        bytes_mut_seq(final(buf)) == bytes_mut_seq(old(buf)) + frame_bytes(bytes_seq(payload)),
{
    let len = bytes_len(payload);
    bytes_mut_put_u8(buf, 0);  // compression
    bytes_mut_put_u32(buf, len as u32);  // length
    bytes_mut_extend_from_slice(buf, bytes_chunk(payload));
    assert(bytes_mut_seq(buf) =~= bytes_mut_seq(old(buf)) + frame_bytes(bytes_seq(payload)));
}

/// The body that carries the payload: its frame as a buffer of its own.
pub fn frame_payload(payload: &Bytes) -> (body: Option<Bytes>)
    ensures
        match body {
            Some(b) => bytes_seq(&b) == frame_bytes(bytes_seq(payload)),
            None => bytes_seq(payload).len() + 5 > BUF_LIMIT,
        },
{
    let len = bytes_len(payload);
    if len > BUF_LIMIT - PREFIX_LEN {
        return None;
    }
    let mut buf = bytes_mut_with_capacity(len + PREFIX_LEN);
    put_frame(payload, &mut buf);
    assert(Seq::<u8>::empty() + frame_bytes(bytes_seq(payload)) =~= frame_bytes(
        bytes_seq(payload),
    ));
    Some(bytes_mut_freeze(buf))
}

/// The body that carries a message: the frame around its encoding.
pub fn frame_message<M: Message>(val: &M) -> (body: Bytes)
    requires
        M::wire(val.model()).len() + 5 <= BUF_LIMIT,
    ensures
        bytes_seq(&body) == frame_bytes(M::wire(val.model())),
{
    let len = val.encoded_len();
    let mut buf = bytes_mut_with_capacity(len + PREFIX_LEN);
    bytes_mut_put_u8(&mut buf, 0);  // compression
    bytes_mut_put_u32(&mut buf, len as u32);  // length
    val.write(&mut buf);
    assert(bytes_mut_seq(&buf) =~= frame_bytes(M::wire(val.model())));
    bytes_mut_freeze(buf)
}

/// Takes the message at the front of the body: whether it is marked as
/// compressed, and its payload. The body keeps what follows the message. A
/// body that is shorter than the prefix is left as it was; one that is cut
/// short behind it loses the prefix.
pub fn split_frame(data: &mut Bytes) -> (r: Result<(bool, Bytes), FrameError>)
    ensures
        match frame_parse(bytes_seq(old(data))) {
            Ok((compressed, payload)) => r matches Ok(f) && f.0 == compressed && bytes_seq(&f.1)
                == payload && bytes_seq(final(data)) == bytes_seq(old(data)).skip(
                5 + payload.len() as int,
            ),
            Err(FrameError::NoPrefix) => r == Err::<(bool, Bytes), FrameError>(
                FrameError::NoPrefix,
            ) && bytes_seq(final(data)) == bytes_seq(old(data)),
            Err(FrameError::Truncated) => r == Err::<(bool, Bytes), FrameError>(
                FrameError::Truncated,
            ) && bytes_seq(final(data)) == bytes_seq(old(data)).skip(5),
        },
{
    let ghost s = bytes_seq(data);
    if bytes_len(data) < PREFIX_LEN {
        return Err(FrameError::NoPrefix);
    }
    let flag = bytes_chunk(data)[0];
    bytes_advance(data, 1);
    let len = bytes_get_u32(data);
    assert(bytes_seq(data) =~= s.skip(5));
    match bytes_split_to_checked(data, len as usize) {
        Some(payload) => {
            assert(bytes_seq(&payload) =~= s.subrange(5, 5 + len));
            assert(bytes_seq(data) =~= s.skip(5 + len));
            Ok((flag != 0, payload))
        },
        None => Err(FrameError::Truncated),
    }
}

} // verus!
