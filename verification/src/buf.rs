//! The byte buffers of `ntex_bytes`, as the codec sees them.
//!
//! A buffer is a sequence of bytes. The functions of this file that are
//! marked `external_body` are not proved: each states what the buffer
//! operation it names does to that sequence. The public functions are proved
//! from those statements.

use ntex_bytes::{Buf, BufMut, Bytes, BytesMut};
use vstd::prelude::*;
use vstd::string::StringSliceAdditionalSpecFns;

verus! {

#[verifier::external_type_specification]
#[verifier::external_body]
pub struct ExBytes(Bytes);

#[verifier::external_type_specification]
#[verifier::external_body]
pub struct ExBytesMut(BytesMut);

/// A `ByteString` of `ntex_bytes`: an immutable buffer whose bytes are
/// UTF-8 text.
#[verifier::external_body]
#[derive(Debug, PartialEq, Eq, Hash)]
pub struct ByteString {
    inner: ntex_bytes::ByteString,
}

/// The bytes a `Bytes` holds, first to last.
pub uninterp spec fn bytes_seq(b: &Bytes) -> Seq<u8>;

/// The bytes a `BytesMut` holds, first to last.
pub uninterp spec fn bytes_mut_seq(b: &BytesMut) -> Seq<u8>;

/// The bytes a `ByteString` holds, first to last.
pub uninterp spec fn byte_string_seq(s: &ByteString) -> Seq<u8>;

/// The most bytes a `BytesMut` is ever asked to hold here: the buffer keeps
/// its sizes in 32 bits and a header in front of the data, and panics when
/// asked to grow beyond that.
pub const BUF_LIMIT: usize = 0xFFFF_FFDF;

/// The four bytes of `v`, most significant first.
pub open spec fn be32_bytes(v: u32) -> Seq<u8> {
    seq![
        (v / 0x100_0000) as u8,
        ((v / 0x1_0000) % 0x100) as u8,
        ((v / 0x100) % 0x100) as u8,
        (v % 0x100) as u8,
    ]
}

/// The number whose four bytes, most significant first, open `s`.
pub open spec fn be32_value(s: Seq<u8>) -> u32 {
    (s[0] as u32 * 0x100_0000 + s[1] as u32 * 0x1_0000 + s[2] as u32 * 0x100 + s[3] as u32) as u32
}

impl ByteString {
    /// The empty text.
    pub fn new() -> (s: ByteString)
        ensures
            byte_string_seq(&s) == Seq::<u8>::empty(),
    {
        byte_string_new()
    }

    /// The text of a string slice.
    pub fn from_static(src: &'static str) -> (s: ByteString)
        ensures
            byte_string_seq(&s) == src.spec_bytes(),
    {
        byte_string_from_static(src)
    }

    /// The text that the buffer holds, where it holds UTF-8.
    pub fn try_from(bytes: Bytes) -> (r: Result<ByteString, ()>)
        ensures
            r.is_ok() <==> vstd::utf8::valid_utf8(bytes_seq(&bytes)),
            r matches Ok(s) ==> byte_string_seq(&s) == bytes_seq(&bytes),
    {
        match byte_string_from_bytes(bytes) {
            Some(s) => Ok(s),
            None => Err(()),
        }
    }

    /// The text as a string slice.
    pub fn as_str(&self) -> (s: &str)
        ensures
            s.spec_bytes() == byte_string_seq(self),
    {
        byte_string_as_str(self)
    }

    /// The bytes of the text.
    pub fn as_slice(&self) -> (s: &[u8])
        ensures
            s@ == byte_string_seq(self),
    {
        byte_string_as_slice(self)
    }

    /// The bytes of the text as a buffer.
    pub fn into_bytes(self) -> (b: Bytes)
        ensures
            bytes_seq(&b) == byte_string_seq(&self),
    {
        byte_string_into_bytes(self)
    }

    /// The number of bytes of the text.
    pub fn len(&self) -> (n: usize)
        ensures
            n == byte_string_seq(self).len(),
    {
        byte_string_as_slice(self).len()
    }

    /// Whether the text is empty.
    pub fn is_empty(&self) -> (e: bool)
        ensures
            e == (byte_string_seq(self).len() == 0),
    {
        byte_string_as_slice(self).len() == 0
    }
}

/// The number of bytes that the buffer holds.
pub fn held(b: &Bytes) -> (n: usize)
    ensures
        n == bytes_seq(b).len(),
{
    bytes_len(b)
}

/// The number of bytes that the growing buffer holds.
pub fn held_mut(b: &BytesMut) -> (n: usize)
    ensures
        n == bytes_mut_seq(b).len(),
{
    bytes_mut_len(b)
}

/// Whether the growing buffer has room for `more` bytes.
pub fn has_room(b: &BytesMut, more: usize) -> (r: bool)
    ensures
        r == (bytes_mut_seq(b).len() + more <= BUF_LIMIT),
{
    let have = bytes_mut_len(b);
    have <= BUF_LIMIT && more <= BUF_LIMIT - have
}

/// `Default::default` for `Bytes`: an empty buffer.
pub assume_specification[ <Bytes as core::default::Default>::default ]() -> (b: Bytes)
    ensures
        bytes_seq(&b) == Seq::<u8>::empty(),
;

impl Clone for ByteString {
    fn clone(&self) -> (c: ByteString)
        ensures
            byte_string_seq(&c) == byte_string_seq(self),
    {
        byte_string_clone(self)
    }
}

impl Default for ByteString {
    fn default() -> (s: ByteString)
        ensures
            byte_string_seq(&s) == Seq::<u8>::empty(),
    {
        byte_string_new()
    }
}

/// `Bytes::new`: an empty buffer.
#[verifier::external_body]
pub(crate) fn bytes_new() -> (b: Bytes)
    ensures
        bytes_seq(&b) == Seq::<u8>::empty(),
{
    Bytes::new()
}

/// `Bytes::len`: the number of bytes held.
#[verifier::external_body]
pub(crate) fn bytes_len(b: &Bytes) -> (n: usize)
    ensures
        n == bytes_seq(b).len(),
{
    b.len()
}

/// `Bytes::is_empty`: whether no byte is held.
#[verifier::external_body]
pub(crate) fn bytes_is_empty(b: &Bytes) -> (e: bool)
    ensures
        e == (bytes_seq(b).len() == 0),
{
    b.is_empty()
}

/// `Buf::chunk` for `Bytes`: the whole content as one slice.
#[verifier::external_body]
pub(crate) fn bytes_chunk(b: &Bytes) -> (s: &[u8])
    ensures
        s@ == bytes_seq(b),
{
    b.chunk()
}

/// `Clone::clone` for `Bytes`: a buffer with the same bytes.
pub assume_specification[ <Bytes as Clone>::clone ](b: &Bytes) -> (c: Bytes)
    ensures
        bytes_seq(&c) == bytes_seq(b),
;

/// `PartialEq::eq` for `Bytes`: whether both hold the same bytes.
#[verifier::external_body]
pub(crate) fn bytes_eq(a: &Bytes, b: &Bytes) -> (e: bool)
    ensures
        e == (bytes_seq(a) == bytes_seq(b)),
{
    a == b
}

/// `Buf::advance` for `Bytes`: drops the first `cnt` bytes. The call panics
/// when `cnt` is more than the length.
#[verifier::external_body]
pub(crate) fn bytes_advance(b: &mut Bytes, cnt: usize)
    requires
        cnt <= bytes_seq(old(b)).len(),
    ensures
        bytes_seq(final(b)) == bytes_seq(old(b)).skip(cnt as int),
{
    b.advance(cnt)
}

/// `Buf::get_u32` for `Bytes`: takes four bytes off the front and reads them
/// as a number, most significant byte first. The call panics on fewer than
/// four bytes.
#[verifier::external_body]
pub(crate) fn bytes_get_u32(b: &mut Bytes) -> (v: u32)
    requires
        bytes_seq(old(b)).len() >= 4,
    ensures
        v == be32_value(bytes_seq(old(b))),
        bytes_seq(final(b)) == bytes_seq(old(b)).skip(4),
{
    b.get_u32()
}

/// `Bytes::split_to_checked`: hands out the first `at` bytes and keeps the
/// rest, or refuses and changes nothing when fewer than `at` are held.
#[verifier::external_body]
pub(crate) fn bytes_split_to_checked(b: &mut Bytes, at: usize) -> (head: Option<Bytes>)
    ensures
        at <= bytes_seq(old(b)).len() ==> head.is_some() && bytes_seq(&head.unwrap())
            == bytes_seq(old(b)).take(at as int) && bytes_seq(final(b)) == bytes_seq(old(b)).skip(
            at as int,
        ),
        at > bytes_seq(old(b)).len() ==> head.is_none() && bytes_seq(final(b)) == bytes_seq(old(b)),
{
    b.split_to_checked(at)
}

/// `std::mem::take` on a `Bytes`: hands out the whole content and leaves the
/// empty buffer that `Bytes::default` makes.
#[verifier::external_body]
pub(crate) fn bytes_take(b: &mut Bytes) -> (all: Bytes)
    ensures
        bytes_seq(&all) == bytes_seq(old(b)),
        bytes_seq(final(b)) == Seq::<u8>::empty(),
{
    std::mem::take(b)
}

/// `BytesMut::with_capacity`: an empty buffer with room for `capacity`
/// bytes. The call panics on a capacity beyond the limit.
#[verifier::external_body]
pub(crate) fn bytes_mut_with_capacity(capacity: usize) -> (b: BytesMut)
    requires
        capacity <= BUF_LIMIT,
    ensures
        bytes_mut_seq(&b) == Seq::<u8>::empty(),
{
    BytesMut::with_capacity(capacity)
}

/// `BytesMut::from(Bytes)`: the same bytes as a buffer that can grow. The
/// call may copy the bytes into a new buffer, and panics where they are more
/// than such a buffer holds.
#[verifier::external_body]
pub(crate) fn bytes_mut_from_bytes(b: Bytes) -> (m: BytesMut)
    requires
        bytes_seq(&b).len() <= BUF_LIMIT,
    ensures
        bytes_mut_seq(&m) == bytes_seq(&b),
{
    BytesMut::from(b)
}

/// `BytesMut::len`: the number of bytes held.
#[verifier::external_body]
pub(crate) fn bytes_mut_len(b: &BytesMut) -> (n: usize)
    ensures
        n == bytes_mut_seq(b).len(),
{
    b.len()
}

/// `BufMut::put_u8` for `BytesMut`: appends one byte, growing the buffer.
#[verifier::external_body]
pub(crate) fn bytes_mut_put_u8(b: &mut BytesMut, v: u8)
    requires
        bytes_mut_seq(old(b)).len() < BUF_LIMIT,
    ensures
        bytes_mut_seq(final(b)) == bytes_mut_seq(old(b)).push(v),
{
    b.put_u8(v)
}

/// `BufMut::put_u32` for `BytesMut`: appends the four bytes of `v`, most
/// significant first, growing the buffer.
#[verifier::external_body]
pub(crate) fn bytes_mut_put_u32(b: &mut BytesMut, v: u32)
    requires
        bytes_mut_seq(old(b)).len() + 4 <= BUF_LIMIT,
    ensures
        bytes_mut_seq(final(b)) == bytes_mut_seq(old(b)) + be32_bytes(v),
{
    b.put_u32(v)
}

/// `BytesMut::extend_from_slice`: appends the slice, growing the buffer.
#[verifier::external_body]
pub(crate) fn bytes_mut_extend_from_slice(b: &mut BytesMut, extend: &[u8])
    requires
        bytes_mut_seq(old(b)).len() + extend@.len() <= BUF_LIMIT,
    ensures
        bytes_mut_seq(final(b)) == bytes_mut_seq(old(b)) + extend@,
{
    b.extend_from_slice(extend)
}

/// `BytesMut::freeze`: the same bytes as an immutable buffer.
#[verifier::external_body]
pub(crate) fn bytes_mut_freeze(b: BytesMut) -> (f: Bytes)
    ensures
        bytes_seq(&f) == bytes_mut_seq(&b),
{
    b.freeze()
}

/// `ByteString::new`: the empty text.
#[verifier::external_body]
pub(crate) fn byte_string_new() -> (s: ByteString)
    ensures
        byte_string_seq(&s) == Seq::<u8>::empty(),
{
    ByteString { inner: ntex_bytes::ByteString::new() }
}

/// `ByteString::try_from(Bytes)`: accepts exactly the buffers that hold
/// well-formed UTF-8, and keeps their bytes as they are.
#[verifier::external_body]
pub(crate) fn byte_string_from_bytes(b: Bytes) -> (r: Option<ByteString>)
    ensures
        r.is_some() <==> vstd::utf8::valid_utf8(bytes_seq(&b)),
        r.is_some() ==> byte_string_seq(&r.unwrap()) == bytes_seq(&b),
{
    ntex_bytes::ByteString::try_from(b).ok().map(|inner| ByteString { inner })
}

/// `ByteString::from_static`: the text of the string slice, which is kept
/// where it is and not copied.
#[verifier::external_body]
pub(crate) fn byte_string_from_static(s: &'static str) -> (r: ByteString)
    ensures
        byte_string_seq(&r) == s.spec_bytes(),
{
    ByteString { inner: ntex_bytes::ByteString::from_static(s) }
}

/// `ByteString::as_slice`: the bytes of the text.
#[verifier::external_body]
pub(crate) fn byte_string_as_slice(s: &ByteString) -> (r: &[u8])
    ensures
        r@ == byte_string_seq(s),
{
    s.inner.as_slice()
}

/// `ByteString::as_str`: the text as a string slice over the same bytes.
#[verifier::external_body]
pub(crate) fn byte_string_as_str(s: &ByteString) -> (r: &str)
    ensures
        r.spec_bytes() == byte_string_seq(s),
{
    s.inner.as_str()
}

/// `Clone::clone` for `ByteString`: a text with the same bytes.
#[verifier::external_body]
pub(crate) fn byte_string_clone(s: &ByteString) -> (c: ByteString)
    ensures
        byte_string_seq(&c) == byte_string_seq(s),
{
    ByteString { inner: s.inner.clone() }
}

/// `ByteString::into_bytes`: the bytes of the text as a buffer.
#[verifier::external_body]
pub(crate) fn byte_string_into_bytes(s: ByteString) -> (b: Bytes)
    ensures
        bytes_seq(&b) == byte_string_seq(&s),
{
    s.inner.into_bytes()
}

/// `PartialEq::eq` for `ByteString`: whether both hold the same bytes.
#[verifier::external_body]
pub(crate) fn byte_string_eq(a: &ByteString, b: &ByteString) -> (e: bool)
    ensures
        e == (byte_string_seq(a) == byte_string_seq(b)),
{
    a.inner == b.inner
}

} // verus!
