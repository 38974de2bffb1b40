//! The typed layer of the codec: how each kind of field value is written to
//! and read from the wire, and what a message is.

use crate::buf::{bytes_mut_seq, bytes_seq, bytes_split_to_checked, bytes_len, BUF_LIMIT};
use crate::encoding::{
    check_wire_type, decode_varint, encode_key, encode_varint, encoded_len_varint, key_len,
    wire_type_mismatch, DecodeError, Failure, WireType,
};
use crate::text::{decimal, push_decimal};
use crate::wire_format::{
    key_bytes, key_parse, lemma_key_round_trip, lemma_varint_len, lemma_varint_round_trip,
    lemma_varint_tail_bounds, skip_parse, varint_bytes, varint_consumed, varint_len,
    varint_parse, MAX_TAG, MIN_TAG,
};
use ntex_bytes::{Bytes, BytesMut};
use vstd::prelude::*;

pub mod containers;
pub mod delimited;
pub mod fixed;
pub mod map;
pub mod scalars;

pub use self::containers::{packed, reads_back, repeated, unpack};
pub use self::delimited::same_bytes;
pub use self::fixed::{Fixed32, Fixed64};
pub use self::map::MapField;
pub use self::scalars::varint_field;

verus! {

/// When a field is left out of the written message.
pub enum DefaultValue<T> {
    /// Never: the field is always written.
    Unknown,
    /// When the value is the default of its type.
    Default,
    /// When the value equals the given one.
    Value(T),
}

/// What stands in front of the bytes of a value: the key of the field and,
/// unless the value is a varint, the length of its bytes.
pub open spec fn head_bytes(wire_type: WireType, payload_len: nat, tag: u32) -> Seq<u8> {
    if wire_type == WireType::Varint {
        key_bytes(tag, wire_type)
    } else {
        key_bytes(tag, wire_type) + varint_bytes(payload_len)
    }
}

/// The text of the complaint about a length-delimited field that announces
/// more bytes than follow.
pub open spec fn short_field_text(len: nat, have: nat) -> Seq<char> {
    "Not enough data, message size "@ + decimal(len) + " buffer size "@ + decimal(have)
}

/// A structure with numbered, typed fields that is written to and read from
/// the wire as a whole.
pub trait Message: Default + Sized {
    /// The mathematical value that a message of this type stands for.
    type Model;

    spec fn model(&self) -> Self::Model;

    /// The value of a message that no field has been read into.
    spec fn blank() -> Self::Model;

    /// The bytes of the message: its fields in ascending order of their
    /// numbers, those left out that their policy suppresses.
    spec fn wire(m: Self::Model) -> Seq<u8>;

    /// The message that the bytes stand for, or why they stand for none.
    spec fn parse(s: Seq<u8>) -> Result<Self::Model, Failure>;

    /// Where the bytes stand for no message: how many of them `read` has
    /// taken from the buffer when it gives up.
    spec fn taken(s: Seq<u8>) -> nat;

    /// `Default::default` makes the blank message.
    proof fn default_is_blank(v: Self)
        requires
            call_ensures(<Self as Default>::default, (), v),
        ensures
            v.model() == Self::blank(),
    ;

    /// Decodes a message from the whole of the buffer. Where a field is
    /// refused, the bytes up to where the reader gave up are gone from the
    /// buffer.
    fn read(src: &mut Bytes) -> (r: Result<Self, DecodeError>)
        ensures
            match Self::parse(bytes_seq(old(src))) {
                Ok(m) => r matches Ok(v) && v.model() == m && bytes_seq(final(src)).len() == 0,
                Err(f) => r matches Err(e) && e@ == f,
            },
            r is Err ==> Self::taken(bytes_seq(old(src))) <= bytes_seq(old(src)).len()
                && bytes_seq(final(src)) == bytes_seq(old(src)).skip(
                Self::taken(bytes_seq(old(src))) as int,
            ),
    ;

    /// Appends the encoded message to the buffer.
    fn write(&self, dst: &mut BytesMut)
        requires
            bytes_mut_seq(old(dst)).len() + Self::wire(self.model()).len() <= BUF_LIMIT,
        ensures
            bytes_mut_seq(final(dst)) == bytes_mut_seq(old(dst)) + Self::wire(self.model()),
    ;

    /// The number of bytes that `write` appends.
    fn encoded_len(&self) -> (n: usize)
        requires
            Self::wire(self.model()).len() <= usize::MAX,
        ensures
            n == Self::wire(self.model()).len(),
    ;

    /// Whether both messages stand for the same value.
    fn is_same(&self, other: &Self) -> (r: bool)
        ensures
            r == (self.model() == other.model()),
    ;
}

/// A type of field value: how it is written to the wire and read back.
pub trait NativeType: Default + Sized {
    /// The mathematical value that an item of this type stands for.
    type Model;

    /// How the bytes of a field of this type are laid out.
    const TYPE: WireType;

    spec fn model(&self) -> Self::Model;

    /// The value that `Default::default` makes.
    spec fn zero() -> Self::Model;

    /// Whether `is_default` holds of the value.
    spec fn model_is_default(m: Self::Model) -> bool;

    /// The bytes that stand for the value itself, without key or length.
    spec fn payload(m: Self::Model) -> Seq<u8>;

    /// Reading a value from bare bytes over a value `pre`: what the value
    /// becomes and how many bytes are taken, or why the bytes are refused.
    spec fn merged(pre: Self::Model, s: Seq<u8>) -> Result<(Self::Model, nat), Failure>;

    /// The bytes of a field with number `tag` that holds the value, or
    /// nothing where the field is left out.
    spec fn emitted(m: Self::Model, tag: u32, suppress: bool) -> Seq<u8>;

    /// Reading the field that follows a key with wire type `wire_type` into
    /// a value `pre`: what the value becomes and how many bytes are taken,
    /// or why the bytes are refused.
    spec fn parsed(pre: Self::Model, wire_type: WireType, s: Seq<u8>) -> Result<
        (Self::Model, nat),
        Failure,
    >;

    /// Where `merged` refuses the bytes: how many of them `merge` has taken
    /// from the buffer when it gives up.
    spec fn merge_taken(s: Seq<u8>) -> nat;

    /// Where `parsed` refuses the field: the value that `deserialize` leaves
    /// behind, and how many bytes it has taken from the buffer when it gives
    /// up.
    spec fn refused(pre: Self::Model, wire_type: WireType, s: Seq<u8>) -> (Self::Model, nat);

    /// Whether a field of this type is read from behind a key with the given
    /// wire type.
    spec fn reads(wire_type: WireType) -> bool;

    /// **Wrong wire type.** A field behind a key with a wire type that the
    /// type does not read is refused, and leaves the value and the buffer as
    /// they were.
    proof fn wrong_wire_type_is_refused(pre: Self::Model, wire_type: WireType, s: Seq<u8>)
        ensures
            !Self::reads(wire_type) ==> Self::parsed(pre, wire_type, s) is Err && Self::refused(
                pre,
                wire_type,
                s,
            ) == (pre, 0nat),
    ;

    /// `Default::default` makes the value `zero`.
    proof fn default_is_zero(v: Self)
        requires
            call_ensures(<Self as Default>::default, (), v),
        ensures
            v.model() == Self::zero(),
    ;

    /// A varint-typed value takes at least one byte where it is read, and
    /// never more than there is.
    proof fn varint_merge_advances(pre: Self::Model, s: Seq<u8>)
        ensures
            Self::TYPE == WireType::Varint ==> (Self::merged(pre, s) matches Ok(p) ==> 1 <= p.1
                <= s.len()),
    ;

    /// **Default suppression.** A value that is the default of its type
    /// takes no bytes where defaults are left out.
    proof fn default_is_left_out(m: Self::Model, tag: u32)
        ensures
            Self::model_is_default(m) ==> Self::emitted(m, tag, true) == Seq::<u8>::empty(),
    ;

    /// The number of bytes that `encode_value` appends.
    fn value_len(&self) -> (n: usize)
        requires
            Self::payload(self.model()).len() <= usize::MAX,
        ensures
            n == Self::payload(self.model()).len(),
    ;

    /// Reads the value from bare bytes. Bytes that are refused leave the
    /// value as it was.
    fn merge(&mut self, src: &mut Bytes) -> (r: Result<(), DecodeError>)
        ensures
            match Self::merged(old(self).model(), bytes_seq(old(src))) {
                Ok((m, n)) => r.is_ok() && final(self).model() == m && n <= bytes_seq(
                    old(src),
                ).len() && bytes_seq(final(src)) == bytes_seq(old(src)).skip(n as int),
                Err(f) => r matches Err(e) && e@ == f,
            },
            r is Err ==> final(self).model() == old(self).model(),
            r is Err ==> Self::merge_taken(bytes_seq(old(src))) <= bytes_seq(old(src)).len()
                && bytes_seq(final(src)) == bytes_seq(old(src)).skip(
                Self::merge_taken(bytes_seq(old(src))) as int,
            ),
    ;

    /// Whether the value is the one that is left out under
    /// `DefaultValue::Default`.
    fn is_default(&self) -> (r: bool)
        ensures
            r == Self::model_is_default(self.model()),
    ;

    /// Whether both items stand for the same value.
    fn is_same(&self, other: &Self) -> (r: bool)
        ensures
            r == (self.model() == other.model()),
    ;

    /// Appends the bytes of the value itself.
    fn encode_value(&self, dst: &mut BytesMut)
        requires
            bytes_mut_seq(old(dst)).len() + Self::payload(self.model()).len() <= BUF_LIMIT,
        ensures
            bytes_mut_seq(final(dst)) == bytes_mut_seq(old(dst)) + Self::payload(self.model()),
    ;

    /// Appends the key of the field and, unless the value is a varint, the
    /// length of its bytes.
    fn encode_type(&self, tag: u32, dst: &mut BytesMut)
        requires
            MIN_TAG <= tag <= MAX_TAG,
            Self::payload(self.model()).len() <= usize::MAX,
            bytes_mut_seq(old(dst)).len() + head_bytes(
                Self::TYPE,
                Self::payload(self.model()).len(),
                tag,
            ).len() <= BUF_LIMIT,
        ensures
            bytes_mut_seq(final(dst)) == bytes_mut_seq(old(dst)) + head_bytes(
                Self::TYPE,
                Self::payload(self.model()).len(),
                tag,
            ),
    {
        encode_key(tag, Self::TYPE, dst);
        if Self::TYPE != WireType::Varint {
            let value_len = self.value_len();
            proof {
                lemma_varint_len(value_len as nat);
            }
            encode_varint(value_len as u64, dst);
        }
        assert(bytes_mut_seq(dst) =~= bytes_mut_seq(old(dst)) + head_bytes(
            Self::TYPE,
            Self::payload(self.model()).len(),
            tag,
        ));
    }

    /// The number of bytes of the field when it is written.
    fn encoded_len(&self, tag: u32) -> (n: usize)
        requires
            tag <= MAX_TAG,
            Self::emitted(self.model(), tag, false).len() <= usize::MAX,
        ensures
            n == Self::emitted(self.model(), tag, false).len(),
    ;

    /// Appends the field, unless `default` has it left out.
    fn serialize(&self, tag: u32, default: DefaultValue<&Self>, dst: &mut BytesMut)
        requires
            MIN_TAG <= tag <= MAX_TAG,
            bytes_mut_seq(old(dst)).len() + Self::emitted(
                self.model(),
                tag,
                match default {
                    DefaultValue::Unknown => false,
                    DefaultValue::Default => Self::model_is_default(self.model()),
                    DefaultValue::Value(d) => self.model() == d.model(),
                },
            ).len() <= BUF_LIMIT,
        ensures
            bytes_mut_seq(final(dst)) == bytes_mut_seq(old(dst)) + Self::emitted(
                self.model(),
                tag,
                match default {
                    DefaultValue::Unknown => false,
                    DefaultValue::Default => Self::model_is_default(self.model()),
                    DefaultValue::Value(d) => self.model() == d.model(),
                },
            ),
    ;

    /// The number of bytes that `serialize` appends.
    fn serialized_len(&self, tag: u32, default: DefaultValue<&Self>) -> (n: usize)
        requires
            tag <= MAX_TAG,
            Self::emitted(
                self.model(),
                tag,
                match default {
                    DefaultValue::Unknown => false,
                    DefaultValue::Default => Self::model_is_default(self.model()),
                    DefaultValue::Value(d) => self.model() == d.model(),
                },
            ).len() <= usize::MAX,
        ensures
            n == Self::emitted(
                self.model(),
                tag,
                match default {
                    DefaultValue::Unknown => false,
                    DefaultValue::Default => Self::model_is_default(self.model()),
                    DefaultValue::Value(d) => self.model() == d.model(),
                },
            ).len(),
    ;

    /// Reads the field that follows a key with wire type `wtype`. A field
    /// that is refused leaves the value and the buffer as `refused` says: a
    /// wire type that is not the one of the type leaves both as they were.
    fn deserialize(&mut self, tag: u32, wtype: WireType, src: &mut Bytes) -> (r: Result<
        (),
        DecodeError,
    >)
        ensures
            match Self::parsed(old(self).model(), wtype, bytes_seq(old(src))) {
                Ok((m, n)) => r.is_ok() && final(self).model() == m && n <= bytes_seq(
                    old(src),
                ).len() && bytes_seq(final(src)) == bytes_seq(old(src)).skip(n as int),
                Err(f) => r matches Err(e) && e@ == f,
            },
            r is Err ==> final(self).model() == Self::refused(
                old(self).model(),
                wtype,
                bytes_seq(old(src)),
            ).0,
            r is Err ==> Self::refused(old(self).model(), wtype, bytes_seq(old(src))).1
                <= bytes_seq(old(src)).len() && bytes_seq(final(src)) == bytes_seq(old(src)).skip(
                Self::refused(old(self).model(), wtype, bytes_seq(old(src))).1 as int,
            ),
    ;

    /// Reads the field that follows a key with wire type `wtype` into a
    /// fresh value.
    fn deserialize_default(tag: u32, wtype: WireType, src: &mut Bytes) -> (r: Result<
        Self,
        DecodeError,
    >)
        ensures
            match Self::parsed(Self::zero(), wtype, bytes_seq(old(src))) {
                Ok((m, n)) => r matches Ok(v) && v.model() == m && n <= bytes_seq(
                    old(src),
                ).len() && bytes_seq(final(src)) == bytes_seq(old(src)).skip(n as int),
                Err(f) => r matches Err(e) && e@ == f,
            },
            r is Err ==> Self::refused(Self::zero(), wtype, bytes_seq(old(src))).1 <= bytes_seq(
                old(src),
            ).len() && bytes_seq(final(src)) == bytes_seq(old(src)).skip(
                Self::refused(Self::zero(), wtype, bytes_seq(old(src))).1 as int,
            ),
    {
        let mut value = Self::default();
        proof {
            Self::default_is_zero(value);
        }
        match value.deserialize(tag, wtype, src) {
            Ok(_) => Ok(value),
            Err(e) => Err(e),
        }
    }
}

/// A field in the plain layout: the key, the length of the value unless
/// it is a varint, and the bytes of the value; or nothing where the field is
/// left out.
pub open spec fn plain_bytes(wire_type: WireType, payload: Seq<u8>, tag: u32, suppress: bool)
    -> Seq<u8> {
    if suppress {
        Seq::empty()
    } else {
        head_bytes(wire_type, payload.len(), tag) + payload
    }
}

/// Cutting a length-delimited value out of the input that follows its key:
/// the bytes of the value and how many bytes are taken in all, or why the
/// input is refused. The wire type of the key is the expected one, and the
/// length in front of the value does not run past the input.
pub open spec fn delimited(expected: WireType, wire_type: WireType, s: Seq<u8>) -> Result<
    (Seq<u8>, nat),
    Failure,
> {
    if wire_type != expected {
        Err(Failure::plain(wire_type_mismatch(expected, wire_type)))
    } else {
        match varint_parse(s) {
            None => Err(Failure::plain("invalid varint"@)),
            Some((len, n)) => if n + len > s.len() {
                Err(Failure::plain(short_field_text(len as nat, (s.len() - n) as nat)))
            } else {
                Ok((s.subrange(n as int, n + len), n + len as nat))
            },
        }
    }
}

/// How many bytes the cutting of a length-delimited value takes from the
/// input: none where the wire type of the key is not the expected one; what
/// a reader of one varint takes where the length is no varint; the length
/// alone where it runs past the input; else the length and the value.
pub open spec fn cut_taken(expected: WireType, wire_type: WireType, s: Seq<u8>) -> nat {
    if wire_type != expected {
        0
    } else {
        match varint_parse(s) {
            None => varint_consumed(s),
            Some((len, n)) => if n + len > s.len() {
                n
            } else {
                n + len as nat
            },
        }
    }
}

/// What a message reader finds at the front of its input: the number and
/// the wire type of the next field and the length of its key, or why the
/// key is refused.
pub open spec fn field_start(s: Seq<u8>) -> Result<(u32, WireType, nat), Failure> {
    match key_parse(s) {
        Ok((tag, wire_type)) => Ok((tag, wire_type, varint_consumed(s))),
        Err(text) => Err(Failure::plain(text)),
    }
}

/// What a message reader does with a field it does not know: the number of
/// bytes it passes over behind the key, or why the field is refused.
pub open spec fn skipped(wire_type: WireType, tag: u32, s: Seq<u8>) -> Result<nat, Failure> {
    match skip_parse(wire_type, tag, s).0 {
        None => Ok(skip_parse(wire_type, tag, s).1),
        Some(text) => Err(Failure::plain(text)),
    }
}

/// What is left of an input behind `d` bytes and then `c` more is what is
/// left of it behind `d + c` bytes.
pub proof fn lemma_skip_more(whole: Seq<u8>, d: nat, c: nat)
    requires
        d + c <= whole.len(),
    ensures
        whole.skip(d as int).skip(c as int) == whole.skip((d + c) as int),
{
    assert(whole.skip(d as int).skip(c as int) =~= whole.skip((d + c) as int));
}

/// The key of a field that was written stands at the front of what follows
/// it, and the value begins right behind it.
pub proof fn lemma_field_start(tag: u32, wire_type: WireType, rest: Seq<u8>)
    requires
        MIN_TAG <= tag <= MAX_TAG,
    ensures
        field_start(key_bytes(tag, wire_type) + rest) == Ok::<(u32, WireType, nat), Failure>(
            (tag, wire_type, key_bytes(tag, wire_type).len()),
        ),
        (key_bytes(tag, wire_type) + rest).skip(key_bytes(tag, wire_type).len() as int) == rest,
        1 <= key_bytes(tag, wire_type).len() <= 5,
{
    lemma_key_round_trip(tag, wire_type, rest);
    assert((key_bytes(tag, wire_type) + rest).skip(key_bytes(tag, wire_type).len() as int)
        =~= rest);
}

/// A length-delimited value that was written with its length in front is
/// cut out again, whatever follows it.
pub proof fn lemma_delimited_round_trip(wire_type: WireType, body: Seq<u8>, rest: Seq<u8>)
    requires
        body.len() <= u64::MAX,
    ensures
        delimited(wire_type, wire_type, varint_bytes(body.len()) + body + rest) == Ok::<
            (Seq<u8>, nat),
            Failure,
        >((body, varint_len(body.len()) + body.len())),
        (varint_bytes(body.len()) + body).len() == varint_len(body.len()) + body.len(),
{
    let s = varint_bytes(body.len()) + body + rest;
    lemma_varint_round_trip(body.len() as u64, body + rest);
    assert(varint_bytes(body.len()) + (body + rest) =~= s);
    let n = varint_len(body.len());
    assert(s.subrange(n as int, (n + body.len()) as int) =~= body);
}

/// The length of a field in the plain layout whose value takes `value_len`
/// bytes.
pub fn plain_len(wire_type: WireType, value_len: usize, tag: u32) -> (n: usize)
    requires
        tag <= MAX_TAG,
        head_bytes(wire_type, value_len as nat, tag).len() + value_len <= usize::MAX,
    ensures
        n == head_bytes(wire_type, value_len as nat, tag).len() + value_len,
{
    proof {
        lemma_varint_len(value_len as nat);
    }
    if wire_type == WireType::Varint {
        key_len(tag) + value_len
    } else {
        key_len(tag) + encoded_len_varint(value_len as u64) + value_len
    }
}

/// Cuts a length-delimited value out of the buffer that follows its key.
/// Whether it succeeds or not, `cut_taken` bytes are gone from the buffer.
pub fn take_delimited(expected: WireType, wtype: WireType, src: &mut Bytes) -> (r: Result<
    Bytes,
    DecodeError,
>)
    ensures
        match delimited(expected, wtype, bytes_seq(old(src))) {
            Ok((body, n)) => r matches Ok(b) && bytes_seq(&b) == body && n == cut_taken(
                expected,
                wtype,
                bytes_seq(old(src)),
            ),
            Err(f) => r matches Err(e) && e@ == f,
        },
        cut_taken(expected, wtype, bytes_seq(old(src))) <= bytes_seq(old(src)).len(),
        bytes_seq(final(src)) == bytes_seq(old(src)).skip(
            cut_taken(expected, wtype, bytes_seq(old(src))) as int,
        ),
{
    let ghost s = bytes_seq(src);
    match check_wire_type(expected, wtype) {
        Ok(_) => {},
        Err(e) => {
            assert(s.skip(0) =~= s);
            return Err(e);
        },
    }
    proof {
        if varint_parse(s).is_some() {
            lemma_varint_tail_bounds(s, 0);
        }
    }
    let len = match decode_varint(src) {
        Ok(len) => len,
        Err(e) => {
            return Err(e);
        },
    };
    let have = bytes_len(src);
    if len > have as u64 {
        let mut text = String::from_str("Not enough data, message size ");
        push_decimal(&mut text, len as u128);
        text.append(" buffer size ");
        push_decimal(&mut text, have as u128);
        return Err(DecodeError::new(text.as_str()));
    }
    let ghost n = varint_parse(s).unwrap().1;
    match bytes_split_to_checked(src, len as usize) {
        Some(buf) => {
            assert(bytes_seq(&buf) =~= s.subrange(n as int, n + len));
            assert(bytes_seq(src) =~= s.skip(n + len));
            Ok(buf)
        },
        None => Err(DecodeError::incomplete()),
    }
}

} // verus!
