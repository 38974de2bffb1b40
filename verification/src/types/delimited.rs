//! Field values that are written as a length and that many bytes: byte
//! buffers and text.

use crate::buf::{
    byte_string_as_slice, byte_string_as_str, byte_string_eq, byte_string_from_bytes,
    byte_string_seq, bytes_chunk, bytes_eq, bytes_len, bytes_mut_extend_from_slice,
    bytes_mut_seq, bytes_seq, bytes_take, ByteString,
};
use crate::encoding::{DecodeError, Failure, WireType};
use crate::types::{
    cut_taken, delimited, lemma_delimited_round_trip, plain_bytes, plain_len, take_delimited,
    DefaultValue, NativeType,
};
use crate::wire_format::{key_bytes, lemma_varint_len, varint_bytes, varint_len, MAX_TAG, MIN_TAG};
use ntex_bytes::{Bytes, BytesMut};
use vstd::prelude::*;
use vstd::slice::slice_to_vec;
use vstd::string::StringSliceAdditionalSpecFns;
use vstd::utf8::{decode_utf8, encode_utf8, valid_utf8};

verus! {

/// The text of the complaint about bytes that are no UTF-8.
pub open spec fn not_utf8_text() -> Seq<char> {
    "invalid string value: data is not UTF-8 encoded"@
}

/// Whether two slices hold the same bytes.
pub fn same_bytes(a: &[u8], b: &[u8]) -> (r: bool)
    ensures
        r == (a@ == b@),
{
    if a.len() != b.len() {
        return false;
    }
    let mut i: usize = 0;
    while i < a.len()
        invariant
            a@.len() == b@.len(),
            i <= a@.len(),
            forall|j: int| 0 <= j < i ==> a@[j] == b@[j],
        decreases a@.len() - i,
    {
        if a[i] != b[i] {
            return false;
        }
        i += 1;
    }
    assert(a@ =~= b@);
    true
}

/// A byte buffer: its bytes as they are.
impl NativeType for Bytes {
    type Model = Seq<u8>;

    const TYPE: WireType = WireType::LengthDelimited;

    open spec fn model(&self) -> Seq<u8> {
        bytes_seq(self)
    }

    open spec fn zero() -> Seq<u8> {
        Seq::empty()
    }

    open spec fn model_is_default(m: Seq<u8>) -> bool {
        m.len() == 0
    }

    open spec fn payload(m: Seq<u8>) -> Seq<u8> {
        m
    }

    open spec fn merged(pre: Seq<u8>, s: Seq<u8>) -> Result<(Seq<u8>, nat), Failure> {
        Ok((s, s.len()))
    }

    open spec fn emitted(m: Seq<u8>, tag: u32, suppress: bool) -> Seq<u8> {
        plain_bytes(WireType::LengthDelimited, Self::payload(m), tag, suppress)
    }

    open spec fn parsed(pre: Seq<u8>, wire_type: WireType, s: Seq<u8>) -> Result<
        (Seq<u8>, nat),
        Failure,
    > {
        match delimited(WireType::LengthDelimited, wire_type, s) {
            Ok((body, n)) => match Self::merged(pre, body) {
                Ok((m, _)) => Ok((m, n)),
                Err(f) => Err(f),
            },
            Err(f) => Err(f),
        }
    }

    open spec fn merge_taken(s: Seq<u8>) -> nat {
        0
    }

    open spec fn refused(pre: Seq<u8>, wire_type: WireType, s: Seq<u8>) -> (Seq<u8>, nat) {
        (pre, cut_taken(WireType::LengthDelimited, wire_type, s))
    }

    proof fn default_is_zero(v: Self) {
        
    }

    open spec fn reads(wire_type: WireType) -> bool {
        wire_type == WireType::LengthDelimited
    }

    proof fn wrong_wire_type_is_refused(pre: Self::Model, wire_type: WireType, s: Seq<u8>) {
    }

    proof fn default_is_left_out(m: Self::Model, tag: u32) {
    }

    proof fn varint_merge_advances(pre: Self::Model, s: Seq<u8>) {
    }

    fn value_len(&self) -> (n: usize) {
        bytes_len(self)
    }

    fn merge(&mut self, src: &mut Bytes) -> (r: Result<(), DecodeError>) {
        let ghost taken = Self::merge_taken(bytes_seq(src));
        *self = bytes_take(src);
        assert(bytes_seq(old(src)).skip(bytes_seq(old(src)).len() as int) =~= Seq::<u8>::empty());
        Ok(())
    }

    fn is_default(&self) -> (r: bool) {
        bytes_len(self) == 0
    }

    fn is_same(&self, other: &Self) -> (r: bool) {
        bytes_eq(self, other)
    }

    fn encode_value(&self, dst: &mut BytesMut) {
        bytes_mut_extend_from_slice(dst, bytes_chunk(self));
    }

    fn encoded_len(&self, tag: u32) -> (n: usize) {
        proof {
            lemma_varint_len(Self::payload(self.model()).len());
        }
        plain_len(WireType::LengthDelimited, self.value_len(), tag)
    }

    fn serialize(&self, tag: u32, default: DefaultValue<&Self>, dst: &mut BytesMut) {
        let suppress = match default {
            DefaultValue::Unknown => false,
            DefaultValue::Default => self.is_default(),
            DefaultValue::Value(d) => self.is_same(d),
        };
        if !suppress {
            proof {
                lemma_varint_len(Self::payload(self.model()).len());
            }
            self.encode_type(tag, dst);
            self.encode_value(dst);
            assert(bytes_mut_seq(dst) =~= bytes_mut_seq(old(dst)) + Self::emitted(
                self.model(),
                tag,
                false,
            ));
        } else {
            assert(bytes_mut_seq(dst) =~= bytes_mut_seq(old(dst)) + Seq::<u8>::empty());
        }
    }

    fn serialized_len(&self, tag: u32, default: DefaultValue<&Self>) -> (n: usize) {
        let suppress = match default {
            DefaultValue::Unknown => false,
            DefaultValue::Default => self.is_default(),
            DefaultValue::Value(d) => self.is_same(d),
        };
        if suppress {
            0
        } else {
            self.encoded_len(tag)
        }
    }

    fn deserialize(&mut self, tag: u32, wtype: WireType, src: &mut Bytes) -> (r: Result<
        (),
        DecodeError,
    >) {
        let ghost left = Self::refused(self.model(), wtype, bytes_seq(src));
        let ghost outcome = Self::parsed(self.model(), wtype, bytes_seq(src));
        match take_delimited(WireType::LengthDelimited, wtype, src) {
            Ok(mut buf) => {
                assert(outcome is Ok <==> Self::merged(self.model(), bytes_seq(&buf)) is Ok);
                self.merge(&mut buf)
            },
            Err(e) => {
                assert(outcome is Err);
                Err(e)
            },
        }
    }
}

/// **Round trip of one field.** A byte buffer that was written as field `tag` is
/// read back from the bytes behind its key, whatever follows, and the
/// reader stops right behind it.
pub proof fn lemma_bytes_field(value: Seq<u8>, pre: Seq<u8>, tag: u32, rest: Seq<u8>)
    requires
        MIN_TAG <= tag <= MAX_TAG,
        Bytes::payload(value).len() <= u64::MAX,
    ensures
        ({
            let body = Bytes::payload(value);
            let field = varint_bytes(body.len()) + body;
            &&& Bytes::emitted(value, tag, false) == key_bytes(tag, WireType::LengthDelimited)
                + field
            &&& Bytes::parsed(pre, WireType::LengthDelimited, field + rest) == Ok::<
                (Seq<u8>, nat),
                Failure,
            >((value, varint_len(body.len()) + body.len()))
        }),
{
    let body = Bytes::payload(value);
    lemma_delimited_round_trip(WireType::LengthDelimited, body, rest);
    assert(key_bytes(tag, WireType::LengthDelimited) + varint_bytes(body.len()) + body
        =~= key_bytes(tag, WireType::LengthDelimited) + (varint_bytes(body.len()) + body));
    
}

/// A vector of bytes: its bytes as they are. Reading copies the input and leaves it in place.
impl NativeType for Vec<u8> {
    type Model = Seq<u8>;

    const TYPE: WireType = WireType::LengthDelimited;

    open spec fn model(&self) -> Seq<u8> {
        self@
    }

    open spec fn zero() -> Seq<u8> {
        Seq::empty()
    }

    open spec fn model_is_default(m: Seq<u8>) -> bool {
        m.len() == 0
    }

    open spec fn payload(m: Seq<u8>) -> Seq<u8> {
        m
    }

    open spec fn merged(pre: Seq<u8>, s: Seq<u8>) -> Result<(Seq<u8>, nat), Failure> {
        Ok((s, 0))
    }

    open spec fn emitted(m: Seq<u8>, tag: u32, suppress: bool) -> Seq<u8> {
        plain_bytes(WireType::LengthDelimited, Self::payload(m), tag, suppress)
    }

    open spec fn parsed(pre: Seq<u8>, wire_type: WireType, s: Seq<u8>) -> Result<
        (Seq<u8>, nat),
        Failure,
    > {
        match delimited(WireType::LengthDelimited, wire_type, s) {
            Ok((body, n)) => match Self::merged(pre, body) {
                Ok((m, _)) => Ok((m, n)),
                Err(f) => Err(f),
            },
            Err(f) => Err(f),
        }
    }

    open spec fn merge_taken(s: Seq<u8>) -> nat {
        0
    }

    open spec fn refused(pre: Seq<u8>, wire_type: WireType, s: Seq<u8>) -> (Seq<u8>, nat) {
        (pre, cut_taken(WireType::LengthDelimited, wire_type, s))
    }

    proof fn default_is_zero(v: Self) {
        
    }

    open spec fn reads(wire_type: WireType) -> bool {
        wire_type == WireType::LengthDelimited
    }

    proof fn wrong_wire_type_is_refused(pre: Self::Model, wire_type: WireType, s: Seq<u8>) {
    }

    proof fn default_is_left_out(m: Self::Model, tag: u32) {
    }

    proof fn varint_merge_advances(pre: Self::Model, s: Seq<u8>) {
    }

    fn value_len(&self) -> (n: usize) {
        self.len()
    }

    fn merge(&mut self, src: &mut Bytes) -> (r: Result<(), DecodeError>) {
        let ghost taken = Self::merge_taken(bytes_seq(src));
        *self = slice_to_vec(bytes_chunk(src));
        assert(bytes_seq(old(src)).skip(0) =~= bytes_seq(old(src)));
        Ok(())
    }

    fn is_default(&self) -> (r: bool) {
        self.len() == 0
    }

    fn is_same(&self, other: &Self) -> (r: bool) {
        same_bytes(self.as_slice(), other.as_slice())
    }

    fn encode_value(&self, dst: &mut BytesMut) {
        bytes_mut_extend_from_slice(dst, self.as_slice());
    }

    fn encoded_len(&self, tag: u32) -> (n: usize) {
        proof {
            lemma_varint_len(Self::payload(self.model()).len());
        }
        plain_len(WireType::LengthDelimited, self.value_len(), tag)
    }

    fn serialize(&self, tag: u32, default: DefaultValue<&Self>, dst: &mut BytesMut) {
        let suppress = match default {
            DefaultValue::Unknown => false,
            DefaultValue::Default => self.is_default(),
            DefaultValue::Value(d) => self.is_same(d),
        };
        if !suppress {
            proof {
                lemma_varint_len(Self::payload(self.model()).len());
            }
            self.encode_type(tag, dst);
            self.encode_value(dst);
            assert(bytes_mut_seq(dst) =~= bytes_mut_seq(old(dst)) + Self::emitted(
                self.model(),
                tag,
                false,
            ));
        } else {
            assert(bytes_mut_seq(dst) =~= bytes_mut_seq(old(dst)) + Seq::<u8>::empty());
        }
    }

    fn serialized_len(&self, tag: u32, default: DefaultValue<&Self>) -> (n: usize) {
        let suppress = match default {
            DefaultValue::Unknown => false,
            DefaultValue::Default => self.is_default(),
            DefaultValue::Value(d) => self.is_same(d),
        };
        if suppress {
            0
        } else {
            self.encoded_len(tag)
        }
    }

    fn deserialize(&mut self, tag: u32, wtype: WireType, src: &mut Bytes) -> (r: Result<
        (),
        DecodeError,
    >) {
        let ghost left = Self::refused(self.model(), wtype, bytes_seq(src));
        let ghost outcome = Self::parsed(self.model(), wtype, bytes_seq(src));
        match take_delimited(WireType::LengthDelimited, wtype, src) {
            Ok(mut buf) => {
                assert(outcome is Ok <==> Self::merged(self.model(), bytes_seq(&buf)) is Ok);
                self.merge(&mut buf)
            },
            Err(e) => {
                assert(outcome is Err);
                Err(e)
            },
        }
    }
}

/// **Round trip of one field.** A vector of bytes that was written as field `tag` is
/// read back from the bytes behind its key, whatever follows, and the
/// reader stops right behind it.
pub proof fn lemma_byte_vec_field(value: Seq<u8>, pre: Seq<u8>, tag: u32, rest: Seq<u8>)
    requires
        MIN_TAG <= tag <= MAX_TAG,
        Vec::<u8>::payload(value).len() <= u64::MAX,
    ensures
        ({
            let body = Vec::<u8>::payload(value);
            let field = varint_bytes(body.len()) + body;
            &&& Vec::<u8>::emitted(value, tag, false) == key_bytes(tag, WireType::LengthDelimited)
                + field
            &&& Vec::<u8>::parsed(pre, WireType::LengthDelimited, field + rest) == Ok::<
                (Seq<u8>, nat),
                Failure,
            >((value, varint_len(body.len()) + body.len()))
        }),
{
    let body = Vec::<u8>::payload(value);
    lemma_delimited_round_trip(WireType::LengthDelimited, body, rest);
    assert(key_bytes(tag, WireType::LengthDelimited) + varint_bytes(body.len()) + body
        =~= key_bytes(tag, WireType::LengthDelimited) + (varint_bytes(body.len()) + body));
    
}

/// A string: the UTF-8 encoding of its characters. Bytes that are no UTF-8 are refused.
impl NativeType for String {
    type Model = Seq<char>;

    const TYPE: WireType = WireType::LengthDelimited;

    open spec fn model(&self) -> Seq<char> {
        self@
    }

    open spec fn zero() -> Seq<char> {
        Seq::empty()
    }

    open spec fn model_is_default(m: Seq<char>) -> bool {
        m.len() == 0
    }

    open spec fn payload(m: Seq<char>) -> Seq<u8> {
        encode_utf8(m)
    }

    open spec fn merged(pre: Seq<char>, s: Seq<u8>) -> Result<(Seq<char>, nat), Failure> {
        if valid_utf8(s) {
            Ok((decode_utf8(s), s.len()))
        } else {
            Err(Failure::plain(not_utf8_text()))
        }
    }

    open spec fn emitted(m: Seq<char>, tag: u32, suppress: bool) -> Seq<u8> {
        plain_bytes(WireType::LengthDelimited, Self::payload(m), tag, suppress)
    }

    open spec fn parsed(pre: Seq<char>, wire_type: WireType, s: Seq<u8>) -> Result<
        (Seq<char>, nat),
        Failure,
    > {
        match delimited(WireType::LengthDelimited, wire_type, s) {
            Ok((body, n)) => match Self::merged(pre, body) {
                Ok((m, _)) => Ok((m, n)),
                Err(f) => Err(f),
            },
            Err(f) => Err(f),
        }
    }

    open spec fn merge_taken(s: Seq<u8>) -> nat {
        s.len()
    }

    open spec fn refused(pre: Seq<char>, wire_type: WireType, s: Seq<u8>) -> (Seq<char>, nat) {
        (pre, cut_taken(WireType::LengthDelimited, wire_type, s))
    }

    proof fn default_is_zero(v: Self) {
        
    }

    open spec fn reads(wire_type: WireType) -> bool {
        wire_type == WireType::LengthDelimited
    }

    proof fn wrong_wire_type_is_refused(pre: Self::Model, wire_type: WireType, s: Seq<u8>) {
    }

    proof fn default_is_left_out(m: Self::Model, tag: u32) {
    }

    proof fn varint_merge_advances(pre: Self::Model, s: Seq<u8>) {
    }

    fn value_len(&self) -> (n: usize) {
        self.as_str().len()
    }

    fn merge(&mut self, src: &mut Bytes) -> (r: Result<(), DecodeError>) {
        let ghost taken = Self::merge_taken(bytes_seq(src));
        let ghost s = bytes_seq(src);
        let all = bytes_take(src);
        match byte_string_from_bytes(all) {
            Some(text) => {
                let slice = byte_string_as_str(&text);
                proof {
                    vstd::utf8::encode_utf8_decode_utf8(slice@);
                }
                *self = String::from_str(slice);
                assert(s.skip(s.len() as int) =~= Seq::<u8>::empty());
                Ok(())
            },
            None => {
                assert(s.skip(s.len() as int) =~= Seq::<u8>::empty());
                Err(DecodeError::new("invalid string value: data is not UTF-8 encoded"))
            },
        }
    }

    fn is_default(&self) -> (r: bool) {
        self.as_str().is_empty()
    }

    fn is_same(&self, other: &Self) -> (r: bool) {
        *self == *other
    }

    fn encode_value(&self, dst: &mut BytesMut) {
        bytes_mut_extend_from_slice(dst, self.as_str().as_bytes());
    }

    fn encoded_len(&self, tag: u32) -> (n: usize) {
        proof {
            lemma_varint_len(Self::payload(self.model()).len());
        }
        plain_len(WireType::LengthDelimited, self.value_len(), tag)
    }

    fn serialize(&self, tag: u32, default: DefaultValue<&Self>, dst: &mut BytesMut) {
        let suppress = match default {
            DefaultValue::Unknown => false,
            DefaultValue::Default => self.is_default(),
            DefaultValue::Value(d) => self.is_same(d),
        };
        if !suppress {
            proof {
                lemma_varint_len(Self::payload(self.model()).len());
            }
            self.encode_type(tag, dst);
            self.encode_value(dst);
            assert(bytes_mut_seq(dst) =~= bytes_mut_seq(old(dst)) + Self::emitted(
                self.model(),
                tag,
                false,
            ));
        } else {
            assert(bytes_mut_seq(dst) =~= bytes_mut_seq(old(dst)) + Seq::<u8>::empty());
        }
    }

    fn serialized_len(&self, tag: u32, default: DefaultValue<&Self>) -> (n: usize) {
        let suppress = match default {
            DefaultValue::Unknown => false,
            DefaultValue::Default => self.is_default(),
            DefaultValue::Value(d) => self.is_same(d),
        };
        if suppress {
            0
        } else {
            self.encoded_len(tag)
        }
    }

    fn deserialize(&mut self, tag: u32, wtype: WireType, src: &mut Bytes) -> (r: Result<
        (),
        DecodeError,
    >) {
        let ghost left = Self::refused(self.model(), wtype, bytes_seq(src));
        let ghost outcome = Self::parsed(self.model(), wtype, bytes_seq(src));
        match take_delimited(WireType::LengthDelimited, wtype, src) {
            Ok(mut buf) => {
                assert(outcome is Ok <==> Self::merged(self.model(), bytes_seq(&buf)) is Ok);
                self.merge(&mut buf)
            },
            Err(e) => {
                assert(outcome is Err);
                Err(e)
            },
        }
    }
}

/// **Round trip of one field.** A string that was written as field `tag` is
/// read back from the bytes behind its key, whatever follows, and the
/// reader stops right behind it.
pub proof fn lemma_string_field(value: Seq<char>, pre: Seq<char>, tag: u32, rest: Seq<u8>)
    requires
        MIN_TAG <= tag <= MAX_TAG,
        String::payload(value).len() <= u64::MAX,
    ensures
        ({
            let body = String::payload(value);
            let field = varint_bytes(body.len()) + body;
            &&& String::emitted(value, tag, false) == key_bytes(tag, WireType::LengthDelimited)
                + field
            &&& String::parsed(pre, WireType::LengthDelimited, field + rest) == Ok::<
                (Seq<char>, nat),
                Failure,
            >((value, varint_len(body.len()) + body.len()))
        }),
{
    let body = String::payload(value);
    lemma_delimited_round_trip(WireType::LengthDelimited, body, rest);
    assert(key_bytes(tag, WireType::LengthDelimited) + varint_bytes(body.len()) + body
        =~= key_bytes(tag, WireType::LengthDelimited) + (varint_bytes(body.len()) + body));
    vstd::utf8::encode_utf8_decode_utf8(value);
    vstd::utf8::encode_utf8_valid_utf8(value);
}

/// A text held as bytes: its bytes as they are. Bytes that are no UTF-8 are refused.
impl NativeType for ByteString {
    type Model = Seq<u8>;

    const TYPE: WireType = WireType::LengthDelimited;

    open spec fn model(&self) -> Seq<u8> {
        byte_string_seq(self)
    }

    open spec fn zero() -> Seq<u8> {
        Seq::empty()
    }

    open spec fn model_is_default(m: Seq<u8>) -> bool {
        m.len() == 0
    }

    open spec fn payload(m: Seq<u8>) -> Seq<u8> {
        m
    }

    open spec fn merged(pre: Seq<u8>, s: Seq<u8>) -> Result<(Seq<u8>, nat), Failure> {
        if valid_utf8(s) {
            Ok((s, s.len()))
        } else {
            Err(Failure::plain(not_utf8_text()))
        }
    }

    open spec fn emitted(m: Seq<u8>, tag: u32, suppress: bool) -> Seq<u8> {
        plain_bytes(WireType::LengthDelimited, Self::payload(m), tag, suppress)
    }

    open spec fn parsed(pre: Seq<u8>, wire_type: WireType, s: Seq<u8>) -> Result<
        (Seq<u8>, nat),
        Failure,
    > {
        match delimited(WireType::LengthDelimited, wire_type, s) {
            Ok((body, n)) => match Self::merged(pre, body) {
                Ok((m, _)) => Ok((m, n)),
                Err(f) => Err(f),
            },
            Err(f) => Err(f),
        }
    }

    open spec fn merge_taken(s: Seq<u8>) -> nat {
        s.len()
    }

    open spec fn refused(pre: Seq<u8>, wire_type: WireType, s: Seq<u8>) -> (Seq<u8>, nat) {
        (pre, cut_taken(WireType::LengthDelimited, wire_type, s))
    }

    proof fn default_is_zero(v: Self) {
        assert(call_ensures(<ByteString as Default>::default, (), v));
    }

    open spec fn reads(wire_type: WireType) -> bool {
        wire_type == WireType::LengthDelimited
    }

    proof fn wrong_wire_type_is_refused(pre: Self::Model, wire_type: WireType, s: Seq<u8>) {
    }

    proof fn default_is_left_out(m: Self::Model, tag: u32) {
    }

    proof fn varint_merge_advances(pre: Self::Model, s: Seq<u8>) {
    }

    fn value_len(&self) -> (n: usize) {
        byte_string_as_slice(self).len()
    }

    fn merge(&mut self, src: &mut Bytes) -> (r: Result<(), DecodeError>) {
        let ghost taken = Self::merge_taken(bytes_seq(src));
        let ghost s = bytes_seq(src);
        let all = bytes_take(src);
        match byte_string_from_bytes(all) {
            Some(text) => {
                *self = text;
                assert(s.skip(s.len() as int) =~= Seq::<u8>::empty());
                Ok(())
            },
            None => {
                assert(s.skip(s.len() as int) =~= Seq::<u8>::empty());
                Err(DecodeError::new("invalid string value: data is not UTF-8 encoded"))
            },
        }
    }

    fn is_default(&self) -> (r: bool) {
        byte_string_as_slice(self).len() == 0
    }

    fn is_same(&self, other: &Self) -> (r: bool) {
        byte_string_eq(self, other)
    }

    fn encode_value(&self, dst: &mut BytesMut) {
        bytes_mut_extend_from_slice(dst, byte_string_as_slice(self));
    }

    fn encoded_len(&self, tag: u32) -> (n: usize) {
        proof {
            lemma_varint_len(Self::payload(self.model()).len());
        }
        plain_len(WireType::LengthDelimited, self.value_len(), tag)
    }

    fn serialize(&self, tag: u32, default: DefaultValue<&Self>, dst: &mut BytesMut) {
        let suppress = match default {
            DefaultValue::Unknown => false,
            DefaultValue::Default => self.is_default(),
            DefaultValue::Value(d) => self.is_same(d),
        };
        if !suppress {
            proof {
                lemma_varint_len(Self::payload(self.model()).len());
            }
            self.encode_type(tag, dst);
            self.encode_value(dst);
            assert(bytes_mut_seq(dst) =~= bytes_mut_seq(old(dst)) + Self::emitted(
                self.model(),
                tag,
                false,
            ));
        } else {
            assert(bytes_mut_seq(dst) =~= bytes_mut_seq(old(dst)) + Seq::<u8>::empty());
        }
    }

    fn serialized_len(&self, tag: u32, default: DefaultValue<&Self>) -> (n: usize) {
        let suppress = match default {
            DefaultValue::Unknown => false,
            DefaultValue::Default => self.is_default(),
            DefaultValue::Value(d) => self.is_same(d),
        };
        if suppress {
            0
        } else {
            self.encoded_len(tag)
        }
    }

    fn deserialize(&mut self, tag: u32, wtype: WireType, src: &mut Bytes) -> (r: Result<
        (),
        DecodeError,
    >) {
        let ghost left = Self::refused(self.model(), wtype, bytes_seq(src));
        let ghost outcome = Self::parsed(self.model(), wtype, bytes_seq(src));
        match take_delimited(WireType::LengthDelimited, wtype, src) {
            Ok(mut buf) => {
                assert(outcome is Ok <==> Self::merged(self.model(), bytes_seq(&buf)) is Ok);
                self.merge(&mut buf)
            },
            Err(e) => {
                assert(outcome is Err);
                Err(e)
            },
        }
    }
}

/// **Round trip of one field.** A text held as bytes that was written as field `tag` is
/// read back from the bytes behind its key, whatever follows, and the
/// reader stops right behind it.
pub proof fn lemma_byte_string_field(value: Seq<u8>, pre: Seq<u8>, tag: u32, rest: Seq<u8>)
    requires
        MIN_TAG <= tag <= MAX_TAG,
        ByteString::payload(value).len() <= u64::MAX,
        valid_utf8(value),
    ensures
        ({
            let body = ByteString::payload(value);
            let field = varint_bytes(body.len()) + body;
            &&& ByteString::emitted(value, tag, false) == key_bytes(tag, WireType::LengthDelimited)
                + field
            &&& ByteString::parsed(pre, WireType::LengthDelimited, field + rest) == Ok::<
                (Seq<u8>, nat),
                Failure,
            >((value, varint_len(body.len()) + body.len()))
        }),
{
    let body = ByteString::payload(value);
    lemma_delimited_round_trip(WireType::LengthDelimited, body, rest);
    assert(key_bytes(tag, WireType::LengthDelimited) + varint_bytes(body.len()) + body
        =~= key_bytes(tag, WireType::LengthDelimited) + (varint_bytes(body.len()) + body));
    
}

/// The types of this file are all written with the length-delimited wire
/// type.
pub proof fn lemma_delimited_types()
    ensures
        <Bytes as NativeType>::TYPE == WireType::LengthDelimited,
        <Vec<u8> as NativeType>::TYPE == WireType::LengthDelimited,
        <String as NativeType>::TYPE == WireType::LengthDelimited,
        <ByteString as NativeType>::TYPE == WireType::LengthDelimited,
{
}

} // verus!
