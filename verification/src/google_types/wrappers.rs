//! Wrapper messages: one value of a basic type as a message of its own.

use crate::buf::{bytes_is_empty, bytes_mut_seq, bytes_seq, ByteString};
use crate::encoding::{decode_key, skip_field, DecodeError, Failure, WireType};
use crate::types::delimited::{lemma_byte_string_field, lemma_bytes_field};
use crate::types::scalars::{
    lemma_bool_field, lemma_i32_field, lemma_i64_field, lemma_u32_field, lemma_u64_field,
};
use crate::types::{
    field_start, lemma_field_start, lemma_skip_more, skipped, DefaultValue, Message, NativeType,
};
use crate::wire_format::{
    key_bytes, lemma_skip_exact, lemma_skip_parse_bound, lemma_varint_len, lemma_varint_tail_bounds,
    skip_parse, varint_bytes, varint_consumed, varint_parse, MAX_TAG, MIN_TAG,
};
use ntex_bytes::{Bytes, BytesMut};
use vstd::prelude::*;
use vstd::utf8::valid_utf8;

verus! {

/// Wrapper message for `int64`.
///
/// The JSON representation for `Int64Value` is JSON string.
#[derive(Clone, PartialEq, Debug)]
pub struct Int64Value {
    /// The int64 value.
    pub value: i64,
}

impl Default for Int64Value {
    fn default() -> (r: Int64Value)
        ensures
            Message::model(&r) == Int64Value::blank(),
    {
        Int64Value { value: Default::default() }
    }
}

/// Reading the fields of `Int64Value` one after the other into `value`: a field
/// with a known number is read into its place, any other field is passed
/// over, and the end of the input ends the message.
pub open spec fn int64_value_fields(value: i64, s: Seq<u8>) -> Result<i64, Failure>
    decreases s.len(),
{
    if s.len() == 0 {
        Ok(value)
    } else {
        match field_start(s) {
            Err(f) => Err(f),
            Ok((tag, wire_type, n)) => {
                let rest = s.skip(n as int);
                let step: Result<(i64, nat), Failure> = if tag == 1 {
                    match i64::parsed(value, wire_type, rest) {
                        Ok((v, k)) => Ok((v, k)),
                        Err(f) => Err(f.within("Int64Value"@, "value"@)),
                    }
                } else {
                    match skipped(wire_type, tag, rest) {
                        Ok(k) => Ok((value, k)),
                        Err(f) => Err(f),
                    }
                };
                match step {
                    Err(f) => Err(f),
                    // A key takes at least one byte and no field takes more than
                    // there is, so the test never holds: it shows that the
                    // recursion ends.
                    Ok((next, k)) => if n == 0 || n + k > s.len() {
                        Ok(next)
                    } else {
                        int64_value_fields(next, s.skip((n + k) as int))
                    },
                }
            },
        }
    }
}

/// How many bytes the reading of fields into `value` has taken from `s`
/// when it ends: all of them where every field is read or passed over, and
/// those up to where it gave up where a field is refused.
pub open spec fn int64_value_taken(value: i64, s: Seq<u8>) -> nat
    decreases s.len(),
{
    if s.len() == 0 {
        0
    } else {
        match field_start(s) {
            Err(_) => varint_consumed(s),
            Ok((tag, wire_type, n)) => {
                let rest = s.skip(n as int);
                let step: Result<(i64, nat), nat> = if tag == 1 {
                    match i64::parsed(value, wire_type, rest) {
                        Ok((v, k)) => Ok((v, k)),
                        Err(_) => Err(i64::refused(value, wire_type, rest).1),
                    }
                } else {
                    match skipped(wire_type, tag, rest) {
                        Ok(k) => Ok((value, k)),
                        Err(_) => Err(skip_parse(wire_type, tag, rest).1),
                    }
                };
                match step {
                    Err(k) => n + k,
                    // A key takes at least one byte and no field takes more than
                    // there is, so the test never holds: it shows that the
                    // recursion ends.
                    Ok((next, k)) => if n == 0 || n + k > s.len() {
                        n + k
                    } else {
                        n + k + int64_value_taken(next, s.skip((n + k) as int))
                    },
                }
            },
        }
    }
}

impl Message for Int64Value {
    type Model = i64;

    open spec fn model(&self) -> i64 {
        NativeType::model(&self.value)
    }

    open spec fn blank() -> i64 {
        0
    }

    open spec fn wire(m: i64) -> Seq<u8> {
        i64::emitted(m, 1, i64::model_is_default(m))
    }

    open spec fn parse(s: Seq<u8>) -> Result<i64, Failure> {
        int64_value_fields(Self::blank(), s)
    }

    open spec fn taken(s: Seq<u8>) -> nat {
        int64_value_taken(Self::blank(), s)
    }

    proof fn default_is_blank(v: Self) {
        assert(call_ensures(<Int64Value as Default>::default, (), v));
    }

    #[verifier::rlimit(30)]
    fn read(src: &mut Bytes) -> (r: Result<Self, DecodeError>) {
        let ghost whole = bytes_seq(src);
        let mut msg = Self::default();
        let ghost mut d: nat = 0;
        assert(whole.skip(0) =~= whole);
        while !bytes_is_empty(src)
            invariant
                Self::parse(whole) == int64_value_fields(Message::model(&msg), bytes_seq(src)),
                whole == bytes_seq(old(src)),
                d <= whole.len(),
                bytes_seq(src) == whole.skip(d as int),
                Self::taken(whole) == d + int64_value_taken(Message::model(&msg), bytes_seq(src)),
            decreases bytes_seq(src).len(),
        {
            let ghost s = bytes_seq(src);
            let ghost value = Message::model(&msg);
            proof {
                if varint_parse(s).is_some() {
                    lemma_varint_tail_bounds(s, 0);
                }
            }
            let (tag, wire_type) = match decode_key(src) {
                Ok(key) => key,
                Err(e) => {
                    proof {
                        lemma_skip_more(whole, d, varint_consumed(s));
                    }
                    return Err(e);
                },
            };
            let ghost n = varint_consumed(s);
            let ghost rest = s.skip(n as int);
            if tag == 1 {
                match NativeType::deserialize(&mut msg.value, tag, wire_type, src) {
                    Ok(_) => {},
                    Err(e) => {
                        proof {
                            let k = (rest.len() - bytes_seq(src).len()) as nat;
                            lemma_skip_more(whole, d, n);
                            lemma_skip_more(whole, d + n, k);
                        }
                        return Err(e.push("Int64Value", "value"));
                    },
                }
            } else {
                proof {
                    lemma_skip_parse_bound(wire_type, tag, rest);
                }
                match skip_field(wire_type, tag, src) {
                    Ok(_) => {},
                    Err(e) => {
                        proof {
                            let k = (rest.len() - bytes_seq(src).len()) as nat;
                            lemma_skip_more(whole, d, n);
                            lemma_skip_more(whole, d + n, k);
                        }
                        return Err(e);
                    },
                }
            }
            proof {
                let k = (rest.len() - bytes_seq(src).len()) as nat;
                assert(rest.skip(k as int) =~= s.skip((n + k) as int));
                lemma_skip_more(whole, d, n);
                lemma_skip_more(whole, d + n, k);
                d = d + n + k;
            }
        }
        Ok(msg)
    }

    fn write(&self, dst: &mut BytesMut) {
        let ghost start = bytes_mut_seq(dst);
        NativeType::serialize(&self.value, 1, DefaultValue::Default, dst);
        assert(bytes_mut_seq(dst) =~= start + Self::wire(Message::model(self)));
    }

    fn encoded_len(&self) -> (n: usize) {
        NativeType::serialized_len(&self.value, 1, DefaultValue::Default)
    }

    fn is_same(&self, other: &Self) -> (r: bool) {
        self.value == other.value
    }
}

/// **Round trip.** What `write` emits for `Int64Value` is read back as the same
/// value.
pub proof fn lemma_int64_value_round_trip(m: i64)
    ensures
        Int64Value::parse(Int64Value::wire(m)) == Ok::<i64, Failure>(m),
{
    let blank = Int64Value::blank();
    let e0 = i64::emitted(m, 1, i64::model_is_default(m));
    let t1 = Seq::<u8>::empty();
    let t0 = e0 + t1;
    assert(t0 =~= Int64Value::wire(m));
    let v0 = blank;
    let v1 = m;
    assert(int64_value_fields(v1, t1) == Ok::<i64, Failure>(m));
    assert(int64_value_fields(v0, t0) == int64_value_fields(v1, t1)) by {
        if i64::model_is_default(m) {
            assert(t0 =~= t1);
        } else {
            let key = key_bytes(1, WireType::Varint);
            let body = i64::payload(m);
            lemma_i64_field(m, v0, 1, t1);
            lemma_field_start(1, WireType::Varint, body + t1);
            assert(t0 =~= key + (body + t1));
            assert(e0 == key + body);
            let behind = t0.skip((key.len() + body.len()) as int);
            assert(int64_value_fields(v0, t0) == int64_value_fields(v1, behind));
            assert(behind =~= t1);
        }
    }
}

/// **Forward compatibility.** A field with a number that `Int64Value` does
/// not know, standing where a field may begin, is passed over: the message
/// reads as if the field were not there.
pub proof fn lemma_int64_value_skips_unknown(
    value: i64,
    tag: u32,
    wire_type: WireType,
    body: Seq<u8>,
    rest: Seq<u8>,
)
    requires
        MIN_TAG <= tag <= MAX_TAG,
        tag != 1,
        skip_parse(wire_type, tag, body) == (None::<Seq<char>>, body.len()),
    ensures
        int64_value_fields(value, key_bytes(tag, wire_type) + body + rest) == int64_value_fields(
            value,
            rest,
        ),
{
    lemma_skip_exact(wire_type, tag, body, rest);
    let key = key_bytes(tag, wire_type);
    let s = key + body + rest;
    lemma_field_start(tag, wire_type, body + rest);
    assert(s =~= key + (body + rest));
    assert(s.skip(key.len() as int) =~= body + rest);
    assert(s.skip((key.len() + body.len()) as int) =~= rest);
}

/// **Absent fields.** A message read from no bytes at all has every
/// field at the default of its type.
pub proof fn lemma_int64_value_absent_fields()
    ensures
        Int64Value::parse(Seq::empty()) == Ok::<i64, Failure>(Int64Value::blank()),
{
}

/// Wrapper message for `uint64`.
///
/// The JSON representation for `UInt64Value` is JSON string.
#[derive(Clone, PartialEq, Debug)]
pub struct UInt64Value {
    /// The uint64 value.
    pub value: u64,
}

impl Default for UInt64Value {
    fn default() -> (r: UInt64Value)
        ensures
            Message::model(&r) == UInt64Value::blank(),
    {
        UInt64Value { value: Default::default() }
    }
}

/// Reading the fields of `UInt64Value` one after the other into `value`: a field
/// with a known number is read into its place, any other field is passed
/// over, and the end of the input ends the message.
pub open spec fn uint64_value_fields(value: u64, s: Seq<u8>) -> Result<u64, Failure>
    decreases s.len(),
{
    if s.len() == 0 {
        Ok(value)
    } else {
        match field_start(s) {
            Err(f) => Err(f),
            Ok((tag, wire_type, n)) => {
                let rest = s.skip(n as int);
                let step: Result<(u64, nat), Failure> = if tag == 1 {
                    match u64::parsed(value, wire_type, rest) {
                        Ok((v, k)) => Ok((v, k)),
                        Err(f) => Err(f.within("UInt64Value"@, "value"@)),
                    }
                } else {
                    match skipped(wire_type, tag, rest) {
                        Ok(k) => Ok((value, k)),
                        Err(f) => Err(f),
                    }
                };
                match step {
                    Err(f) => Err(f),
                    // A key takes at least one byte and no field takes more than
                    // there is, so the test never holds: it shows that the
                    // recursion ends.
                    Ok((next, k)) => if n == 0 || n + k > s.len() {
                        Ok(next)
                    } else {
                        uint64_value_fields(next, s.skip((n + k) as int))
                    },
                }
            },
        }
    }
}

/// How many bytes the reading of fields into `value` has taken from `s`
/// when it ends: all of them where every field is read or passed over, and
/// those up to where it gave up where a field is refused.
pub open spec fn uint64_value_taken(value: u64, s: Seq<u8>) -> nat
    decreases s.len(),
{
    if s.len() == 0 {
        0
    } else {
        match field_start(s) {
            Err(_) => varint_consumed(s),
            Ok((tag, wire_type, n)) => {
                let rest = s.skip(n as int);
                let step: Result<(u64, nat), nat> = if tag == 1 {
                    match u64::parsed(value, wire_type, rest) {
                        Ok((v, k)) => Ok((v, k)),
                        Err(_) => Err(u64::refused(value, wire_type, rest).1),
                    }
                } else {
                    match skipped(wire_type, tag, rest) {
                        Ok(k) => Ok((value, k)),
                        Err(_) => Err(skip_parse(wire_type, tag, rest).1),
                    }
                };
                match step {
                    Err(k) => n + k,
                    // A key takes at least one byte and no field takes more than
                    // there is, so the test never holds: it shows that the
                    // recursion ends.
                    Ok((next, k)) => if n == 0 || n + k > s.len() {
                        n + k
                    } else {
                        n + k + uint64_value_taken(next, s.skip((n + k) as int))
                    },
                }
            },
        }
    }
}

impl Message for UInt64Value {
    type Model = u64;

    open spec fn model(&self) -> u64 {
        NativeType::model(&self.value)
    }

    open spec fn blank() -> u64 {
        0
    }

    open spec fn wire(m: u64) -> Seq<u8> {
        u64::emitted(m, 1, u64::model_is_default(m))
    }

    open spec fn parse(s: Seq<u8>) -> Result<u64, Failure> {
        uint64_value_fields(Self::blank(), s)
    }

    open spec fn taken(s: Seq<u8>) -> nat {
        uint64_value_taken(Self::blank(), s)
    }

    proof fn default_is_blank(v: Self) {
        assert(call_ensures(<UInt64Value as Default>::default, (), v));
    }

    #[verifier::rlimit(30)]
    fn read(src: &mut Bytes) -> (r: Result<Self, DecodeError>) {
        let ghost whole = bytes_seq(src);
        let mut msg = Self::default();
        let ghost mut d: nat = 0;
        assert(whole.skip(0) =~= whole);
        while !bytes_is_empty(src)
            invariant
                Self::parse(whole) == uint64_value_fields(Message::model(&msg), bytes_seq(src)),
                whole == bytes_seq(old(src)),
                d <= whole.len(),
                bytes_seq(src) == whole.skip(d as int),
                Self::taken(whole) == d + uint64_value_taken(Message::model(&msg), bytes_seq(src)),
            decreases bytes_seq(src).len(),
        {
            let ghost s = bytes_seq(src);
            let ghost value = Message::model(&msg);
            proof {
                if varint_parse(s).is_some() {
                    lemma_varint_tail_bounds(s, 0);
                }
            }
            let (tag, wire_type) = match decode_key(src) {
                Ok(key) => key,
                Err(e) => {
                    proof {
                        lemma_skip_more(whole, d, varint_consumed(s));
                    }
                    return Err(e);
                },
            };
            let ghost n = varint_consumed(s);
            let ghost rest = s.skip(n as int);
            if tag == 1 {
                match NativeType::deserialize(&mut msg.value, tag, wire_type, src) {
                    Ok(_) => {},
                    Err(e) => {
                        proof {
                            let k = (rest.len() - bytes_seq(src).len()) as nat;
                            lemma_skip_more(whole, d, n);
                            lemma_skip_more(whole, d + n, k);
                        }
                        return Err(e.push("UInt64Value", "value"));
                    },
                }
            } else {
                proof {
                    lemma_skip_parse_bound(wire_type, tag, rest);
                }
                match skip_field(wire_type, tag, src) {
                    Ok(_) => {},
                    Err(e) => {
                        proof {
                            let k = (rest.len() - bytes_seq(src).len()) as nat;
                            lemma_skip_more(whole, d, n);
                            lemma_skip_more(whole, d + n, k);
                        }
                        return Err(e);
                    },
                }
            }
            proof {
                let k = (rest.len() - bytes_seq(src).len()) as nat;
                assert(rest.skip(k as int) =~= s.skip((n + k) as int));
                lemma_skip_more(whole, d, n);
                lemma_skip_more(whole, d + n, k);
                d = d + n + k;
            }
        }
        Ok(msg)
    }

    fn write(&self, dst: &mut BytesMut) {
        let ghost start = bytes_mut_seq(dst);
        NativeType::serialize(&self.value, 1, DefaultValue::Default, dst);
        assert(bytes_mut_seq(dst) =~= start + Self::wire(Message::model(self)));
    }

    fn encoded_len(&self) -> (n: usize) {
        NativeType::serialized_len(&self.value, 1, DefaultValue::Default)
    }

    fn is_same(&self, other: &Self) -> (r: bool) {
        self.value == other.value
    }
}

/// **Round trip.** What `write` emits for `UInt64Value` is read back as the same
/// value.
pub proof fn lemma_uint64_value_round_trip(m: u64)
    ensures
        UInt64Value::parse(UInt64Value::wire(m)) == Ok::<u64, Failure>(m),
{
    let blank = UInt64Value::blank();
    let e0 = u64::emitted(m, 1, u64::model_is_default(m));
    let t1 = Seq::<u8>::empty();
    let t0 = e0 + t1;
    assert(t0 =~= UInt64Value::wire(m));
    let v0 = blank;
    let v1 = m;
    assert(uint64_value_fields(v1, t1) == Ok::<u64, Failure>(m));
    assert(uint64_value_fields(v0, t0) == uint64_value_fields(v1, t1)) by {
        if u64::model_is_default(m) {
            assert(t0 =~= t1);
        } else {
            let key = key_bytes(1, WireType::Varint);
            let body = u64::payload(m);
            lemma_u64_field(m, v0, 1, t1);
            lemma_field_start(1, WireType::Varint, body + t1);
            assert(t0 =~= key + (body + t1));
            assert(e0 == key + body);
            let behind = t0.skip((key.len() + body.len()) as int);
            assert(uint64_value_fields(v0, t0) == uint64_value_fields(v1, behind));
            assert(behind =~= t1);
        }
    }
}

/// **Forward compatibility.** A field with a number that `UInt64Value` does
/// not know, standing where a field may begin, is passed over: the message
/// reads as if the field were not there.
pub proof fn lemma_uint64_value_skips_unknown(
    value: u64,
    tag: u32,
    wire_type: WireType,
    body: Seq<u8>,
    rest: Seq<u8>,
)
    requires
        MIN_TAG <= tag <= MAX_TAG,
        tag != 1,
        skip_parse(wire_type, tag, body) == (None::<Seq<char>>, body.len()),
    ensures
        uint64_value_fields(value, key_bytes(tag, wire_type) + body + rest) == uint64_value_fields(
            value,
            rest,
        ),
{
    lemma_skip_exact(wire_type, tag, body, rest);
    let key = key_bytes(tag, wire_type);
    let s = key + body + rest;
    lemma_field_start(tag, wire_type, body + rest);
    assert(s =~= key + (body + rest));
    assert(s.skip(key.len() as int) =~= body + rest);
    assert(s.skip((key.len() + body.len()) as int) =~= rest);
}

/// **Absent fields.** A message read from no bytes at all has every
/// field at the default of its type.
pub proof fn lemma_uint64_value_absent_fields()
    ensures
        UInt64Value::parse(Seq::empty()) == Ok::<u64, Failure>(UInt64Value::blank()),
{
}

/// Wrapper message for `int32`.
///
/// The JSON representation for `Int32Value` is JSON number.
#[derive(Clone, PartialEq, Debug)]
pub struct Int32Value {
    /// The int32 value.
    pub value: i32,
}

impl Default for Int32Value {
    fn default() -> (r: Int32Value)
        ensures
            Message::model(&r) == Int32Value::blank(),
    {
        Int32Value { value: Default::default() }
    }
}

/// Reading the fields of `Int32Value` one after the other into `value`: a field
/// with a known number is read into its place, any other field is passed
/// over, and the end of the input ends the message.
pub open spec fn int32_value_fields(value: i32, s: Seq<u8>) -> Result<i32, Failure>
    decreases s.len(),
{
    if s.len() == 0 {
        Ok(value)
    } else {
        match field_start(s) {
            Err(f) => Err(f),
            Ok((tag, wire_type, n)) => {
                let rest = s.skip(n as int);
                let step: Result<(i32, nat), Failure> = if tag == 1 {
                    match i32::parsed(value, wire_type, rest) {
                        Ok((v, k)) => Ok((v, k)),
                        Err(f) => Err(f.within("Int32Value"@, "value"@)),
                    }
                } else {
                    match skipped(wire_type, tag, rest) {
                        Ok(k) => Ok((value, k)),
                        Err(f) => Err(f),
                    }
                };
                match step {
                    Err(f) => Err(f),
                    // A key takes at least one byte and no field takes more than
                    // there is, so the test never holds: it shows that the
                    // recursion ends.
                    Ok((next, k)) => if n == 0 || n + k > s.len() {
                        Ok(next)
                    } else {
                        int32_value_fields(next, s.skip((n + k) as int))
                    },
                }
            },
        }
    }
}

/// How many bytes the reading of fields into `value` has taken from `s`
/// when it ends: all of them where every field is read or passed over, and
/// those up to where it gave up where a field is refused.
pub open spec fn int32_value_taken(value: i32, s: Seq<u8>) -> nat
    decreases s.len(),
{
    if s.len() == 0 {
        0
    } else {
        match field_start(s) {
            Err(_) => varint_consumed(s),
            Ok((tag, wire_type, n)) => {
                let rest = s.skip(n as int);
                let step: Result<(i32, nat), nat> = if tag == 1 {
                    match i32::parsed(value, wire_type, rest) {
                        Ok((v, k)) => Ok((v, k)),
                        Err(_) => Err(i32::refused(value, wire_type, rest).1),
                    }
                } else {
                    match skipped(wire_type, tag, rest) {
                        Ok(k) => Ok((value, k)),
                        Err(_) => Err(skip_parse(wire_type, tag, rest).1),
                    }
                };
                match step {
                    Err(k) => n + k,
                    // A key takes at least one byte and no field takes more than
                    // there is, so the test never holds: it shows that the
                    // recursion ends.
                    Ok((next, k)) => if n == 0 || n + k > s.len() {
                        n + k
                    } else {
                        n + k + int32_value_taken(next, s.skip((n + k) as int))
                    },
                }
            },
        }
    }
}

impl Message for Int32Value {
    type Model = i32;

    open spec fn model(&self) -> i32 {
        NativeType::model(&self.value)
    }

    open spec fn blank() -> i32 {
        0
    }

    open spec fn wire(m: i32) -> Seq<u8> {
        i32::emitted(m, 1, i32::model_is_default(m))
    }

    open spec fn parse(s: Seq<u8>) -> Result<i32, Failure> {
        int32_value_fields(Self::blank(), s)
    }

    open spec fn taken(s: Seq<u8>) -> nat {
        int32_value_taken(Self::blank(), s)
    }

    proof fn default_is_blank(v: Self) {
        assert(call_ensures(<Int32Value as Default>::default, (), v));
    }

    #[verifier::rlimit(30)]
    fn read(src: &mut Bytes) -> (r: Result<Self, DecodeError>) {
        let ghost whole = bytes_seq(src);
        let mut msg = Self::default();
        let ghost mut d: nat = 0;
        assert(whole.skip(0) =~= whole);
        while !bytes_is_empty(src)
            invariant
                Self::parse(whole) == int32_value_fields(Message::model(&msg), bytes_seq(src)),
                whole == bytes_seq(old(src)),
                d <= whole.len(),
                bytes_seq(src) == whole.skip(d as int),
                Self::taken(whole) == d + int32_value_taken(Message::model(&msg), bytes_seq(src)),
            decreases bytes_seq(src).len(),
        {
            let ghost s = bytes_seq(src);
            let ghost value = Message::model(&msg);
            proof {
                if varint_parse(s).is_some() {
                    lemma_varint_tail_bounds(s, 0);
                }
            }
            let (tag, wire_type) = match decode_key(src) {
                Ok(key) => key,
                Err(e) => {
                    proof {
                        lemma_skip_more(whole, d, varint_consumed(s));
                    }
                    return Err(e);
                },
            };
            let ghost n = varint_consumed(s);
            let ghost rest = s.skip(n as int);
            if tag == 1 {
                match NativeType::deserialize(&mut msg.value, tag, wire_type, src) {
                    Ok(_) => {},
                    Err(e) => {
                        proof {
                            let k = (rest.len() - bytes_seq(src).len()) as nat;
                            lemma_skip_more(whole, d, n);
                            lemma_skip_more(whole, d + n, k);
                        }
                        return Err(e.push("Int32Value", "value"));
                    },
                }
            } else {
                proof {
                    lemma_skip_parse_bound(wire_type, tag, rest);
                }
                match skip_field(wire_type, tag, src) {
                    Ok(_) => {},
                    Err(e) => {
                        proof {
                            let k = (rest.len() - bytes_seq(src).len()) as nat;
                            lemma_skip_more(whole, d, n);
                            lemma_skip_more(whole, d + n, k);
                        }
                        return Err(e);
                    },
                }
            }
            proof {
                let k = (rest.len() - bytes_seq(src).len()) as nat;
                assert(rest.skip(k as int) =~= s.skip((n + k) as int));
                lemma_skip_more(whole, d, n);
                lemma_skip_more(whole, d + n, k);
                d = d + n + k;
            }
        }
        Ok(msg)
    }

    fn write(&self, dst: &mut BytesMut) {
        let ghost start = bytes_mut_seq(dst);
        NativeType::serialize(&self.value, 1, DefaultValue::Default, dst);
        assert(bytes_mut_seq(dst) =~= start + Self::wire(Message::model(self)));
    }

    fn encoded_len(&self) -> (n: usize) {
        NativeType::serialized_len(&self.value, 1, DefaultValue::Default)
    }

    fn is_same(&self, other: &Self) -> (r: bool) {
        self.value == other.value
    }
}

/// **Round trip.** What `write` emits for `Int32Value` is read back as the same
/// value.
pub proof fn lemma_int32_value_round_trip(m: i32)
    ensures
        Int32Value::parse(Int32Value::wire(m)) == Ok::<i32, Failure>(m),
{
    let blank = Int32Value::blank();
    let e0 = i32::emitted(m, 1, i32::model_is_default(m));
    let t1 = Seq::<u8>::empty();
    let t0 = e0 + t1;
    assert(t0 =~= Int32Value::wire(m));
    let v0 = blank;
    let v1 = m;
    assert(int32_value_fields(v1, t1) == Ok::<i32, Failure>(m));
    assert(int32_value_fields(v0, t0) == int32_value_fields(v1, t1)) by {
        if i32::model_is_default(m) {
            assert(t0 =~= t1);
        } else {
            let key = key_bytes(1, WireType::Varint);
            let body = i32::payload(m);
            lemma_i32_field(m, v0, 1, t1);
            lemma_field_start(1, WireType::Varint, body + t1);
            assert(t0 =~= key + (body + t1));
            assert(e0 == key + body);
            let behind = t0.skip((key.len() + body.len()) as int);
            assert(int32_value_fields(v0, t0) == int32_value_fields(v1, behind));
            assert(behind =~= t1);
        }
    }
}

/// **Forward compatibility.** A field with a number that `Int32Value` does
/// not know, standing where a field may begin, is passed over: the message
/// reads as if the field were not there.
pub proof fn lemma_int32_value_skips_unknown(
    value: i32,
    tag: u32,
    wire_type: WireType,
    body: Seq<u8>,
    rest: Seq<u8>,
)
    requires
        MIN_TAG <= tag <= MAX_TAG,
        tag != 1,
        skip_parse(wire_type, tag, body) == (None::<Seq<char>>, body.len()),
    ensures
        int32_value_fields(value, key_bytes(tag, wire_type) + body + rest) == int32_value_fields(
            value,
            rest,
        ),
{
    lemma_skip_exact(wire_type, tag, body, rest);
    let key = key_bytes(tag, wire_type);
    let s = key + body + rest;
    lemma_field_start(tag, wire_type, body + rest);
    assert(s =~= key + (body + rest));
    assert(s.skip(key.len() as int) =~= body + rest);
    assert(s.skip((key.len() + body.len()) as int) =~= rest);
}

/// **Absent fields.** A message read from no bytes at all has every
/// field at the default of its type.
pub proof fn lemma_int32_value_absent_fields()
    ensures
        Int32Value::parse(Seq::empty()) == Ok::<i32, Failure>(Int32Value::blank()),
{
}

/// Wrapper message for `uint32`.
///
/// The JSON representation for `UInt32Value` is JSON number.
#[derive(Clone, PartialEq, Debug)]
pub struct UInt32Value {
    /// The uint32 value.
    pub value: u32,
}

impl Default for UInt32Value {
    fn default() -> (r: UInt32Value)
        ensures
            Message::model(&r) == UInt32Value::blank(),
    {
        UInt32Value { value: Default::default() }
    }
}

/// Reading the fields of `UInt32Value` one after the other into `value`: a field
/// with a known number is read into its place, any other field is passed
/// over, and the end of the input ends the message.
pub open spec fn uint32_value_fields(value: u32, s: Seq<u8>) -> Result<u32, Failure>
    decreases s.len(),
{
    if s.len() == 0 {
        Ok(value)
    } else {
        match field_start(s) {
            Err(f) => Err(f),
            Ok((tag, wire_type, n)) => {
                let rest = s.skip(n as int);
                let step: Result<(u32, nat), Failure> = if tag == 1 {
                    match u32::parsed(value, wire_type, rest) {
                        Ok((v, k)) => Ok((v, k)),
                        Err(f) => Err(f.within("UInt32Value"@, "value"@)),
                    }
                } else {
                    match skipped(wire_type, tag, rest) {
                        Ok(k) => Ok((value, k)),
                        Err(f) => Err(f),
                    }
                };
                match step {
                    Err(f) => Err(f),
                    // A key takes at least one byte and no field takes more than
                    // there is, so the test never holds: it shows that the
                    // recursion ends.
                    Ok((next, k)) => if n == 0 || n + k > s.len() {
                        Ok(next)
                    } else {
                        uint32_value_fields(next, s.skip((n + k) as int))
                    },
                }
            },
        }
    }
}

/// How many bytes the reading of fields into `value` has taken from `s`
/// when it ends: all of them where every field is read or passed over, and
/// those up to where it gave up where a field is refused.
pub open spec fn uint32_value_taken(value: u32, s: Seq<u8>) -> nat
    decreases s.len(),
{
    if s.len() == 0 {
        0
    } else {
        match field_start(s) {
            Err(_) => varint_consumed(s),
            Ok((tag, wire_type, n)) => {
                let rest = s.skip(n as int);
                let step: Result<(u32, nat), nat> = if tag == 1 {
                    match u32::parsed(value, wire_type, rest) {
                        Ok((v, k)) => Ok((v, k)),
                        Err(_) => Err(u32::refused(value, wire_type, rest).1),
                    }
                } else {
                    match skipped(wire_type, tag, rest) {
                        Ok(k) => Ok((value, k)),
                        Err(_) => Err(skip_parse(wire_type, tag, rest).1),
                    }
                };
                match step {
                    Err(k) => n + k,
                    // A key takes at least one byte and no field takes more than
                    // there is, so the test never holds: it shows that the
                    // recursion ends.
                    Ok((next, k)) => if n == 0 || n + k > s.len() {
                        n + k
                    } else {
                        n + k + uint32_value_taken(next, s.skip((n + k) as int))
                    },
                }
            },
        }
    }
}

impl Message for UInt32Value {
    type Model = u32;

    open spec fn model(&self) -> u32 {
        NativeType::model(&self.value)
    }

    open spec fn blank() -> u32 {
        0
    }

    open spec fn wire(m: u32) -> Seq<u8> {
        u32::emitted(m, 1, u32::model_is_default(m))
    }

    open spec fn parse(s: Seq<u8>) -> Result<u32, Failure> {
        uint32_value_fields(Self::blank(), s)
    }

    open spec fn taken(s: Seq<u8>) -> nat {
        uint32_value_taken(Self::blank(), s)
    }

    proof fn default_is_blank(v: Self) {
        assert(call_ensures(<UInt32Value as Default>::default, (), v));
    }

    #[verifier::rlimit(30)]
    fn read(src: &mut Bytes) -> (r: Result<Self, DecodeError>) {
        let ghost whole = bytes_seq(src);
        let mut msg = Self::default();
        let ghost mut d: nat = 0;
        assert(whole.skip(0) =~= whole);
        while !bytes_is_empty(src)
            invariant
                Self::parse(whole) == uint32_value_fields(Message::model(&msg), bytes_seq(src)),
                whole == bytes_seq(old(src)),
                d <= whole.len(),
                bytes_seq(src) == whole.skip(d as int),
                Self::taken(whole) == d + uint32_value_taken(Message::model(&msg), bytes_seq(src)),
            decreases bytes_seq(src).len(),
        {
            let ghost s = bytes_seq(src);
            let ghost value = Message::model(&msg);
            proof {
                if varint_parse(s).is_some() {
                    lemma_varint_tail_bounds(s, 0);
                }
            }
            let (tag, wire_type) = match decode_key(src) {
                Ok(key) => key,
                Err(e) => {
                    proof {
                        lemma_skip_more(whole, d, varint_consumed(s));
                    }
                    return Err(e);
                },
            };
            let ghost n = varint_consumed(s);
            let ghost rest = s.skip(n as int);
            if tag == 1 {
                match NativeType::deserialize(&mut msg.value, tag, wire_type, src) {
                    Ok(_) => {},
                    Err(e) => {
                        proof {
                            let k = (rest.len() - bytes_seq(src).len()) as nat;
                            lemma_skip_more(whole, d, n);
                            lemma_skip_more(whole, d + n, k);
                        }
                        return Err(e.push("UInt32Value", "value"));
                    },
                }
            } else {
                proof {
                    lemma_skip_parse_bound(wire_type, tag, rest);
                }
                match skip_field(wire_type, tag, src) {
                    Ok(_) => {},
                    Err(e) => {
                        proof {
                            let k = (rest.len() - bytes_seq(src).len()) as nat;
                            lemma_skip_more(whole, d, n);
                            lemma_skip_more(whole, d + n, k);
                        }
                        return Err(e);
                    },
                }
            }
            proof {
                let k = (rest.len() - bytes_seq(src).len()) as nat;
                assert(rest.skip(k as int) =~= s.skip((n + k) as int));
                lemma_skip_more(whole, d, n);
                lemma_skip_more(whole, d + n, k);
                d = d + n + k;
            }
        }
        Ok(msg)
    }

    fn write(&self, dst: &mut BytesMut) {
        let ghost start = bytes_mut_seq(dst);
        NativeType::serialize(&self.value, 1, DefaultValue::Default, dst);
        assert(bytes_mut_seq(dst) =~= start + Self::wire(Message::model(self)));
    }

    fn encoded_len(&self) -> (n: usize) {
        NativeType::serialized_len(&self.value, 1, DefaultValue::Default)
    }

    fn is_same(&self, other: &Self) -> (r: bool) {
        self.value == other.value
    }
}

/// **Round trip.** What `write` emits for `UInt32Value` is read back as the same
/// value.
pub proof fn lemma_uint32_value_round_trip(m: u32)
    ensures
        UInt32Value::parse(UInt32Value::wire(m)) == Ok::<u32, Failure>(m),
{
    let blank = UInt32Value::blank();
    let e0 = u32::emitted(m, 1, u32::model_is_default(m));
    let t1 = Seq::<u8>::empty();
    let t0 = e0 + t1;
    assert(t0 =~= UInt32Value::wire(m));
    let v0 = blank;
    let v1 = m;
    assert(uint32_value_fields(v1, t1) == Ok::<u32, Failure>(m));
    assert(uint32_value_fields(v0, t0) == uint32_value_fields(v1, t1)) by {
        if u32::model_is_default(m) {
            assert(t0 =~= t1);
        } else {
            let key = key_bytes(1, WireType::Varint);
            let body = u32::payload(m);
            lemma_u32_field(m, v0, 1, t1);
            lemma_field_start(1, WireType::Varint, body + t1);
            assert(t0 =~= key + (body + t1));
            assert(e0 == key + body);
            let behind = t0.skip((key.len() + body.len()) as int);
            assert(uint32_value_fields(v0, t0) == uint32_value_fields(v1, behind));
            assert(behind =~= t1);
        }
    }
}

/// **Forward compatibility.** A field with a number that `UInt32Value` does
/// not know, standing where a field may begin, is passed over: the message
/// reads as if the field were not there.
pub proof fn lemma_uint32_value_skips_unknown(
    value: u32,
    tag: u32,
    wire_type: WireType,
    body: Seq<u8>,
    rest: Seq<u8>,
)
    requires
        MIN_TAG <= tag <= MAX_TAG,
        tag != 1,
        skip_parse(wire_type, tag, body) == (None::<Seq<char>>, body.len()),
    ensures
        uint32_value_fields(value, key_bytes(tag, wire_type) + body + rest) == uint32_value_fields(
            value,
            rest,
        ),
{
    lemma_skip_exact(wire_type, tag, body, rest);
    let key = key_bytes(tag, wire_type);
    let s = key + body + rest;
    lemma_field_start(tag, wire_type, body + rest);
    assert(s =~= key + (body + rest));
    assert(s.skip(key.len() as int) =~= body + rest);
    assert(s.skip((key.len() + body.len()) as int) =~= rest);
}

/// **Absent fields.** A message read from no bytes at all has every
/// field at the default of its type.
pub proof fn lemma_uint32_value_absent_fields()
    ensures
        UInt32Value::parse(Seq::empty()) == Ok::<u32, Failure>(UInt32Value::blank()),
{
}

/// Wrapper message for `bool`.
///
/// The JSON representation for `BoolValue` is JSON `true` and `false`.
#[derive(Clone, PartialEq, Debug)]
pub struct BoolValue {
    /// The bool value.
    pub value: bool,
}

impl Default for BoolValue {
    fn default() -> (r: BoolValue)
        ensures
            Message::model(&r) == BoolValue::blank(),
    {
        BoolValue { value: Default::default() }
    }
}

/// Reading the fields of `BoolValue` one after the other into `value`: a field
/// with a known number is read into its place, any other field is passed
/// over, and the end of the input ends the message.
pub open spec fn bool_value_fields(value: bool, s: Seq<u8>) -> Result<bool, Failure>
    decreases s.len(),
{
    if s.len() == 0 {
        Ok(value)
    } else {
        match field_start(s) {
            Err(f) => Err(f),
            Ok((tag, wire_type, n)) => {
                let rest = s.skip(n as int);
                let step: Result<(bool, nat), Failure> = if tag == 1 {
                    match bool::parsed(value, wire_type, rest) {
                        Ok((v, k)) => Ok((v, k)),
                        Err(f) => Err(f.within("BoolValue"@, "value"@)),
                    }
                } else {
                    match skipped(wire_type, tag, rest) {
                        Ok(k) => Ok((value, k)),
                        Err(f) => Err(f),
                    }
                };
                match step {
                    Err(f) => Err(f),
                    // A key takes at least one byte and no field takes more than
                    // there is, so the test never holds: it shows that the
                    // recursion ends.
                    Ok((next, k)) => if n == 0 || n + k > s.len() {
                        Ok(next)
                    } else {
                        bool_value_fields(next, s.skip((n + k) as int))
                    },
                }
            },
        }
    }
}

/// How many bytes the reading of fields into `value` has taken from `s`
/// when it ends: all of them where every field is read or passed over, and
/// those up to where it gave up where a field is refused.
pub open spec fn bool_value_taken(value: bool, s: Seq<u8>) -> nat
    decreases s.len(),
{
    if s.len() == 0 {
        0
    } else {
        match field_start(s) {
            Err(_) => varint_consumed(s),
            Ok((tag, wire_type, n)) => {
                let rest = s.skip(n as int);
                let step: Result<(bool, nat), nat> = if tag == 1 {
                    match bool::parsed(value, wire_type, rest) {
                        Ok((v, k)) => Ok((v, k)),
                        Err(_) => Err(bool::refused(value, wire_type, rest).1),
                    }
                } else {
                    match skipped(wire_type, tag, rest) {
                        Ok(k) => Ok((value, k)),
                        Err(_) => Err(skip_parse(wire_type, tag, rest).1),
                    }
                };
                match step {
                    Err(k) => n + k,
                    // A key takes at least one byte and no field takes more than
                    // there is, so the test never holds: it shows that the
                    // recursion ends.
                    Ok((next, k)) => if n == 0 || n + k > s.len() {
                        n + k
                    } else {
                        n + k + bool_value_taken(next, s.skip((n + k) as int))
                    },
                }
            },
        }
    }
}

impl Message for BoolValue {
    type Model = bool;

    open spec fn model(&self) -> bool {
        NativeType::model(&self.value)
    }

    open spec fn blank() -> bool {
        false
    }

    open spec fn wire(m: bool) -> Seq<u8> {
        bool::emitted(m, 1, bool::model_is_default(m))
    }

    open spec fn parse(s: Seq<u8>) -> Result<bool, Failure> {
        bool_value_fields(Self::blank(), s)
    }

    open spec fn taken(s: Seq<u8>) -> nat {
        bool_value_taken(Self::blank(), s)
    }

    proof fn default_is_blank(v: Self) {
        assert(call_ensures(<BoolValue as Default>::default, (), v));
    }

    #[verifier::rlimit(30)]
    fn read(src: &mut Bytes) -> (r: Result<Self, DecodeError>) {
        let ghost whole = bytes_seq(src);
        let mut msg = Self::default();
        let ghost mut d: nat = 0;
        assert(whole.skip(0) =~= whole);
        while !bytes_is_empty(src)
            invariant
                Self::parse(whole) == bool_value_fields(Message::model(&msg), bytes_seq(src)),
                whole == bytes_seq(old(src)),
                d <= whole.len(),
                bytes_seq(src) == whole.skip(d as int),
                Self::taken(whole) == d + bool_value_taken(Message::model(&msg), bytes_seq(src)),
            decreases bytes_seq(src).len(),
        {
            let ghost s = bytes_seq(src);
            let ghost value = Message::model(&msg);
            proof {
                if varint_parse(s).is_some() {
                    lemma_varint_tail_bounds(s, 0);
                }
            }
            let (tag, wire_type) = match decode_key(src) {
                Ok(key) => key,
                Err(e) => {
                    proof {
                        lemma_skip_more(whole, d, varint_consumed(s));
                    }
                    return Err(e);
                },
            };
            let ghost n = varint_consumed(s);
            let ghost rest = s.skip(n as int);
            if tag == 1 {
                match NativeType::deserialize(&mut msg.value, tag, wire_type, src) {
                    Ok(_) => {},
                    Err(e) => {
                        proof {
                            let k = (rest.len() - bytes_seq(src).len()) as nat;
                            lemma_skip_more(whole, d, n);
                            lemma_skip_more(whole, d + n, k);
                        }
                        return Err(e.push("BoolValue", "value"));
                    },
                }
            } else {
                proof {
                    lemma_skip_parse_bound(wire_type, tag, rest);
                }
                match skip_field(wire_type, tag, src) {
                    Ok(_) => {},
                    Err(e) => {
                        proof {
                            let k = (rest.len() - bytes_seq(src).len()) as nat;
                            lemma_skip_more(whole, d, n);
                            lemma_skip_more(whole, d + n, k);
                        }
                        return Err(e);
                    },
                }
            }
            proof {
                let k = (rest.len() - bytes_seq(src).len()) as nat;
                assert(rest.skip(k as int) =~= s.skip((n + k) as int));
                lemma_skip_more(whole, d, n);
                lemma_skip_more(whole, d + n, k);
                d = d + n + k;
            }
        }
        Ok(msg)
    }

    fn write(&self, dst: &mut BytesMut) {
        let ghost start = bytes_mut_seq(dst);
        NativeType::serialize(&self.value, 1, DefaultValue::Default, dst);
        assert(bytes_mut_seq(dst) =~= start + Self::wire(Message::model(self)));
    }

    fn encoded_len(&self) -> (n: usize) {
        NativeType::serialized_len(&self.value, 1, DefaultValue::Default)
    }

    fn is_same(&self, other: &Self) -> (r: bool) {
        self.value == other.value
    }
}

/// **Round trip.** What `write` emits for `BoolValue` is read back as the same
/// value.
pub proof fn lemma_bool_value_round_trip(m: bool)
    ensures
        BoolValue::parse(BoolValue::wire(m)) == Ok::<bool, Failure>(m),
{
    let blank = BoolValue::blank();
    let e0 = bool::emitted(m, 1, bool::model_is_default(m));
    let t1 = Seq::<u8>::empty();
    let t0 = e0 + t1;
    assert(t0 =~= BoolValue::wire(m));
    let v0 = blank;
    let v1 = m;
    assert(bool_value_fields(v1, t1) == Ok::<bool, Failure>(m));
    assert(bool_value_fields(v0, t0) == bool_value_fields(v1, t1)) by {
        if bool::model_is_default(m) {
            assert(t0 =~= t1);
        } else {
            let key = key_bytes(1, WireType::Varint);
            let body = bool::payload(m);
            lemma_bool_field(m, v0, 1, t1);
            lemma_field_start(1, WireType::Varint, body + t1);
            assert(t0 =~= key + (body + t1));
            assert(e0 == key + body);
            let behind = t0.skip((key.len() + body.len()) as int);
            assert(bool_value_fields(v0, t0) == bool_value_fields(v1, behind));
            assert(behind =~= t1);
        }
    }
}

/// **Forward compatibility.** A field with a number that `BoolValue` does
/// not know, standing where a field may begin, is passed over: the message
/// reads as if the field were not there.
pub proof fn lemma_bool_value_skips_unknown(
    value: bool,
    tag: u32,
    wire_type: WireType,
    body: Seq<u8>,
    rest: Seq<u8>,
)
    requires
        MIN_TAG <= tag <= MAX_TAG,
        tag != 1,
        skip_parse(wire_type, tag, body) == (None::<Seq<char>>, body.len()),
    ensures
        bool_value_fields(value, key_bytes(tag, wire_type) + body + rest) == bool_value_fields(
            value,
            rest,
        ),
{
    lemma_skip_exact(wire_type, tag, body, rest);
    let key = key_bytes(tag, wire_type);
    let s = key + body + rest;
    lemma_field_start(tag, wire_type, body + rest);
    assert(s =~= key + (body + rest));
    assert(s.skip(key.len() as int) =~= body + rest);
    assert(s.skip((key.len() + body.len()) as int) =~= rest);
}

/// **Absent fields.** A message read from no bytes at all has every
/// field at the default of its type.
pub proof fn lemma_bool_value_absent_fields()
    ensures
        BoolValue::parse(Seq::empty()) == Ok::<bool, Failure>(BoolValue::blank()),
{
}

/// Wrapper message for `string`.
///
/// The JSON representation for `StringValue` is JSON string.
#[derive(Clone, PartialEq, Debug)]
pub struct StringValue {
    /// The string value.
    pub value: ByteString,
}

impl Default for StringValue {
    fn default() -> (r: StringValue)
        ensures
            Message::model(&r) == StringValue::blank(),
    {
        StringValue { value: Default::default() }
    }
}

/// Reading the fields of `StringValue` one after the other into `value`: a field
/// with a known number is read into its place, any other field is passed
/// over, and the end of the input ends the message.
pub open spec fn string_value_fields(value: Seq<u8>, s: Seq<u8>) -> Result<Seq<u8>, Failure>
    decreases s.len(),
{
    if s.len() == 0 {
        Ok(value)
    } else {
        match field_start(s) {
            Err(f) => Err(f),
            Ok((tag, wire_type, n)) => {
                let rest = s.skip(n as int);
                let step: Result<(Seq<u8>, nat), Failure> = if tag == 1 {
                    match ByteString::parsed(value, wire_type, rest) {
                        Ok((v, k)) => Ok((v, k)),
                        Err(f) => Err(f.within("StringValue"@, "value"@)),
                    }
                } else {
                    match skipped(wire_type, tag, rest) {
                        Ok(k) => Ok((value, k)),
                        Err(f) => Err(f),
                    }
                };
                match step {
                    Err(f) => Err(f),
                    // A key takes at least one byte and no field takes more than
                    // there is, so the test never holds: it shows that the
                    // recursion ends.
                    Ok((next, k)) => if n == 0 || n + k > s.len() {
                        Ok(next)
                    } else {
                        string_value_fields(next, s.skip((n + k) as int))
                    },
                }
            },
        }
    }
}

/// How many bytes the reading of fields into `value` has taken from `s`
/// when it ends: all of them where every field is read or passed over, and
/// those up to where it gave up where a field is refused.
pub open spec fn string_value_taken(value: Seq<u8>, s: Seq<u8>) -> nat
    decreases s.len(),
{
    if s.len() == 0 {
        0
    } else {
        match field_start(s) {
            Err(_) => varint_consumed(s),
            Ok((tag, wire_type, n)) => {
                let rest = s.skip(n as int);
                let step: Result<(Seq<u8>, nat), nat> = if tag == 1 {
                    match ByteString::parsed(value, wire_type, rest) {
                        Ok((v, k)) => Ok((v, k)),
                        Err(_) => Err(ByteString::refused(value, wire_type, rest).1),
                    }
                } else {
                    match skipped(wire_type, tag, rest) {
                        Ok(k) => Ok((value, k)),
                        Err(_) => Err(skip_parse(wire_type, tag, rest).1),
                    }
                };
                match step {
                    Err(k) => n + k,
                    // A key takes at least one byte and no field takes more than
                    // there is, so the test never holds: it shows that the
                    // recursion ends.
                    Ok((next, k)) => if n == 0 || n + k > s.len() {
                        n + k
                    } else {
                        n + k + string_value_taken(next, s.skip((n + k) as int))
                    },
                }
            },
        }
    }
}

impl Message for StringValue {
    type Model = Seq<u8>;

    open spec fn model(&self) -> Seq<u8> {
        NativeType::model(&self.value)
    }

    open spec fn blank() -> Seq<u8> {
        Seq::empty()
    }

    open spec fn wire(m: Seq<u8>) -> Seq<u8> {
        ByteString::emitted(m, 1, ByteString::model_is_default(m))
    }

    open spec fn parse(s: Seq<u8>) -> Result<Seq<u8>, Failure> {
        string_value_fields(Self::blank(), s)
    }

    open spec fn taken(s: Seq<u8>) -> nat {
        string_value_taken(Self::blank(), s)
    }

    proof fn default_is_blank(v: Self) {
        assert(call_ensures(<StringValue as Default>::default, (), v));
    }

    #[verifier::rlimit(30)]
    fn read(src: &mut Bytes) -> (r: Result<Self, DecodeError>) {
        let ghost whole = bytes_seq(src);
        let mut msg = Self::default();
        let ghost mut d: nat = 0;
        assert(whole.skip(0) =~= whole);
        while !bytes_is_empty(src)
            invariant
                Self::parse(whole) == string_value_fields(Message::model(&msg), bytes_seq(src)),
                whole == bytes_seq(old(src)),
                d <= whole.len(),
                bytes_seq(src) == whole.skip(d as int),
                Self::taken(whole) == d + string_value_taken(Message::model(&msg), bytes_seq(src)),
            decreases bytes_seq(src).len(),
        {
            let ghost s = bytes_seq(src);
            let ghost value = Message::model(&msg);
            proof {
                if varint_parse(s).is_some() {
                    lemma_varint_tail_bounds(s, 0);
                }
            }
            let (tag, wire_type) = match decode_key(src) {
                Ok(key) => key,
                Err(e) => {
                    proof {
                        lemma_skip_more(whole, d, varint_consumed(s));
                    }
                    return Err(e);
                },
            };
            let ghost n = varint_consumed(s);
            let ghost rest = s.skip(n as int);
            if tag == 1 {
                match NativeType::deserialize(&mut msg.value, tag, wire_type, src) {
                    Ok(_) => {},
                    Err(e) => {
                        proof {
                            let k = (rest.len() - bytes_seq(src).len()) as nat;
                            lemma_skip_more(whole, d, n);
                            lemma_skip_more(whole, d + n, k);
                        }
                        return Err(e.push("StringValue", "value"));
                    },
                }
            } else {
                proof {
                    lemma_skip_parse_bound(wire_type, tag, rest);
                }
                match skip_field(wire_type, tag, src) {
                    Ok(_) => {},
                    Err(e) => {
                        proof {
                            let k = (rest.len() - bytes_seq(src).len()) as nat;
                            lemma_skip_more(whole, d, n);
                            lemma_skip_more(whole, d + n, k);
                        }
                        return Err(e);
                    },
                }
            }
            proof {
                let k = (rest.len() - bytes_seq(src).len()) as nat;
                assert(rest.skip(k as int) =~= s.skip((n + k) as int));
                lemma_skip_more(whole, d, n);
                lemma_skip_more(whole, d + n, k);
                d = d + n + k;
            }
        }
        Ok(msg)
    }

    fn write(&self, dst: &mut BytesMut) {
        let ghost start = bytes_mut_seq(dst);
        NativeType::serialize(&self.value, 1, DefaultValue::Default, dst);
        assert(bytes_mut_seq(dst) =~= start + Self::wire(Message::model(self)));
    }

    fn encoded_len(&self) -> (n: usize) {
        NativeType::serialized_len(&self.value, 1, DefaultValue::Default)
    }

    fn is_same(&self, other: &Self) -> (r: bool) {
        NativeType::is_same(&self.value, &other.value)
    }
}

/// **Round trip.** What `write` emits for `StringValue` is read back as the same
/// value, for a value of at most 2^64 - 1 bytes of UTF-8.
pub proof fn lemma_string_value_round_trip(m: Seq<u8>)
    requires
        m.len() <= u64::MAX,
        valid_utf8(m),
    ensures
        StringValue::parse(StringValue::wire(m)) == Ok::<Seq<u8>, Failure>(m),
{
    let blank = StringValue::blank();
    let e0 = ByteString::emitted(m, 1, ByteString::model_is_default(m));
    let t1 = Seq::<u8>::empty();
    let t0 = e0 + t1;
    assert(t0 =~= StringValue::wire(m));
    let v0 = blank;
    let v1 = m;
    assert(string_value_fields(v1, t1) == Ok::<Seq<u8>, Failure>(m));
    assert(string_value_fields(v0, t0) == string_value_fields(v1, t1)) by {
        if ByteString::model_is_default(m) {
            assert(t0 =~= t1);
            assert(m =~= Seq::<u8>::empty());
        } else {
            let key = key_bytes(1, WireType::LengthDelimited);
            let body = varint_bytes(ByteString::payload(m).len()) + ByteString::payload(m);
            lemma_varint_len(ByteString::payload(m).len());
            lemma_byte_string_field(m, v0, 1, t1);
            lemma_field_start(1, WireType::LengthDelimited, body + t1);
            assert(t0 =~= key + (body + t1));
            assert(e0 == key + body);
            let behind = t0.skip((key.len() + body.len()) as int);
            assert(string_value_fields(v0, t0) == string_value_fields(v1, behind));
            assert(behind =~= t1);
        }
    }
}

/// **Forward compatibility.** A field with a number that `StringValue` does
/// not know, standing where a field may begin, is passed over: the message
/// reads as if the field were not there.
pub proof fn lemma_string_value_skips_unknown(
    value: Seq<u8>,
    tag: u32,
    wire_type: WireType,
    body: Seq<u8>,
    rest: Seq<u8>,
)
    requires
        MIN_TAG <= tag <= MAX_TAG,
        tag != 1,
        skip_parse(wire_type, tag, body) == (None::<Seq<char>>, body.len()),
    ensures
        string_value_fields(value, key_bytes(tag, wire_type) + body + rest) == string_value_fields(
            value,
            rest,
        ),
{
    lemma_skip_exact(wire_type, tag, body, rest);
    let key = key_bytes(tag, wire_type);
    let s = key + body + rest;
    lemma_field_start(tag, wire_type, body + rest);
    assert(s =~= key + (body + rest));
    assert(s.skip(key.len() as int) =~= body + rest);
    assert(s.skip((key.len() + body.len()) as int) =~= rest);
}

/// **Absent fields.** A message read from no bytes at all has every
/// field at the default of its type.
pub proof fn lemma_string_value_absent_fields()
    ensures
        StringValue::parse(Seq::empty()) == Ok::<Seq<u8>, Failure>(StringValue::blank()),
{
}

/// Wrapper message for `bytes`.
///
/// The JSON representation for `BytesValue` is JSON string.
#[derive(Clone, PartialEq, Debug)]
pub struct BytesValue {
    /// The bytes value.
    pub value: Bytes,
}

impl Default for BytesValue {
    fn default() -> (r: BytesValue)
        ensures
            Message::model(&r) == BytesValue::blank(),
    {
        BytesValue { value: Default::default() }
    }
}

/// Reading the fields of `BytesValue` one after the other into `value`: a field
/// with a known number is read into its place, any other field is passed
/// over, and the end of the input ends the message.
pub open spec fn bytes_value_fields(value: Seq<u8>, s: Seq<u8>) -> Result<Seq<u8>, Failure>
    decreases s.len(),
{
    if s.len() == 0 {
        Ok(value)
    } else {
        match field_start(s) {
            Err(f) => Err(f),
            Ok((tag, wire_type, n)) => {
                let rest = s.skip(n as int);
                let step: Result<(Seq<u8>, nat), Failure> = if tag == 1 {
                    match Bytes::parsed(value, wire_type, rest) {
                        Ok((v, k)) => Ok((v, k)),
                        Err(f) => Err(f.within("BytesValue"@, "value"@)),
                    }
                } else {
                    match skipped(wire_type, tag, rest) {
                        Ok(k) => Ok((value, k)),
                        Err(f) => Err(f),
                    }
                };
                match step {
                    Err(f) => Err(f),
                    // A key takes at least one byte and no field takes more than
                    // there is, so the test never holds: it shows that the
                    // recursion ends.
                    Ok((next, k)) => if n == 0 || n + k > s.len() {
                        Ok(next)
                    } else {
                        bytes_value_fields(next, s.skip((n + k) as int))
                    },
                }
            },
        }
    }
}

/// How many bytes the reading of fields into `value` has taken from `s`
/// when it ends: all of them where every field is read or passed over, and
/// those up to where it gave up where a field is refused.
pub open spec fn bytes_value_taken(value: Seq<u8>, s: Seq<u8>) -> nat
    decreases s.len(),
{
    if s.len() == 0 {
        0
    } else {
        match field_start(s) {
            Err(_) => varint_consumed(s),
            Ok((tag, wire_type, n)) => {
                let rest = s.skip(n as int);
                let step: Result<(Seq<u8>, nat), nat> = if tag == 1 {
                    match Bytes::parsed(value, wire_type, rest) {
                        Ok((v, k)) => Ok((v, k)),
                        Err(_) => Err(Bytes::refused(value, wire_type, rest).1),
                    }
                } else {
                    match skipped(wire_type, tag, rest) {
                        Ok(k) => Ok((value, k)),
                        Err(_) => Err(skip_parse(wire_type, tag, rest).1),
                    }
                };
                match step {
                    Err(k) => n + k,
                    // A key takes at least one byte and no field takes more than
                    // there is, so the test never holds: it shows that the
                    // recursion ends.
                    Ok((next, k)) => if n == 0 || n + k > s.len() {
                        n + k
                    } else {
                        n + k + bytes_value_taken(next, s.skip((n + k) as int))
                    },
                }
            },
        }
    }
}

impl Message for BytesValue {
    type Model = Seq<u8>;

    open spec fn model(&self) -> Seq<u8> {
        NativeType::model(&self.value)
    }

    open spec fn blank() -> Seq<u8> {
        Seq::empty()
    }

    open spec fn wire(m: Seq<u8>) -> Seq<u8> {
        Bytes::emitted(m, 1, Bytes::model_is_default(m))
    }

    open spec fn parse(s: Seq<u8>) -> Result<Seq<u8>, Failure> {
        bytes_value_fields(Self::blank(), s)
    }

    open spec fn taken(s: Seq<u8>) -> nat {
        bytes_value_taken(Self::blank(), s)
    }

    proof fn default_is_blank(v: Self) {
        assert(call_ensures(<BytesValue as Default>::default, (), v));
    }

    #[verifier::rlimit(30)]
    fn read(src: &mut Bytes) -> (r: Result<Self, DecodeError>) {
        let ghost whole = bytes_seq(src);
        let mut msg = Self::default();
        let ghost mut d: nat = 0;
        assert(whole.skip(0) =~= whole);
        while !bytes_is_empty(src)
            invariant
                Self::parse(whole) == bytes_value_fields(Message::model(&msg), bytes_seq(src)),
                whole == bytes_seq(old(src)),
                d <= whole.len(),
                bytes_seq(src) == whole.skip(d as int),
                Self::taken(whole) == d + bytes_value_taken(Message::model(&msg), bytes_seq(src)),
            decreases bytes_seq(src).len(),
        {
            let ghost s = bytes_seq(src);
            let ghost value = Message::model(&msg);
            proof {
                if varint_parse(s).is_some() {
                    lemma_varint_tail_bounds(s, 0);
                }
            }
            let (tag, wire_type) = match decode_key(src) {
                Ok(key) => key,
                Err(e) => {
                    proof {
                        lemma_skip_more(whole, d, varint_consumed(s));
                    }
                    return Err(e);
                },
            };
            let ghost n = varint_consumed(s);
            let ghost rest = s.skip(n as int);
            if tag == 1 {
                match NativeType::deserialize(&mut msg.value, tag, wire_type, src) {
                    Ok(_) => {},
                    Err(e) => {
                        proof {
                            let k = (rest.len() - bytes_seq(src).len()) as nat;
                            lemma_skip_more(whole, d, n);
                            lemma_skip_more(whole, d + n, k);
                        }
                        return Err(e.push("BytesValue", "value"));
                    },
                }
            } else {
                proof {
                    lemma_skip_parse_bound(wire_type, tag, rest);
                }
                match skip_field(wire_type, tag, src) {
                    Ok(_) => {},
                    Err(e) => {
                        proof {
                            let k = (rest.len() - bytes_seq(src).len()) as nat;
                            lemma_skip_more(whole, d, n);
                            lemma_skip_more(whole, d + n, k);
                        }
                        return Err(e);
                    },
                }
            }
            proof {
                let k = (rest.len() - bytes_seq(src).len()) as nat;
                assert(rest.skip(k as int) =~= s.skip((n + k) as int));
                lemma_skip_more(whole, d, n);
                lemma_skip_more(whole, d + n, k);
                d = d + n + k;
            }
        }
        Ok(msg)
    }

    fn write(&self, dst: &mut BytesMut) {
        let ghost start = bytes_mut_seq(dst);
        NativeType::serialize(&self.value, 1, DefaultValue::Default, dst);
        assert(bytes_mut_seq(dst) =~= start + Self::wire(Message::model(self)));
    }

    fn encoded_len(&self) -> (n: usize) {
        NativeType::serialized_len(&self.value, 1, DefaultValue::Default)
    }

    fn is_same(&self, other: &Self) -> (r: bool) {
        NativeType::is_same(&self.value, &other.value)
    }
}

/// **Round trip.** What `write` emits for `BytesValue` is read back as the same
/// value, for a value of at most 2^64 - 1 bytes.
pub proof fn lemma_bytes_value_round_trip(m: Seq<u8>)
    requires
        m.len() <= u64::MAX,
    ensures
        BytesValue::parse(BytesValue::wire(m)) == Ok::<Seq<u8>, Failure>(m),
{
    let blank = BytesValue::blank();
    let e0 = Bytes::emitted(m, 1, Bytes::model_is_default(m));
    let t1 = Seq::<u8>::empty();
    let t0 = e0 + t1;
    assert(t0 =~= BytesValue::wire(m));
    let v0 = blank;
    let v1 = m;
    assert(bytes_value_fields(v1, t1) == Ok::<Seq<u8>, Failure>(m));
    assert(bytes_value_fields(v0, t0) == bytes_value_fields(v1, t1)) by {
        if Bytes::model_is_default(m) {
            assert(t0 =~= t1);
            assert(m =~= Seq::<u8>::empty());
        } else {
            let key = key_bytes(1, WireType::LengthDelimited);
            let body = varint_bytes(Bytes::payload(m).len()) + Bytes::payload(m);
            lemma_varint_len(Bytes::payload(m).len());
            lemma_bytes_field(m, v0, 1, t1);
            lemma_field_start(1, WireType::LengthDelimited, body + t1);
            assert(t0 =~= key + (body + t1));
            assert(e0 == key + body);
            let behind = t0.skip((key.len() + body.len()) as int);
            assert(bytes_value_fields(v0, t0) == bytes_value_fields(v1, behind));
            assert(behind =~= t1);
        }
    }
}

/// **Forward compatibility.** A field with a number that `BytesValue` does
/// not know, standing where a field may begin, is passed over: the message
/// reads as if the field were not there.
pub proof fn lemma_bytes_value_skips_unknown(
    value: Seq<u8>,
    tag: u32,
    wire_type: WireType,
    body: Seq<u8>,
    rest: Seq<u8>,
)
    requires
        MIN_TAG <= tag <= MAX_TAG,
        tag != 1,
        skip_parse(wire_type, tag, body) == (None::<Seq<char>>, body.len()),
    ensures
        bytes_value_fields(value, key_bytes(tag, wire_type) + body + rest) == bytes_value_fields(
            value,
            rest,
        ),
{
    lemma_skip_exact(wire_type, tag, body, rest);
    let key = key_bytes(tag, wire_type);
    let s = key + body + rest;
    lemma_field_start(tag, wire_type, body + rest);
    assert(s =~= key + (body + rest));
    assert(s.skip(key.len() as int) =~= body + rest);
    assert(s.skip((key.len() + body.len()) as int) =~= rest);
}

/// **Absent fields.** A message read from no bytes at all has every
/// field at the default of its type.
pub proof fn lemma_bytes_value_absent_fields()
    ensures
        BytesValue::parse(Seq::empty()) == Ok::<Seq<u8>, Failure>(BytesValue::blank()),
{
}

} // verus!
