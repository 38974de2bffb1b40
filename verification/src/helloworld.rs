//! The greeter of the gRPC examples: a request with a name, a reply with a
//! message, and the service that turns one into the other.

use crate::buf::{bytes_is_empty, bytes_mut_seq, bytes_seq, ByteString};
use crate::encoding::{
    check_wire_type, decode_key, decode_varint, encode_varint, encoded_len_varint, skip_field,
    DecodeError, Failure, WireType,
};
use crate::server::str_eq;
use crate::service::{MethodDef, MethodsDef, ServiceDef};
use crate::types::delimited::lemma_byte_string_field;
use crate::types::{
    field_start, lemma_field_start, lemma_skip_more, plain_bytes, plain_len, reads_back, skipped,
    varint_field, DefaultValue, Message, NativeType,
};
use crate::wire_format::{
    key_bytes, lemma_skip_exact, lemma_skip_parse_bound, lemma_varint_len, lemma_varint_round_trip,
    lemma_varint_tail_bounds, skip_parse, varint_bytes, varint_consumed, varint_parse, MAX_TAG,
    MIN_TAG,
};
use ntex_bytes::{Bytes, BytesMut};
use vstd::prelude::*;
use vstd::utf8::valid_utf8;

verus! {

/// The request message containing the user's name.
#[derive(Clone, PartialEq, Debug)]
pub struct HelloRequest {
    /// The name of the user.
    pub name: ByteString,
}

impl Default for HelloRequest {
    fn default() -> (r: HelloRequest)
        ensures
            Message::model(&r) == HelloRequest::blank(),
    {
        HelloRequest { name: Default::default() }
    }
}

/// Reading the fields of `HelloRequest` one after the other into `value`: a field
/// with a known number is read into its place, any other field is passed
/// over, and the end of the input ends the message.
pub open spec fn hello_request_fields(value: Seq<u8>, s: Seq<u8>) -> Result<Seq<u8>, Failure>
    decreases s.len(),
{
    if s.len() == 0 {
        Ok(value)
    } else {
        match field_start(s) {
            Err(f) => Err(f),
            Ok((tag, wire_type, n)) => {
                let rest = s.skip(n as int);
                let step: Result<(Seq<u8>, nat), Failure> = if tag == 1 {
                    match ByteString::parsed(value, wire_type, rest) {
                        Ok((v, k)) => Ok((v, k)),
                        Err(f) => Err(f.within("HelloRequest"@, "name"@)),
                    }
                } else {
                    match skipped(wire_type, tag, rest) {
                        Ok(k) => Ok((value, k)),
                        Err(f) => Err(f),
                    }
                };
                match step {
                    Err(f) => Err(f),
                    // A key takes at least one byte and no field takes more than
                    // there is, so the test never holds: it shows that the
                    // recursion ends.
                    Ok((next, k)) => if n == 0 || n + k > s.len() {
                        Ok(next)
                    } else {
                        hello_request_fields(next, s.skip((n + k) as int))
                    },
                }
            },
        }
    }
}

/// How many bytes the reading of fields into `value` has taken from `s`
/// when it ends: all of them where every field is read or passed over, and
/// those up to where it gave up where a field is refused.
pub open spec fn hello_request_taken(value: Seq<u8>, s: Seq<u8>) -> nat
    decreases s.len(),
{
    if s.len() == 0 {
        0
    } else {
        match field_start(s) {
            Err(_) => varint_consumed(s),
            Ok((tag, wire_type, n)) => {
                let rest = s.skip(n as int);
                let step: Result<(Seq<u8>, nat), nat> = if tag == 1 {
                    match ByteString::parsed(value, wire_type, rest) {
                        Ok((v, k)) => Ok((v, k)),
                        Err(_) => Err(ByteString::refused(value, wire_type, rest).1),
                    }
                } else {
                    match skipped(wire_type, tag, rest) {
                        Ok(k) => Ok((value, k)),
                        Err(_) => Err(skip_parse(wire_type, tag, rest).1),
                    }
                };
                match step {
                    Err(k) => n + k,
                    // A key takes at least one byte and no field takes more than
                    // there is, so the test never holds: it shows that the
                    // recursion ends.
                    Ok((next, k)) => if n == 0 || n + k > s.len() {
                        n + k
                    } else {
                        n + k + hello_request_taken(next, s.skip((n + k) as int))
                    },
                }
            },
        }
    }
}

impl Message for HelloRequest {
    type Model = Seq<u8>;

    open spec fn model(&self) -> Seq<u8> {
        NativeType::model(&self.name)
    }

    open spec fn blank() -> Seq<u8> {
        Seq::empty()
    }

    open spec fn wire(m: Seq<u8>) -> Seq<u8> {
        ByteString::emitted(m, 1, ByteString::model_is_default(m))
    }

    open spec fn parse(s: Seq<u8>) -> Result<Seq<u8>, Failure> {
        hello_request_fields(Self::blank(), s)
    }

    open spec fn taken(s: Seq<u8>) -> nat {
        hello_request_taken(Self::blank(), s)
    }

    proof fn default_is_blank(v: Self) {
        assert(call_ensures(<HelloRequest as Default>::default, (), v));
    }

    #[verifier::rlimit(30)]
    fn read(src: &mut Bytes) -> (r: Result<Self, DecodeError>) {
        let ghost whole = bytes_seq(src);
        let mut msg = Self::default();
        let ghost mut d: nat = 0;
        assert(whole.skip(0) =~= whole);
        while !bytes_is_empty(src)
            invariant
                Self::parse(whole) == hello_request_fields(Message::model(&msg), bytes_seq(src)),
                whole == bytes_seq(old(src)),
                d <= whole.len(),
                bytes_seq(src) == whole.skip(d as int),
                Self::taken(whole) == d + hello_request_taken(Message::model(&msg), bytes_seq(src)),
            decreases bytes_seq(src).len(),
        {
            let ghost s = bytes_seq(src);
            let ghost value = Message::model(&msg);
            proof {
                if varint_parse(s).is_some() {
                    lemma_varint_tail_bounds(s, 0);
                }
            }
            let (tag, wire_type) = match decode_key(src) {
                Ok(key) => key,
                Err(e) => {
                    proof {
                        lemma_skip_more(whole, d, varint_consumed(s));
                    }
                    return Err(e);
                },
            };
            let ghost n = varint_consumed(s);
            let ghost rest = s.skip(n as int);
            if tag == 1 {
                match NativeType::deserialize(&mut msg.name, tag, wire_type, src) {
                    Ok(_) => {},
                    Err(e) => {
                        proof {
                            let k = (rest.len() - bytes_seq(src).len()) as nat;
                            lemma_skip_more(whole, d, n);
                            lemma_skip_more(whole, d + n, k);
                        }
                        return Err(e.push("HelloRequest", "name"));
                    },
                }
            } else {
                proof {
                    lemma_skip_parse_bound(wire_type, tag, rest);
                }
                match skip_field(wire_type, tag, src) {
                    Ok(_) => {},
                    Err(e) => {
                        proof {
                            let k = (rest.len() - bytes_seq(src).len()) as nat;
                            lemma_skip_more(whole, d, n);
                            lemma_skip_more(whole, d + n, k);
                        }
                        return Err(e);
                    },
                }
            }
            proof {
                let k = (rest.len() - bytes_seq(src).len()) as nat;
                assert(rest.skip(k as int) =~= s.skip((n + k) as int));
                lemma_skip_more(whole, d, n);
                lemma_skip_more(whole, d + n, k);
                d = d + n + k;
            }
        }
        Ok(msg)
    }

    fn write(&self, dst: &mut BytesMut) {
        let ghost start = bytes_mut_seq(dst);
        NativeType::serialize(&self.name, 1, DefaultValue::Default, dst);
        assert(bytes_mut_seq(dst) =~= start + Self::wire(Message::model(self)));
    }

    fn encoded_len(&self) -> (n: usize) {
        NativeType::serialized_len(&self.name, 1, DefaultValue::Default)
    }

    fn is_same(&self, other: &Self) -> (r: bool) {
        NativeType::is_same(&self.name, &other.name)
    }
}

/// **Round trip.** What `write` emits for `HelloRequest` is read back as the same
/// value, for a value of at most 2^64 - 1 bytes of UTF-8.
pub proof fn lemma_hello_request_round_trip(m: Seq<u8>)
    requires
        m.len() <= u64::MAX,
        valid_utf8(m),
    ensures
        HelloRequest::parse(HelloRequest::wire(m)) == Ok::<Seq<u8>, Failure>(m),
{
    let blank = HelloRequest::blank();
    let e0 = ByteString::emitted(m, 1, ByteString::model_is_default(m));
    let t1 = Seq::<u8>::empty();
    let t0 = e0 + t1;
    assert(t0 =~= HelloRequest::wire(m));
    let v0 = blank;
    let v1 = m;
    assert(hello_request_fields(v1, t1) == Ok::<Seq<u8>, Failure>(m));
    assert(hello_request_fields(v0, t0) == hello_request_fields(v1, t1)) by {
        if ByteString::model_is_default(m) {
            assert(t0 =~= t1);
            assert(m =~= Seq::<u8>::empty());
        } else {
            let key = key_bytes(1, WireType::LengthDelimited);
            let body = varint_bytes(ByteString::payload(m).len()) + ByteString::payload(m);
            lemma_varint_len(ByteString::payload(m).len());
            lemma_byte_string_field(m, v0, 1, t1);
            lemma_field_start(1, WireType::LengthDelimited, body + t1);
            assert(t0 =~= key + (body + t1));
            assert(e0 == key + body);
            let behind = t0.skip((key.len() + body.len()) as int);
            assert(hello_request_fields(v0, t0) == hello_request_fields(v1, behind));
            assert(behind =~= t1);
        }
    }
}

/// **Forward compatibility.** A field with a number that `HelloRequest` does
/// not know, standing where a field may begin, is passed over: the message
/// reads as if the field were not there.
pub proof fn lemma_hello_request_skips_unknown(
    value: Seq<u8>,
    tag: u32,
    wire_type: WireType,
    body: Seq<u8>,
    rest: Seq<u8>,
)
    requires
        MIN_TAG <= tag <= MAX_TAG,
        tag != 1,
        skip_parse(wire_type, tag, body) == (None::<Seq<char>>, body.len()),
    ensures
        hello_request_fields(value, key_bytes(tag, wire_type) + body + rest)
            == hello_request_fields(value, rest),
{
    lemma_skip_exact(wire_type, tag, body, rest);
    let key = key_bytes(tag, wire_type);
    let s = key + body + rest;
    lemma_field_start(tag, wire_type, body + rest);
    assert(s =~= key + (body + rest));
    assert(s.skip(key.len() as int) =~= body + rest);
    assert(s.skip((key.len() + body.len()) as int) =~= rest);
}

/// **Absent fields.** A message read from no bytes at all has every
/// field at the default of its type.
pub proof fn lemma_hello_request_absent_fields()
    ensures
        HelloRequest::parse(Seq::empty()) == Ok::<Seq<u8>, Failure>(HelloRequest::blank()),
{
}

/// The response message containing the greetings.
#[derive(Clone, PartialEq, Debug)]
pub struct HelloReply {
    /// The greeting.
    pub message: ByteString,
}

impl Default for HelloReply {
    fn default() -> (r: HelloReply)
        ensures
            Message::model(&r) == HelloReply::blank(),
    {
        HelloReply { message: Default::default() }
    }
}

/// Reading the fields of `HelloReply` one after the other into `value`: a field
/// with a known number is read into its place, any other field is passed
/// over, and the end of the input ends the message.
pub open spec fn hello_reply_fields(value: Seq<u8>, s: Seq<u8>) -> Result<Seq<u8>, Failure>
    decreases s.len(),
{
    if s.len() == 0 {
        Ok(value)
    } else {
        match field_start(s) {
            Err(f) => Err(f),
            Ok((tag, wire_type, n)) => {
                let rest = s.skip(n as int);
                let step: Result<(Seq<u8>, nat), Failure> = if tag == 1 {
                    match ByteString::parsed(value, wire_type, rest) {
                        Ok((v, k)) => Ok((v, k)),
                        Err(f) => Err(f.within("HelloReply"@, "message"@)),
                    }
                } else {
                    match skipped(wire_type, tag, rest) {
                        Ok(k) => Ok((value, k)),
                        Err(f) => Err(f),
                    }
                };
                match step {
                    Err(f) => Err(f),
                    // A key takes at least one byte and no field takes more than
                    // there is, so the test never holds: it shows that the
                    // recursion ends.
                    Ok((next, k)) => if n == 0 || n + k > s.len() {
                        Ok(next)
                    } else {
                        hello_reply_fields(next, s.skip((n + k) as int))
                    },
                }
            },
        }
    }
}

/// How many bytes the reading of fields into `value` has taken from `s`
/// when it ends: all of them where every field is read or passed over, and
/// those up to where it gave up where a field is refused.
pub open spec fn hello_reply_taken(value: Seq<u8>, s: Seq<u8>) -> nat
    decreases s.len(),
{
    if s.len() == 0 {
        0
    } else {
        match field_start(s) {
            Err(_) => varint_consumed(s),
            Ok((tag, wire_type, n)) => {
                let rest = s.skip(n as int);
                let step: Result<(Seq<u8>, nat), nat> = if tag == 1 {
                    match ByteString::parsed(value, wire_type, rest) {
                        Ok((v, k)) => Ok((v, k)),
                        Err(_) => Err(ByteString::refused(value, wire_type, rest).1),
                    }
                } else {
                    match skipped(wire_type, tag, rest) {
                        Ok(k) => Ok((value, k)),
                        Err(_) => Err(skip_parse(wire_type, tag, rest).1),
                    }
                };
                match step {
                    Err(k) => n + k,
                    // A key takes at least one byte and no field takes more than
                    // there is, so the test never holds: it shows that the
                    // recursion ends.
                    Ok((next, k)) => if n == 0 || n + k > s.len() {
                        n + k
                    } else {
                        n + k + hello_reply_taken(next, s.skip((n + k) as int))
                    },
                }
            },
        }
    }
}

impl Message for HelloReply {
    type Model = Seq<u8>;

    open spec fn model(&self) -> Seq<u8> {
        NativeType::model(&self.message)
    }

    open spec fn blank() -> Seq<u8> {
        Seq::empty()
    }

    open spec fn wire(m: Seq<u8>) -> Seq<u8> {
        ByteString::emitted(m, 1, ByteString::model_is_default(m))
    }

    open spec fn parse(s: Seq<u8>) -> Result<Seq<u8>, Failure> {
        hello_reply_fields(Self::blank(), s)
    }

    open spec fn taken(s: Seq<u8>) -> nat {
        hello_reply_taken(Self::blank(), s)
    }

    proof fn default_is_blank(v: Self) {
        assert(call_ensures(<HelloReply as Default>::default, (), v));
    }

    #[verifier::rlimit(30)]
    fn read(src: &mut Bytes) -> (r: Result<Self, DecodeError>) {
        let ghost whole = bytes_seq(src);
        let mut msg = Self::default();
        let ghost mut d: nat = 0;
        assert(whole.skip(0) =~= whole);
        while !bytes_is_empty(src)
            invariant
                Self::parse(whole) == hello_reply_fields(Message::model(&msg), bytes_seq(src)),
                whole == bytes_seq(old(src)),
                d <= whole.len(),
                bytes_seq(src) == whole.skip(d as int),
                Self::taken(whole) == d + hello_reply_taken(Message::model(&msg), bytes_seq(src)),
            decreases bytes_seq(src).len(),
        {
            let ghost s = bytes_seq(src);
            let ghost value = Message::model(&msg);
            proof {
                if varint_parse(s).is_some() {
                    lemma_varint_tail_bounds(s, 0);
                }
            }
            let (tag, wire_type) = match decode_key(src) {
                Ok(key) => key,
                Err(e) => {
                    proof {
                        lemma_skip_more(whole, d, varint_consumed(s));
                    }
                    return Err(e);
                },
            };
            let ghost n = varint_consumed(s);
            let ghost rest = s.skip(n as int);
            if tag == 1 {
                match NativeType::deserialize(&mut msg.message, tag, wire_type, src) {
                    Ok(_) => {},
                    Err(e) => {
                        proof {
                            let k = (rest.len() - bytes_seq(src).len()) as nat;
                            lemma_skip_more(whole, d, n);
                            lemma_skip_more(whole, d + n, k);
                        }
                        return Err(e.push("HelloReply", "message"));
                    },
                }
            } else {
                proof {
                    lemma_skip_parse_bound(wire_type, tag, rest);
                }
                match skip_field(wire_type, tag, src) {
                    Ok(_) => {},
                    Err(e) => {
                        proof {
                            let k = (rest.len() - bytes_seq(src).len()) as nat;
                            lemma_skip_more(whole, d, n);
                            lemma_skip_more(whole, d + n, k);
                        }
                        return Err(e);
                    },
                }
            }
            proof {
                let k = (rest.len() - bytes_seq(src).len()) as nat;
                assert(rest.skip(k as int) =~= s.skip((n + k) as int));
                lemma_skip_more(whole, d, n);
                lemma_skip_more(whole, d + n, k);
                d = d + n + k;
            }
        }
        Ok(msg)
    }

    fn write(&self, dst: &mut BytesMut) {
        let ghost start = bytes_mut_seq(dst);
        NativeType::serialize(&self.message, 1, DefaultValue::Default, dst);
        assert(bytes_mut_seq(dst) =~= start + Self::wire(Message::model(self)));
    }

    fn encoded_len(&self) -> (n: usize) {
        NativeType::serialized_len(&self.message, 1, DefaultValue::Default)
    }

    fn is_same(&self, other: &Self) -> (r: bool) {
        NativeType::is_same(&self.message, &other.message)
    }
}

/// **Round trip.** What `write` emits for `HelloReply` is read back as the same
/// value, for a value of at most 2^64 - 1 bytes of UTF-8.
pub proof fn lemma_hello_reply_round_trip(m: Seq<u8>)
    requires
        m.len() <= u64::MAX,
        valid_utf8(m),
    ensures
        HelloReply::parse(HelloReply::wire(m)) == Ok::<Seq<u8>, Failure>(m),
{
    let blank = HelloReply::blank();
    let e0 = ByteString::emitted(m, 1, ByteString::model_is_default(m));
    let t1 = Seq::<u8>::empty();
    let t0 = e0 + t1;
    assert(t0 =~= HelloReply::wire(m));
    let v0 = blank;
    let v1 = m;
    assert(hello_reply_fields(v1, t1) == Ok::<Seq<u8>, Failure>(m));
    assert(hello_reply_fields(v0, t0) == hello_reply_fields(v1, t1)) by {
        if ByteString::model_is_default(m) {
            assert(t0 =~= t1);
            assert(m =~= Seq::<u8>::empty());
        } else {
            let key = key_bytes(1, WireType::LengthDelimited);
            let body = varint_bytes(ByteString::payload(m).len()) + ByteString::payload(m);
            lemma_varint_len(ByteString::payload(m).len());
            lemma_byte_string_field(m, v0, 1, t1);
            lemma_field_start(1, WireType::LengthDelimited, body + t1);
            assert(t0 =~= key + (body + t1));
            assert(e0 == key + body);
            let behind = t0.skip((key.len() + body.len()) as int);
            assert(hello_reply_fields(v0, t0) == hello_reply_fields(v1, behind));
            assert(behind =~= t1);
        }
    }
}

/// **Forward compatibility.** A field with a number that `HelloReply` does
/// not know, standing where a field may begin, is passed over: the message
/// reads as if the field were not there.
pub proof fn lemma_hello_reply_skips_unknown(
    value: Seq<u8>,
    tag: u32,
    wire_type: WireType,
    body: Seq<u8>,
    rest: Seq<u8>,
)
    requires
        MIN_TAG <= tag <= MAX_TAG,
        tag != 1,
        skip_parse(wire_type, tag, body) == (None::<Seq<char>>, body.len()),
    ensures
        hello_reply_fields(value, key_bytes(tag, wire_type) + body + rest) == hello_reply_fields(
            value,
            rest,
        ),
{
    lemma_skip_exact(wire_type, tag, body, rest);
    let key = key_bytes(tag, wire_type);
    let s = key + body + rest;
    lemma_field_start(tag, wire_type, body + rest);
    assert(s =~= key + (body + rest));
    assert(s.skip(key.len() as int) =~= body + rest);
    assert(s.skip((key.len() + body.len()) as int) =~= rest);
}

/// **Absent fields.** A message read from no bytes at all has every
/// field at the default of its type.
pub proof fn lemma_hello_reply_absent_fields()
    ensures
        HelloReply::parse(Seq::empty()) == Ok::<Seq<u8>, Failure>(HelloReply::blank()),
{
}

/// A kind of document.
#[derive(Clone, Copy, Debug, PartialEq, Eq, Hash, Structural)]
pub enum DocumentType {
    Broker,
    Namespace,
    TestDoc,
    Quota,
}

impl Default for DocumentType {
    fn default() -> (r: DocumentType)
        ensures
            r == DocumentType::Broker,
    {
        DocumentType::Broker
    }
}

impl DocumentType {
    /// The number of the kind on the wire.
    pub open spec fn spec_number(self) -> i32 {
        match self {
            DocumentType::Broker => 0,
            DocumentType::Namespace => 1,
            DocumentType::TestDoc => 2,
            DocumentType::Quota => 6,
        }
    }

    /// The kind with the given number, if there is one.
    pub open spec fn spec_from_i32(value: i32) -> Option<DocumentType> {
        if value == 0 {
            Some(DocumentType::Broker)
        } else if value == 1 {
            Some(DocumentType::Namespace)
        } else if value == 2 {
            Some(DocumentType::TestDoc)
        } else if value == 6 {
            Some(DocumentType::Quota)
        } else {
            None
        }
    }

    /// The kind that a number read from the wire stands for: the kind with
    /// that number, or the default where there is none.
    pub open spec fn coerced(value: i32) -> DocumentType {
        match DocumentType::spec_from_i32(value) {
            Some(kind) => kind,
            None => DocumentType::Broker,
        }
    }

    /// The name of the kind in the Protobuf definition.
    pub fn to_str_name(self) -> (name: &'static str)
        ensures
            name@ == match self {
                DocumentType::Broker => "BROKER"@,
                DocumentType::Namespace => "NAMESPACE"@,
                DocumentType::TestDoc => "TEST_DOC"@,
                DocumentType::Quota => "QUOTA"@,
            },
    {
        match self {
            DocumentType::Broker => "BROKER",
            DocumentType::Namespace => "NAMESPACE",
            DocumentType::TestDoc => "TEST_DOC",
            DocumentType::Quota => "QUOTA",
        }
    }

    /// The number of the kind on the wire.
    pub fn number(self) -> (n: i32)
        ensures
            n == self.spec_number(),
    {
        match self {
            DocumentType::Broker => 0,
            DocumentType::Namespace => 1,
            DocumentType::TestDoc => 2,
            DocumentType::Quota => 6,
        }
    }

    /// The kind with the given number, if there is one.
    pub fn from_i32(value: i32) -> (kind: Option<DocumentType>)
        ensures
            kind == DocumentType::spec_from_i32(value),
    {
        if value == 0 {
            Some(DocumentType::Broker)
        } else if value == 1 {
            Some(DocumentType::Namespace)
        } else if value == 2 {
            Some(DocumentType::TestDoc)
        } else if value == 6 {
            Some(DocumentType::Quota)
        } else {
            None
        }
    }

    /// The kind that a number read from the wire stands for.
    pub fn coerce(value: i32) -> (kind: DocumentType)
        ensures
            kind == DocumentType::coerced(value),
    {
        match DocumentType::from_i32(value) {
            Some(kind) => kind,
            None => DocumentType::Broker,
        }
    }
}

/// A kind of document: the varint of its number. A number that stands for no
/// kind reads as the first kind, the default.
impl NativeType for DocumentType {
    type Model = DocumentType;

    const TYPE: WireType = WireType::Varint;

    open spec fn model(&self) -> DocumentType {
        *self
    }

    open spec fn zero() -> DocumentType {
        DocumentType::Broker
    }

    open spec fn model_is_default(m: DocumentType) -> bool {
        m == DocumentType::Broker
    }

    open spec fn payload(m: DocumentType) -> Seq<u8> {
        varint_bytes((m.spec_number() as u64) as nat)
    }

    open spec fn merged(pre: DocumentType, s: Seq<u8>) -> Result<(DocumentType, nat), Failure> {
        match varint_parse(s) {
            Some((v, n)) => Ok((DocumentType::coerced(v as i32), n)),
            None => Err(Failure::plain("invalid varint"@)),
        }
    }

    open spec fn emitted(m: DocumentType, tag: u32, suppress: bool) -> Seq<u8> {
        plain_bytes(WireType::Varint, Self::payload(m), tag, suppress)
    }

    open spec fn parsed(pre: DocumentType, wire_type: WireType, s: Seq<u8>) -> Result<
        (DocumentType, nat),
        Failure,
    > {
        match varint_field(wire_type, s) {
            Ok((v, n)) => Ok((DocumentType::coerced(v as i32), n)),
            Err(f) => Err(f),
        }
    }

    open spec fn merge_taken(s: Seq<u8>) -> nat {
        varint_consumed(s)
    }

    open spec fn refused(pre: DocumentType, wire_type: WireType, s: Seq<u8>) -> (DocumentType, nat) {
        if wire_type != WireType::Varint {
            (pre, 0)
        } else {
            (pre, varint_consumed(s))
        }
    }

    proof fn default_is_zero(v: Self) {
        assert(call_ensures(<DocumentType as Default>::default, (), v));
    }

    open spec fn reads(wire_type: WireType) -> bool {
        wire_type == WireType::Varint
    }

    proof fn wrong_wire_type_is_refused(pre: Self::Model, wire_type: WireType, s: Seq<u8>) {
    }

    proof fn default_is_left_out(m: Self::Model, tag: u32) {
    }

    proof fn varint_merge_advances(pre: Self::Model, s: Seq<u8>) {
        if varint_parse(s).is_some() {
            lemma_varint_tail_bounds(s, 0);
        }
    }

    fn value_len(&self) -> (n: usize) {
        encoded_len_varint(self.number() as u64)
    }

    fn merge(&mut self, src: &mut Bytes) -> (r: Result<(), DecodeError>) {
        let ghost taken = Self::merge_taken(bytes_seq(src));
        let ghost outcome = Self::merged(self.model(), bytes_seq(src));
        match decode_varint(src) {
            Ok(v) => {
                assert(outcome is Ok);
                *self = DocumentType::coerce(
                    #[verifier::truncate]
                    (v as i32),
                );
                Ok(())
            },
            Err(e) => {
                assert(outcome is Err);
                Err(e)
            },
        }
    }

    fn is_default(&self) -> (r: bool) {
        *self == DocumentType::Broker
    }

    fn is_same(&self, other: &Self) -> (r: bool) {
        *self == *other
    }

    fn encode_value(&self, dst: &mut BytesMut) {
        proof {
            lemma_varint_len((self.spec_number() as u64) as nat);
        }
        encode_varint(self.number() as u64, dst);
    }

    fn encoded_len(&self, tag: u32) -> (n: usize) {
        proof {
            lemma_varint_len((self.spec_number() as u64) as nat);
        }
        plain_len(WireType::Varint, self.value_len(), tag)
    }

    fn serialize(&self, tag: u32, default: DefaultValue<&Self>, dst: &mut BytesMut) {
        let suppress = match default {
            DefaultValue::Unknown => false,
            DefaultValue::Default => self.is_default(),
            DefaultValue::Value(d) => self.is_same(d),
        };
        if !suppress {
            proof {
                lemma_varint_len((self.spec_number() as u64) as nat);
            }
            self.encode_type(tag, dst);
            self.encode_value(dst);
            assert(bytes_mut_seq(dst) =~= bytes_mut_seq(old(dst)) + Self::emitted(
                self.model(),
                tag,
                false,
            ));
        } else {
            assert(bytes_mut_seq(dst) =~= bytes_mut_seq(old(dst)) + Seq::<u8>::empty());
        }
    }

    fn serialized_len(&self, tag: u32, default: DefaultValue<&Self>) -> (n: usize) {
        let suppress = match default {
            DefaultValue::Unknown => false,
            DefaultValue::Default => self.is_default(),
            DefaultValue::Value(d) => self.is_same(d),
        };
        if suppress {
            0
        } else {
            self.encoded_len(tag)
        }
    }

    fn deserialize(&mut self, tag: u32, wtype: WireType, src: &mut Bytes) -> (r: Result<
        (),
        DecodeError,
    >) {
        let ghost left = Self::refused(self.model(), wtype, bytes_seq(src));
        let ghost outcome = Self::parsed(self.model(), wtype, bytes_seq(src));
        match check_wire_type(WireType::Varint, wtype) {
            Ok(_) => {
                assert(outcome is Ok <==> Self::merged(self.model(), bytes_seq(src)) is Ok);
                self.merge(src)
            },
            Err(e) => {
                assert(outcome is Err);
                assert(bytes_seq(src).skip(0) =~= bytes_seq(src));
                Err(e)
            },
        }
    }
}

/// Every `DocumentType` reads back from its own bytes, whatever follows them.
pub proof fn lemma_document_type_reads_back(value: DocumentType)
    ensures
        reads_back::<DocumentType>(value),
{
    assert forall|pre: DocumentType, tail: Seq<u8>|
        #[trigger] DocumentType::merged(pre, DocumentType::payload(value) + tail) == Ok::<
            (DocumentType, nat),
            Failure,
        >((value, DocumentType::payload(value).len())) by {
        lemma_document_type_field(value, pre, 1, tail);
    }
}

/// **Round trip of one field.** A kind of document that was written as field `tag`
/// is read back from the bytes behind its key, whatever follows, and the
/// reader stops right behind it.
pub proof fn lemma_document_type_field(
    value: DocumentType,
    pre: DocumentType,
    tag: u32,
    rest: Seq<u8>,
)
    requires
        MIN_TAG <= tag <= MAX_TAG,
    ensures
        DocumentType::emitted(value, tag, false) == key_bytes(tag, WireType::Varint)
            + DocumentType::payload(value),
        DocumentType::parsed(
            pre,
            WireType::Varint,
            DocumentType::payload(value) + rest,
        ) == Ok::<(DocumentType, nat), Failure>((value, DocumentType::payload(value).len())),
{
    let raw: u64 = (value.spec_number() as u64);
    lemma_varint_round_trip(raw, rest);
    let number: i32 = value.spec_number();
    assert(raw as i32 == number) by (bit_vector)
        requires
            raw == number as u64,
    ;
}

/// A kind of document is written with the varint wire type.
pub proof fn lemma_document_type_is_varint()
    ensures
        <DocumentType as NativeType>::TYPE == WireType::Varint,
{
}

/// **Enum coercion.** A varint whose number stands for no kind of document
/// reads as the default kind, whatever value was there before.
pub proof fn lemma_enum_coercion(pre: DocumentType, s: Seq<u8>)
    requires
        varint_parse(s) matches Some(p) && DocumentType::spec_from_i32(p.0 as i32) is None,
    ensures
        DocumentType::merged(pre, s) matches Ok(m) && m.0 == DocumentType::Broker,
        DocumentType::parsed(pre, WireType::Varint, s) matches Ok(m) && m.0
            == DocumentType::Broker,
{
}

/// The `Greeter` service.
#[derive(Debug, Clone, Copy, PartialEq, Eq)]
pub struct Greeter;

/// The methods of the `Greeter` service.
#[derive(Debug, Clone, Copy, PartialEq, Eq)]
pub enum GreeterMethods {
    SayHello(GreeterSayHelloMethod),
}

/// The method of the `Greeter` service that sends a greeting.
#[derive(Debug, Copy, Clone, PartialEq, Eq)]
pub struct GreeterSayHelloMethod;

impl MethodDef for GreeterSayHelloMethod {
    const NAME: &'static str = "SayHello";

    const PATH: &'static str = "/helloworld.Greeter/SayHello";

    type Input = HelloRequest;

    type Output = HelloReply;
}

impl MethodsDef for GreeterMethods {
    open spec fn spec_by_name(name: Seq<char>) -> Option<GreeterMethods> {
        if name == "SayHello"@ {
            Some(GreeterMethods::SayHello(GreeterSayHelloMethod))
        } else {
            None
        }
    }

    fn by_name(name: &str) -> (method: Option<GreeterMethods>) {
        if str_eq(name, "SayHello") {
            Some(GreeterMethods::SayHello(GreeterSayHelloMethod))
        } else {
            None
        }
    }
}

impl ServiceDef for Greeter {
    const NAME: &'static str = "helloworld.Greeter";

    type Methods = GreeterMethods;
}

/// The path of the method is a slash, the name of the service, a slash, and
/// the name of the method.
pub proof fn lemma_say_hello_path()
    ensures
        <GreeterSayHelloMethod as MethodDef>::PATH@ == seq!['/'] + <Greeter as ServiceDef>::NAME@
            + seq!['/'] + <GreeterSayHelloMethod as MethodDef>::NAME@,
{
    reveal_strlit("SayHello");
    reveal_strlit("helloworld.Greeter");
    reveal_strlit("/helloworld.Greeter/SayHello");
    assert("/helloworld.Greeter/SayHello"@ =~= seq!['/'] + "helloworld.Greeter"@ + seq!['/']
        + "SayHello"@);
}

} // verus!
