//! A message with a map, a flag and an optional text: properties by name.

use crate::buf::{bytes_is_empty, bytes_mut_seq, bytes_seq};
use crate::encoding::{decode_key, skip_field, DecodeError, Failure, WireType};
use crate::types::delimited::lemma_string_field;
use crate::types::map::{
    distinct_keys, entry_body, entry_cut, entry_field, entry_fields, entry_read, key_index,
    lemma_key_index, with_entry, MapField,
};
use crate::types::scalars::{lemma_bool_field, lemma_u32_field};
use crate::types::{
    field_start, lemma_field_start, lemma_skip_more, skipped, DefaultValue, Message, NativeType,
};
use crate::wire_format::{
    key_bytes, lemma_skip_exact, lemma_skip_parse_bound, lemma_varint_len, lemma_varint_round_trip,
    lemma_varint_tail_bounds, skip_parse, varint_bytes, varint_consumed, varint_len, varint_parse,
    MAX_TAG, MIN_TAG,
};
use ntex_bytes::{Bytes, BytesMut};
use vstd::prelude::*;
use vstd::utf8::encode_utf8;

verus! {

/// What a `Properties` stands for.
pub struct PropertiesModel {
    pub props: Seq<(Seq<char>, u32)>,
    pub b: bool,
    pub opt: Option<Seq<char>>,
}

/// Properties by name, with a flag and an optional text.
#[derive(Clone, PartialEq, Debug)]
pub struct Properties {
    /// The properties: numbers by name.
    pub props: MapField<String, u32>,
    /// A flag.
    pub b: bool,
    /// A text that may be absent.
    pub opt: Option<String>,
}

impl Default for Properties {
    fn default() -> (r: Properties)
        ensures
            Message::model(&r) == Properties::blank(),
    {
        Properties { props: Default::default(), b: Default::default(), opt: Default::default() }
    }
}

/// Reading the fields of `Properties` one after the other into `value`: a field
/// with a known number is read into its place, any other field is passed
/// over, and the end of the input ends the message.
pub open spec fn properties_fields(value: PropertiesModel, s: Seq<u8>) -> Result<
    PropertiesModel,
    Failure,
>
    decreases s.len(),
{
    if s.len() == 0 {
        Ok(value)
    } else {
        match field_start(s) {
            Err(f) => Err(f),
            Ok((tag, wire_type, n)) => {
                let rest = s.skip(n as int);
                let step: Result<(PropertiesModel, nat), Failure> = if tag == 1 {
                    match MapField::<String, u32>::parsed(value.props, wire_type, rest) {
                        Ok((v, k)) => Ok(
                            (PropertiesModel { props: v, b: value.b, opt: value.opt }, k),
                        ),
                        Err(f) => Err(f.within("Properties"@, "props"@)),
                    }
                } else if tag == 2 {
                    match bool::parsed(value.b, wire_type, rest) {
                        Ok((v, k)) => Ok(
                            (PropertiesModel { props: value.props, b: v, opt: value.opt }, k),
                        ),
                        Err(f) => Err(f.within("Properties"@, "b"@)),
                    }
                } else if tag == 3 {
                    match Option::<String>::parsed(value.opt, wire_type, rest) {
                        Ok((v, k)) => Ok(
                            (PropertiesModel { props: value.props, b: value.b, opt: v }, k),
                        ),
                        Err(f) => Err(f.within("Properties"@, "opt"@)),
                    }
                } else {
                    match skipped(wire_type, tag, rest) {
                        Ok(k) => Ok((value, k)),
                        Err(f) => Err(f),
                    }
                };
                match step {
                    Err(f) => Err(f),
                    // A key takes at least one byte and no field takes more than
                    // there is, so the test never holds: it shows that the
                    // recursion ends.
                    Ok((next, k)) => if n == 0 || n + k > s.len() {
                        Ok(next)
                    } else {
                        properties_fields(next, s.skip((n + k) as int))
                    },
                }
            },
        }
    }
}

/// How many bytes the reading of fields into `value` has taken from `s`
/// when it ends: all of them where every field is read or passed over, and
/// those up to where it gave up where a field is refused.
pub open spec fn properties_taken(value: PropertiesModel, s: Seq<u8>) -> nat
    decreases s.len(),
{
    if s.len() == 0 {
        0
    } else {
        match field_start(s) {
            Err(_) => varint_consumed(s),
            Ok((tag, wire_type, n)) => {
                let rest = s.skip(n as int);
                let step: Result<(PropertiesModel, nat), nat> = if tag == 1 {
                    match MapField::<String, u32>::parsed(value.props, wire_type, rest) {
                        Ok((v, k)) => Ok(
                            (PropertiesModel { props: v, b: value.b, opt: value.opt }, k),
                        ),
                        Err(_) => Err(MapField::<String, u32>::refused(value.props, wire_type, rest).1),
                    }
                } else if tag == 2 {
                    match bool::parsed(value.b, wire_type, rest) {
                        Ok((v, k)) => Ok(
                            (PropertiesModel { props: value.props, b: v, opt: value.opt }, k),
                        ),
                        Err(_) => Err(bool::refused(value.b, wire_type, rest).1),
                    }
                } else if tag == 3 {
                    match Option::<String>::parsed(value.opt, wire_type, rest) {
                        Ok((v, k)) => Ok(
                            (PropertiesModel { props: value.props, b: value.b, opt: v }, k),
                        ),
                        Err(_) => Err(Option::<String>::refused(value.opt, wire_type, rest).1),
                    }
                } else {
                    match skipped(wire_type, tag, rest) {
                        Ok(k) => Ok((value, k)),
                        Err(_) => Err(skip_parse(wire_type, tag, rest).1),
                    }
                };
                match step {
                    Err(k) => n + k,
                    // A key takes at least one byte and no field takes more than
                    // there is, so the test never holds: it shows that the
                    // recursion ends.
                    Ok((next, k)) => if n == 0 || n + k > s.len() {
                        n + k
                    } else {
                        n + k + properties_taken(next, s.skip((n + k) as int))
                    },
                }
            },
        }
    }
}

impl Message for Properties {
    type Model = PropertiesModel;

    open spec fn model(&self) -> PropertiesModel {
        PropertiesModel {
            props: NativeType::model(&self.props),
            b: NativeType::model(&self.b),
            opt: NativeType::model(&self.opt),
        }
    }

    open spec fn blank() -> PropertiesModel {
        PropertiesModel { props: Seq::empty(), b: false, opt: None }
    }

    open spec fn wire(m: PropertiesModel) -> Seq<u8> {
        MapField::<String, u32>::emitted(
            m.props,
            1,
            MapField::<String, u32>::model_is_default(m.props),
        )
            + bool::emitted(m.b, 2, bool::model_is_default(m.b))
            + Option::<String>::emitted(m.opt, 3, Option::<String>::model_is_default(m.opt))
    }

    open spec fn parse(s: Seq<u8>) -> Result<PropertiesModel, Failure> {
        properties_fields(Self::blank(), s)
    }

    open spec fn taken(s: Seq<u8>) -> nat {
        properties_taken(Self::blank(), s)
    }

    proof fn default_is_blank(v: Self) {
        assert(call_ensures(<Properties as Default>::default, (), v));
    }

    #[verifier::rlimit(60)]
    fn read(src: &mut Bytes) -> (r: Result<Self, DecodeError>) {
        let ghost whole = bytes_seq(src);
        let mut msg = Self::default();
        let ghost mut d: nat = 0;
        assert(whole.skip(0) =~= whole);
        while !bytes_is_empty(src)
            invariant
                Self::parse(whole) == properties_fields(Message::model(&msg), bytes_seq(src)),
                whole == bytes_seq(old(src)),
                d <= whole.len(),
                bytes_seq(src) == whole.skip(d as int),
                Self::taken(whole) == d + properties_taken(Message::model(&msg), bytes_seq(src)),
            decreases bytes_seq(src).len(),
        {
            let ghost s = bytes_seq(src);
            let ghost value = Message::model(&msg);
            proof {
                if varint_parse(s).is_some() {
                    lemma_varint_tail_bounds(s, 0);
                }
            }
            let (tag, wire_type) = match decode_key(src) {
                Ok(key) => key,
                Err(e) => {
                    proof {
                        lemma_skip_more(whole, d, varint_consumed(s));
                    }
                    return Err(e);
                },
            };
            let ghost n = varint_consumed(s);
            let ghost rest = s.skip(n as int);
            if tag == 1 {
                match NativeType::deserialize(&mut msg.props, tag, wire_type, src) {
                    Ok(_) => {},
                    Err(e) => {
                        proof {
                            let k = (rest.len() - bytes_seq(src).len()) as nat;
                            lemma_skip_more(whole, d, n);
                            lemma_skip_more(whole, d + n, k);
                        }
                        return Err(e.push("Properties", "props"));
                    },
                }
            } else if tag == 2 {
                match NativeType::deserialize(&mut msg.b, tag, wire_type, src) {
                    Ok(_) => {},
                    Err(e) => {
                        proof {
                            let k = (rest.len() - bytes_seq(src).len()) as nat;
                            lemma_skip_more(whole, d, n);
                            lemma_skip_more(whole, d + n, k);
                        }
                        return Err(e.push("Properties", "b"));
                    },
                }
            } else if tag == 3 {
                match NativeType::deserialize(&mut msg.opt, tag, wire_type, src) {
                    Ok(_) => {},
                    Err(e) => {
                        proof {
                            let k = (rest.len() - bytes_seq(src).len()) as nat;
                            lemma_skip_more(whole, d, n);
                            lemma_skip_more(whole, d + n, k);
                        }
                        return Err(e.push("Properties", "opt"));
                    },
                }
            } else {
                proof {
                    lemma_skip_parse_bound(wire_type, tag, rest);
                }
                match skip_field(wire_type, tag, src) {
                    Ok(_) => {},
                    Err(e) => {
                        proof {
                            let k = (rest.len() - bytes_seq(src).len()) as nat;
                            lemma_skip_more(whole, d, n);
                            lemma_skip_more(whole, d + n, k);
                        }
                        return Err(e);
                    },
                }
            }
            proof {
                let k = (rest.len() - bytes_seq(src).len()) as nat;
                assert(rest.skip(k as int) =~= s.skip((n + k) as int));
                lemma_skip_more(whole, d, n);
                lemma_skip_more(whole, d + n, k);
                d = d + n + k;
            }
        }
        Ok(msg)
    }

    fn write(&self, dst: &mut BytesMut) {
        let ghost start = bytes_mut_seq(dst);
        NativeType::serialize(&self.props, 1, DefaultValue::Default, dst);
        NativeType::serialize(&self.b, 2, DefaultValue::Default, dst);
        NativeType::serialize(&self.opt, 3, DefaultValue::Default, dst);
        assert(bytes_mut_seq(dst) =~= start + Self::wire(Message::model(self)));
    }

    fn encoded_len(&self) -> (n: usize) {
        NativeType::serialized_len(&self.props, 1, DefaultValue::Default)
            + NativeType::serialized_len(&self.b, 2, DefaultValue::Default)
            + NativeType::serialized_len(&self.opt, 3, DefaultValue::Default)
    }

    fn is_same(&self, other: &Self) -> (r: bool) {
        NativeType::is_same(&self.props, &other.props)
            && self.b == other.b
            && NativeType::is_same(&self.opt, &other.opt)
    }
}

/// **Forward compatibility.** A field with a number that `Properties` does
/// not know, standing where a field may begin, is passed over: the message
/// reads as if the field were not there.
pub proof fn lemma_properties_skips_unknown(
    value: PropertiesModel,
    tag: u32,
    wire_type: WireType,
    body: Seq<u8>,
    rest: Seq<u8>,
)
    requires
        MIN_TAG <= tag <= MAX_TAG,
        tag != 1 && tag != 2 && tag != 3,
        skip_parse(wire_type, tag, body) == (None::<Seq<char>>, body.len()),
    ensures
        properties_fields(value, key_bytes(tag, wire_type) + body + rest) == properties_fields(
            value,
            rest,
        ),
{
    lemma_skip_exact(wire_type, tag, body, rest);
    let key = key_bytes(tag, wire_type);
    let s = key + body + rest;
    lemma_field_start(tag, wire_type, body + rest);
    assert(s =~= key + (body + rest));
    assert(s.skip(key.len() as int) =~= body + rest);
    assert(s.skip((key.len() + body.len()) as int) =~= rest);
}

/// **Absent fields.** A message read from no bytes at all has every
/// field at the default of its type.
pub proof fn lemma_properties_absent_fields()
    ensures
        Properties::parse(Seq::empty()) == Ok::<PropertiesModel, Failure>(Properties::blank()),
{
}

/// Whether the names are short enough to be written: each takes less than
/// 2^32 bytes.
pub open spec fn short_names(entries: Seq<(Seq<char>, u32)>) -> bool {
    forall|i: int|
        0 <= i < entries.len() ==> encode_utf8(#[trigger] entries[i].0).len() < 0x1_0000_0000
}

/// An entry that was written is read back from its own bytes.
pub proof fn lemma_entry_reads_back(key: Seq<char>, value: u32)
    requires
        encode_utf8(key).len() <= u64::MAX,
    ensures
        entry_read::<String, u32>(Seq::empty(), 0, entry_body::<String, u32>(key, value)) == Ok::<
            (Seq<char>, u32),
            Failure,
        >((key, value)),
{
    let e2 = u32::emitted(value, 2, value == 0);
    assert forall|k: Seq<char>|
        #[trigger] entry_read::<String, u32>(k, 0, e2) == Ok::<(Seq<char>, u32), Failure>(
            (k, value),
        ) by {
        if value != 0 {
            let head = key_bytes(2, WireType::Varint);
            let body = u32::payload(value);
            lemma_u32_field(value, 0, 2, Seq::empty());
            lemma_field_start(2, WireType::Varint, body + Seq::<u8>::empty());
            assert(e2 =~= head + (body + Seq::<u8>::empty()));
            let behind = e2.skip((head.len() + body.len()) as int);
            assert(behind =~= Seq::<u8>::empty());
            assert(entry_read::<String, u32>(k, 0, e2) == entry_read::<String, u32>(
                k,
                value,
                behind,
            ));
        }
    }
    let whole = entry_body::<String, u32>(key, value);
    if key == Seq::<char>::empty() {
        assert(whole =~= e2);
    } else {
        let head = key_bytes(1, WireType::LengthDelimited);
        let payload = String::payload(key);
        let body = varint_bytes(payload.len()) + payload;
        lemma_varint_len(payload.len());
        lemma_string_field(key, Seq::empty(), 1, e2);
        lemma_field_start(1, WireType::LengthDelimited, body + e2);
        assert(whole =~= head + (body + e2));
        let behind = whole.skip((head.len() + body.len()) as int);
        assert(behind =~= e2);
        assert(entry_read::<String, u32>(Seq::empty(), 0, whole) == entry_read::<String, u32>(
            key,
            0,
            behind,
        ));
    }
}

/// An entry that was written with its length in front is cut out again,
/// whatever follows it.
pub proof fn lemma_entry_cut_round_trip(body: Seq<u8>, rest: Seq<u8>)
    requires
        body.len() <= u64::MAX,
    ensures
        entry_cut(WireType::LengthDelimited, varint_bytes(body.len()) + body + rest) == Ok::<
            (Seq<u8>, nat),
            Failure,
        >((body, varint_len(body.len()) + body.len())),
{
    let s = varint_bytes(body.len()) + body + rest;
    lemma_varint_round_trip(body.len() as u64, body + rest);
    assert(varint_bytes(body.len()) + (body + rest) =~= s);
    let n = varint_len(body.len());
    assert(s.subrange(n as int, (n + body.len()) as int) =~= body);
}

/// The bytes of entries begin with the bytes of the first.
pub proof fn lemma_entry_fields_front(
    entry: (Seq<char>, u32),
    more: Seq<(Seq<char>, u32)>,
    tag: u32,
)
    ensures
        entry_fields::<String, u32>(seq![entry] + more, tag) == entry_field::<String, u32>(
            entry.0,
            entry.1,
            tag,
        ) + entry_fields::<String, u32>(more, tag),
    decreases more.len(),
{
    let all = seq![entry] + more;
    let first = entry_field::<String, u32>(entry.0, entry.1, tag);
    if more.len() == 0 {
        assert(all.drop_last() =~= Seq::<(Seq<char>, u32)>::empty());
        assert(all.last() == entry);
        assert(entry_fields::<String, u32>(all.drop_last(), tag) =~= Seq::<u8>::empty());
        assert(entry_fields::<String, u32>(more, tag) =~= Seq::<u8>::empty());
        assert(entry_fields::<String, u32>(all, tag) =~= first + entry_fields::<String, u32>(
            more,
            tag,
        ));
    } else {
        lemma_entry_fields_front(entry, more.drop_last(), tag);
        assert(all.drop_last() =~= seq![entry] + more.drop_last());
        assert(all.last() == more.last());
        assert(entry_fields::<String, u32>(all, tag) =~= first + entry_fields::<String, u32>(
            more,
            tag,
        ));
    }
}

/// The length of the bytes of an entry with a short name fits in a varint.
proof fn lemma_entry_body_len(key: Seq<char>, value: u32)
    requires
        encode_utf8(key).len() < 0x1_0000_0000,
    ensures
        entry_body::<String, u32>(key, value).len() <= u64::MAX,
{
    lemma_varint_len(encode_utf8(key).len());
    lemma_varint_len(value as nat);
    lemma_field_start(1, WireType::LengthDelimited, Seq::empty());
    lemma_field_start(2, WireType::Varint, Seq::empty());
}

/// An entry under a new name that was written where a field may begin is
/// read back as a new entry behind those that were there.
#[verifier::rlimit(80)]
#[verifier::spinoff_prover]
pub proof fn lemma_properties_reads_entry(
    value: PropertiesModel,
    key: Seq<char>,
    number: u32,
    tail: Seq<u8>,
)
    requires
        key_index(value.props, key) == value.props.len(),
        encode_utf8(key).len() < 0x1_0000_0000,
    ensures
        properties_fields(value, entry_field::<String, u32>(key, number, 1) + tail)
            == properties_fields(
            PropertiesModel { props: value.props.push((key, number)), b: value.b, opt: value.opt },
            tail,
        ),
{
    let head = key_bytes(1, WireType::LengthDelimited);
    let inner = entry_body::<String, u32>(key, number);
    lemma_entry_body_len(key, number);
    let body = varint_bytes(inner.len()) + inner;
    lemma_varint_len(inner.len());
    let s = entry_field::<String, u32>(key, number, 1) + tail;
    assert(s =~= head + (body + tail));
    lemma_field_start(1, WireType::LengthDelimited, body + tail);
    lemma_entry_cut_round_trip(inner, tail);
    lemma_entry_reads_back(key, number);
    let next = PropertiesModel {
        props: value.props.push((key, number)),
        b: value.b,
        opt: value.opt,
    };
    assert(with_entry(value.props, key, number) == value.props.push((key, number)));
    assert(MapField::<String, u32>::parsed(value.props, WireType::LengthDelimited, body + tail)
        == Ok::<(Seq<(Seq<char>, u32)>, nat), Failure>((next.props, body.len())));
    let behind = s.skip((head.len() + body.len()) as int);
    assert(behind =~= tail);
    assert(properties_fields(value, s) == properties_fields(next, behind));
}

/// The first of the entries to come has a name that none of the entries
/// before has, and the same holds after it has joined them.
proof fn lemma_next_name_is_new(before: Seq<(Seq<char>, u32)>, entries: Seq<(Seq<char>, u32)>)
    requires
        entries.len() > 0,
        distinct_keys(before + entries),
    ensures
        key_index(before, entries[0].0) == before.len(),
        before.push(entries[0]) + entries.drop_first() == before + entries,
{
    let all = before + entries;
    lemma_key_index(before, entries[0].0);
    let i = key_index(before, entries[0].0);
    if i < before.len() {
        assert(all[i] == before[i]);
        assert(all[before.len() as int] == entries[0]);
    }
    assert(before.push(entries[0]) + entries.drop_first() =~= all);
}

/// Entries with distinct names that were written one after the other are
/// read back in their order, behind the entries that were there.
pub proof fn lemma_properties_reads_entries(
    value: PropertiesModel,
    entries: Seq<(Seq<char>, u32)>,
    rest: Seq<u8>,
)
    requires
        distinct_keys(value.props + entries),
        short_names(entries),
    ensures
        properties_fields(value, entry_fields::<String, u32>(entries, 1) + rest)
            == properties_fields(
            PropertiesModel { props: value.props + entries, b: value.b, opt: value.opt },
            rest,
        ),
    decreases entries.len(),
{
    if entries.len() == 0 {
        assert(entry_fields::<String, u32>(entries, 1) + rest =~= rest);
        assert(value.props + entries =~= value.props);
    } else {
        let entry = entries[0];
        let more = entries.drop_first();
        assert(entries =~= seq![entry] + more);
        lemma_entry_fields_front(entry, more, 1);
        let tail = entry_fields::<String, u32>(more, 1) + rest;
        let s = entry_fields::<String, u32>(entries, 1) + rest;
        assert(s =~= entry_field::<String, u32>(entry.0, entry.1, 1) + tail);
        lemma_next_name_is_new(value.props, entries);
        lemma_properties_reads_entry(value, entry.0, entry.1, tail);
        let next = PropertiesModel {
            props: value.props.push(entry),
            b: value.b,
            opt: value.opt,
        };
        assert forall|i: int| 0 <= i < more.len() implies encode_utf8(
            #[trigger] more[i].0,
        ).len() < 0x1_0000_0000 by {
            assert(more[i] == entries[i + 1]);
        }
        lemma_properties_reads_entries(next, more, rest);
    }
}

/// **Round trip.** What `write` emits for a `Properties` is read back as the
/// same value, for properties with distinct names of less than 2^32 bytes
/// each and a text of at most 2^64 - 1 bytes.
pub proof fn lemma_properties_round_trip(m: PropertiesModel)
    requires
        distinct_keys(m.props),
        short_names(m.props),
        m.opt matches Some(text) ==> encode_utf8(text).len() <= u64::MAX,
    ensures
        Properties::parse(Properties::wire(m)) == Ok::<PropertiesModel, Failure>(m),
{
    let blank = Properties::blank();
    let e0 = MapField::<String, u32>::emitted(m.props, 1, m.props.len() == 0);
    let e1 = bool::emitted(m.b, 2, !m.b);
    let e2 = Option::<String>::emitted(m.opt, 3, m.opt is None);
    let t2 = e2;
    let t1 = e1 + t2;
    let t0 = e0 + t1;
    assert(t0 =~= Properties::wire(m));
    let v1 = PropertiesModel { props: m.props, b: false, opt: None };
    let v2 = PropertiesModel { props: m.props, b: m.b, opt: None };
    // the text
    assert(properties_fields(v2, t2) == Ok::<PropertiesModel, Failure>(m)) by {
        match m.opt {
            None => {},
            Some(text) => {
                let head = key_bytes(3, WireType::LengthDelimited);
                let payload = String::payload(text);
                let body = varint_bytes(payload.len()) + payload;
                lemma_varint_len(payload.len());
                lemma_string_field(text, Seq::empty(), 3, Seq::empty());
                lemma_field_start(3, WireType::LengthDelimited, body + Seq::<u8>::empty());
                assert(t2 =~= head + (body + Seq::<u8>::empty()));
                let behind = t2.skip((head.len() + body.len()) as int);
                assert(behind =~= Seq::<u8>::empty());
                assert(properties_fields(v2, t2) == properties_fields(m, behind));
            },
        }
    }
    // the flag
    assert(properties_fields(v1, t1) == properties_fields(v2, t2)) by {
        if m.b {
            let head = key_bytes(2, WireType::Varint);
            let body = bool::payload(m.b);
            lemma_bool_field(m.b, false, 2, t2);
            lemma_field_start(2, WireType::Varint, body + t2);
            assert(t1 =~= head + (body + t2));
            let behind = t1.skip((head.len() + body.len()) as int);
            assert(behind =~= t2);
            assert(properties_fields(v1, t1) == properties_fields(v2, behind));
        } else {
            assert(t1 =~= t2);
        }
    }
    // the properties
    assert(properties_fields(blank, t0) == properties_fields(v1, t1)) by {
        if m.props.len() == 0 {
            assert(t0 =~= t1);
            assert(m.props =~= Seq::<(Seq<char>, u32)>::empty());
        } else {
            assert(blank.props + m.props =~= m.props);
            lemma_properties_reads_entries(blank, m.props, t1);
        }
    }
}

} // verus!
