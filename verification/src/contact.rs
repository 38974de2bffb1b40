//! A message with a oneof: a contact that is reached by one channel at
//! most.

use crate::buf::{bytes_is_empty, bytes_mut_seq, bytes_seq};
use crate::encoding::{decode_key, skip_field, DecodeError, Failure, WireType};
use crate::types::delimited::lemma_string_field;
use crate::types::scalars::{lemma_u32_field, lemma_u64_field};
use crate::types::{
    field_start, lemma_field_start, lemma_skip_more, skipped, DefaultValue, Message, NativeType,
};
use crate::wire_format::{
    key_bytes, lemma_skip_exact, lemma_skip_parse_bound, lemma_varint_len, lemma_varint_tail_bounds,
    skip_parse, varint_bytes, varint_consumed, varint_parse, MAX_TAG, MIN_TAG,
};
use ntex_bytes::{Bytes, BytesMut};
use vstd::prelude::*;

verus! {

/// How a contact is reached: by none of the channels, or by one of them.
/// On the wire the channel is a field of its own: the address as field 2,
/// or the number as field 3.
#[derive(Clone, PartialEq, Debug)]
pub enum Channel {
    Unset,
    Email(String),
    Phone(u64),
}

/// What a `Channel` stands for.
pub enum ChannelModel {
    Unset,
    Email(Seq<char>),
    Phone(u64),
}

impl View for Channel {
    type V = ChannelModel;

    open spec fn view(&self) -> ChannelModel {
        match self {
            Channel::Unset => ChannelModel::Unset,
            Channel::Email(address) => ChannelModel::Email(address@),
            Channel::Phone(number) => ChannelModel::Phone(*number),
        }
    }
}

/// What a `Contact` stands for.
pub struct ContactModel {
    pub id: u32,
    pub channel: ChannelModel,
}

/// A contact: its number, and the channel by which it is reached.
#[derive(Clone, PartialEq, Debug)]
pub struct Contact {
    /// The number of the contact.
    pub id: u32,
    /// The channel by which the contact is reached.
    pub channel: Channel,
}

impl Default for Contact {
    fn default() -> (r: Contact)
        ensures
            Message::model(&r) == Contact::blank(),
    {
        Contact { id: 0, channel: Channel::Unset }
    }
}

/// The bytes of a channel: the field of the channel that is set, written
/// whatever its value, or nothing where none is set.
pub open spec fn channel_bytes(channel: ChannelModel) -> Seq<u8> {
    match channel {
        ChannelModel::Unset => Seq::empty(),
        ChannelModel::Email(address) => String::emitted(address, 2, false),
        ChannelModel::Phone(number) => u64::emitted(number, 3, false),
    }
}

/// Reading the fields of a `Contact` one after the other into `value`:
/// field 1 is the number; field 2 and field 3 set the channel, whatever it
/// was before; any other field is passed over, and the end of the input
/// ends the message.
pub open spec fn contact_fields(value: ContactModel, s: Seq<u8>) -> Result<ContactModel, Failure>
    decreases s.len(),
{
    if s.len() == 0 {
        Ok(value)
    } else {
        match field_start(s) {
            Err(f) => Err(f),
            Ok((tag, wire_type, n)) => {
                let rest = s.skip(n as int);
                let step: Result<(ContactModel, nat), Failure> = if tag == 1 {
                    match u32::parsed(value.id, wire_type, rest) {
                        Ok((v, k)) => Ok((ContactModel { id: v, channel: value.channel }, k)),
                        Err(f) => Err(f.within("Contact"@, "id"@)),
                    }
                } else if tag == 2 {
                    match String::parsed(Seq::empty(), wire_type, rest) {
                        Ok((v, k)) => Ok(
                            (ContactModel { id: value.id, channel: ChannelModel::Email(v) }, k),
                        ),
                        Err(f) => Err(f.within("Contact"@, "channel"@)),
                    }
                } else if tag == 3 {
                    match u64::parsed(0, wire_type, rest) {
                        Ok((v, k)) => Ok(
                            (ContactModel { id: value.id, channel: ChannelModel::Phone(v) }, k),
                        ),
                        Err(f) => Err(f.within("Contact"@, "channel"@)),
                    }
                } else {
                    match skipped(wire_type, tag, rest) {
                        Ok(k) => Ok((value, k)),
                        Err(f) => Err(f),
                    }
                };
                match step {
                    Err(f) => Err(f),
                    // A key takes at least one byte and no field takes more than
                    // there is, so the test never holds: it shows that the
                    // recursion ends.
                    Ok((next, k)) => if n == 0 || n + k > s.len() {
                        Ok(next)
                    } else {
                        contact_fields(next, s.skip((n + k) as int))
                    },
                }
            },
        }
    }
}

/// How many bytes the reading of fields into `value` has taken from `s`
/// when it ends: all of them where every field is read or passed over, and
/// those up to where it gave up where a field is refused.
pub open spec fn contact_taken(value: ContactModel, s: Seq<u8>) -> nat
    decreases s.len(),
{
    if s.len() == 0 {
        0
    } else {
        match field_start(s) {
            Err(_) => varint_consumed(s),
            Ok((tag, wire_type, n)) => {
                let rest = s.skip(n as int);
                let step: Result<(ContactModel, nat), nat> = if tag == 1 {
                    match u32::parsed(value.id, wire_type, rest) {
                        Ok((v, k)) => Ok((ContactModel { id: v, channel: value.channel }, k)),
                        Err(_) => Err(u32::refused(value.id, wire_type, rest).1),
                    }
                } else if tag == 2 {
                    match String::parsed(Seq::empty(), wire_type, rest) {
                        Ok((v, k)) => Ok(
                            (ContactModel { id: value.id, channel: ChannelModel::Email(v) }, k),
                        ),
                        Err(_) => Err(String::refused(Seq::empty(), wire_type, rest).1),
                    }
                } else if tag == 3 {
                    match u64::parsed(0, wire_type, rest) {
                        Ok((v, k)) => Ok(
                            (ContactModel { id: value.id, channel: ChannelModel::Phone(v) }, k),
                        ),
                        Err(_) => Err(u64::refused(0, wire_type, rest).1),
                    }
                } else {
                    match skipped(wire_type, tag, rest) {
                        Ok(k) => Ok((value, k)),
                        Err(_) => Err(skip_parse(wire_type, tag, rest).1),
                    }
                };
                match step {
                    Err(k) => n + k,
                    // A key takes at least one byte and no field takes more than
                    // there is, so the test never holds: it shows that the
                    // recursion ends.
                    Ok((next, k)) => if n == 0 || n + k > s.len() {
                        n + k
                    } else {
                        n + k + contact_taken(next, s.skip((n + k) as int))
                    },
                }
            },
        }
    }
}

impl Message for Contact {
    type Model = ContactModel;

    open spec fn model(&self) -> ContactModel {
        ContactModel { id: self.id, channel: self.channel@ }
    }

    open spec fn blank() -> ContactModel {
        ContactModel { id: 0, channel: ChannelModel::Unset }
    }

    open spec fn wire(m: ContactModel) -> Seq<u8> {
        u32::emitted(m.id, 1, m.id == 0) + channel_bytes(m.channel)
    }

    open spec fn parse(s: Seq<u8>) -> Result<ContactModel, Failure> {
        contact_fields(Self::blank(), s)
    }

    open spec fn taken(s: Seq<u8>) -> nat {
        contact_taken(Self::blank(), s)
    }

    proof fn default_is_blank(v: Self) {
        assert(call_ensures(<Contact as Default>::default, (), v));
    }

    #[verifier::rlimit(30)]
    fn read(src: &mut Bytes) -> (r: Result<Self, DecodeError>) {
        let ghost whole = bytes_seq(src);
        let mut msg = Self::default();
        let ghost mut d: nat = 0;
        assert(whole.skip(0) =~= whole);
        while !bytes_is_empty(src)
            invariant
                Self::parse(whole) == contact_fields(Message::model(&msg), bytes_seq(src)),
                whole == bytes_seq(old(src)),
                d <= whole.len(),
                bytes_seq(src) == whole.skip(d as int),
                Self::taken(whole) == d + contact_taken(Message::model(&msg), bytes_seq(src)),
            decreases bytes_seq(src).len(),
        {
            let ghost s = bytes_seq(src);
            proof {
                if varint_parse(s).is_some() {
                    lemma_varint_tail_bounds(s, 0);
                }
            }
            let (tag, wire_type) = match decode_key(src) {
                Ok(key) => key,
                Err(e) => {
                    proof {
                        lemma_skip_more(whole, d, varint_consumed(s));
                    }
                    return Err(e);
                },
            };
            let ghost n = varint_consumed(s);
            let ghost rest = s.skip(n as int);
            if tag == 1 {
                match NativeType::deserialize(&mut msg.id, tag, wire_type, src) {
                    Ok(_) => {},
                    Err(e) => {
                        proof {
                            let k = (rest.len() - bytes_seq(src).len()) as nat;
                            lemma_skip_more(whole, d, n);
                            lemma_skip_more(whole, d + n, k);
                        }
                        return Err(e.push("Contact", "id"));
                    },
                }
            } else if tag == 2 {
                match String::deserialize_default(tag, wire_type, src) {
                    Ok(address) => {
                        msg.channel = Channel::Email(address);
                    },
                    Err(e) => {
                        proof {
                            let k = (rest.len() - bytes_seq(src).len()) as nat;
                            lemma_skip_more(whole, d, n);
                            lemma_skip_more(whole, d + n, k);
                        }
                        return Err(e.push("Contact", "channel"));
                    },
                }
            } else if tag == 3 {
                match u64::deserialize_default(tag, wire_type, src) {
                    Ok(number) => {
                        msg.channel = Channel::Phone(number);
                    },
                    Err(e) => {
                        proof {
                            let k = (rest.len() - bytes_seq(src).len()) as nat;
                            lemma_skip_more(whole, d, n);
                            lemma_skip_more(whole, d + n, k);
                        }
                        return Err(e.push("Contact", "channel"));
                    },
                }
            } else {
                proof {
                    lemma_skip_parse_bound(wire_type, tag, rest);
                }
                match skip_field(wire_type, tag, src) {
                    Ok(_) => {},
                    Err(e) => {
                        proof {
                            let k = (rest.len() - bytes_seq(src).len()) as nat;
                            lemma_skip_more(whole, d, n);
                            lemma_skip_more(whole, d + n, k);
                        }
                        return Err(e);
                    },
                }
            }
            proof {
                let k = (rest.len() - bytes_seq(src).len()) as nat;
                assert(rest.skip(k as int) =~= s.skip((n + k) as int));
                lemma_skip_more(whole, d, n);
                lemma_skip_more(whole, d + n, k);
                d = d + n + k;
            }
        }
        Ok(msg)
    }

    fn write(&self, dst: &mut BytesMut) {
        let ghost start = bytes_mut_seq(dst);
        NativeType::serialize(&self.id, 1, DefaultValue::Default, dst);
        let ghost mid = bytes_mut_seq(dst);
        match &self.channel {
            Channel::Unset => {},
            Channel::Email(address) => {
                NativeType::serialize(address, 2, DefaultValue::Unknown, dst);
            },
            Channel::Phone(number) => {
                NativeType::serialize(number, 3, DefaultValue::Unknown, dst);
            },
        }
        assert(bytes_mut_seq(dst) =~= start + Self::wire(Message::model(self)));
    }

    fn encoded_len(&self) -> (n: usize) {
        NativeType::serialized_len(&self.id, 1, DefaultValue::Default) + match &self.channel {
            Channel::Unset => 0,
            Channel::Email(address) => NativeType::serialized_len(
                address,
                2,
                DefaultValue::Unknown,
            ),
            Channel::Phone(number) => NativeType::serialized_len(number, 3, DefaultValue::Unknown),
        }
    }

    fn is_same(&self, other: &Self) -> (r: bool) {
        self.id == other.id && match (&self.channel, &other.channel) {
            (Channel::Unset, Channel::Unset) => true,
            (Channel::Email(a), Channel::Email(b)) => NativeType::is_same(a, b),
            (Channel::Phone(a), Channel::Phone(b)) => *a == *b,
            _ => false,
        }
    }
}

/// **One of.** A field of the channel that stands where a field may begin
/// sets the channel, whatever it was before: of several, the last wins.
pub proof fn lemma_channel_replaces(value: ContactModel, channel: ChannelModel, rest: Seq<u8>)
    requires
        channel matches ChannelModel::Email(address) ==> vstd::utf8::encode_utf8(address).len()
            <= u64::MAX,
    ensures
        contact_fields(value, channel_bytes(channel) + rest) == contact_fields(
            match channel {
                ChannelModel::Unset => value,
                _ => ContactModel { id: value.id, channel: channel },
            },
            rest,
        ),
{
    match channel {
        ChannelModel::Unset => {
            assert(channel_bytes(channel) + rest =~= rest);
        },
        ChannelModel::Email(address) => {
            let key = key_bytes(2, WireType::LengthDelimited);
            let payload = String::payload(address);
            let body = varint_bytes(payload.len()) + payload;
            lemma_varint_len(payload.len());
            lemma_string_field(address, Seq::empty(), 2, rest);
            lemma_field_start(2, WireType::LengthDelimited, body + rest);
            let s = channel_bytes(channel) + rest;
            assert(s =~= key + (body + rest));
            let behind = s.skip((key.len() + body.len()) as int);
            assert(behind =~= rest);
        },
        ChannelModel::Phone(number) => {
            let key = key_bytes(3, WireType::Varint);
            let body = u64::payload(number);
            lemma_u64_field(number, 0, 3, rest);
            lemma_field_start(3, WireType::Varint, body + rest);
            let s = channel_bytes(channel) + rest;
            assert(s =~= key + (body + rest));
            let behind = s.skip((key.len() + body.len()) as int);
            assert(behind =~= rest);
        },
    }
}

/// **Round trip.** What `write` emits for a `Contact` is read back as the
/// same value, for an address of at most 2^64 - 1 bytes.
pub proof fn lemma_contact_round_trip(m: ContactModel)
    requires
        m.channel matches ChannelModel::Email(address) ==> vstd::utf8::encode_utf8(
            address,
        ).len() <= u64::MAX,
    ensures
        Contact::parse(Contact::wire(m)) == Ok::<ContactModel, Failure>(m),
{
    let blank = Contact::blank();
    let tail = channel_bytes(m.channel);
    let with_id = ContactModel { id: m.id, channel: ChannelModel::Unset };
    lemma_channel_replaces(with_id, m.channel, Seq::empty());
    assert(tail + Seq::<u8>::empty() =~= tail);
    assert(contact_fields(with_id, tail) == Ok::<ContactModel, Failure>(m));
    if m.id == 0 {
        assert(Contact::wire(m) =~= tail);
    } else {
        let key = key_bytes(1, WireType::Varint);
        let body = u32::payload(m.id);
        lemma_u32_field(m.id, 0, 1, tail);
        lemma_field_start(1, WireType::Varint, body + tail);
        let s = Contact::wire(m);
        assert(s =~= key + (body + tail));
        let behind = s.skip((key.len() + body.len()) as int);
        assert(behind =~= tail);
        assert(contact_fields(blank, s) == contact_fields(with_id, behind));
    }
}

/// **Forward compatibility.** A field with a number that `Contact` does not
/// know, standing where a field may begin, is passed over: the message
/// reads as if the field were not there.
pub proof fn lemma_contact_skips_unknown(
    value: ContactModel,
    tag: u32,
    wire_type: WireType,
    body: Seq<u8>,
    rest: Seq<u8>,
)
    requires
        MIN_TAG <= tag <= MAX_TAG,
        tag != 1 && tag != 2 && tag != 3,
        skip_parse(wire_type, tag, body) == (None::<Seq<char>>, body.len()),
    ensures
        contact_fields(value, key_bytes(tag, wire_type) + body + rest) == contact_fields(
            value,
            rest,
        ),
{
    lemma_skip_exact(wire_type, tag, body, rest);
    let key = key_bytes(tag, wire_type);
    let s = key + body + rest;
    lemma_field_start(tag, wire_type, body + rest);
    assert(s =~= key + (body + rest));
    assert(s.skip(key.len() as int) =~= body + rest);
    assert(s.skip((key.len() + body.len()) as int) =~= rest);
}

} // verus!
