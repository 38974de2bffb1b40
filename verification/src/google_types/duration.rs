//! The `Duration` message.

use crate::buf::{bytes_is_empty, bytes_mut_seq, bytes_seq};
use crate::encoding::{decode_key, skip_field, DecodeError, Failure, WireType};
use crate::types::scalars::{lemma_i32_field, lemma_i64_field};
use crate::types::{
    field_start, lemma_field_start, lemma_skip_more, skipped, DefaultValue, Message, NativeType,
};
use crate::wire_format::{
    key_bytes, lemma_skip_exact, lemma_skip_parse_bound, lemma_varint_tail_bounds, skip_parse,
    varint_consumed, varint_parse, MAX_TAG, MIN_TAG,
};
use ntex_bytes::{Bytes, BytesMut};
use vstd::prelude::*;

verus! {

/// A signed, fixed-length span of time: a count of seconds and a fraction
/// of a second at nanosecond resolution. It is independent of any calendar
/// and of notions like "day" or "month".
#[derive(Clone, Copy, PartialEq, Eq, Debug, Structural)]
pub struct Duration {
    /// Signed seconds of the span of time.
    pub seconds: i64,
    /// Signed fractions of a second at nanosecond resolution of the span of
    /// time. For a span of one second or more, a non-zero value has the sign
    /// of `seconds`.
    pub nanos: i32,
}

impl Default for Duration {
    fn default() -> (r: Duration)
        ensures
            Message::model(&r) == Duration::blank(),
    {
        Duration { seconds: Default::default(), nanos: Default::default() }
    }
}

/// Reading the fields of `Duration` one after the other into `value`: a field
/// with a known number is read into its place, any other field is passed
/// over, and the end of the input ends the message.
pub open spec fn duration_fields(value: Duration, s: Seq<u8>) -> Result<Duration, Failure>
    decreases s.len(),
{
    if s.len() == 0 {
        Ok(value)
    } else {
        match field_start(s) {
            Err(f) => Err(f),
            Ok((tag, wire_type, n)) => {
                let rest = s.skip(n as int);
                let step: Result<(Duration, nat), Failure> = if tag == 1 {
                    match i64::parsed(value.seconds, wire_type, rest) {
                        Ok((v, k)) => Ok((Duration { seconds: v, nanos: value.nanos }, k)),
                        Err(f) => Err(f.within("Duration"@, "seconds"@)),
                    }
                } else if tag == 2 {
                    match i32::parsed(value.nanos, wire_type, rest) {
                        Ok((v, k)) => Ok((Duration { seconds: value.seconds, nanos: v }, k)),
                        Err(f) => Err(f.within("Duration"@, "nanos"@)),
                    }
                } else {
                    match skipped(wire_type, tag, rest) {
                        Ok(k) => Ok((value, k)),
                        Err(f) => Err(f),
                    }
                };
                match step {
                    Err(f) => Err(f),
                    // A key takes at least one byte and no field takes more than
                    // there is, so the test never holds: it shows that the
                    // recursion ends.
                    Ok((next, k)) => if n == 0 || n + k > s.len() {
                        Ok(next)
                    } else {
                        duration_fields(next, s.skip((n + k) as int))
                    },
                }
            },
        }
    }
}

/// How many bytes the reading of fields into `value` has taken from `s`
/// when it ends: all of them where every field is read or passed over, and
/// those up to where it gave up where a field is refused.
pub open spec fn duration_taken(value: Duration, s: Seq<u8>) -> nat
    decreases s.len(),
{
    if s.len() == 0 {
        0
    } else {
        match field_start(s) {
            Err(_) => varint_consumed(s),
            Ok((tag, wire_type, n)) => {
                let rest = s.skip(n as int);
                let step: Result<(Duration, nat), nat> = if tag == 1 {
                    match i64::parsed(value.seconds, wire_type, rest) {
                        Ok((v, k)) => Ok((Duration { seconds: v, nanos: value.nanos }, k)),
                        Err(_) => Err(i64::refused(value.seconds, wire_type, rest).1),
                    }
                } else if tag == 2 {
                    match i32::parsed(value.nanos, wire_type, rest) {
                        Ok((v, k)) => Ok((Duration { seconds: value.seconds, nanos: v }, k)),
                        Err(_) => Err(i32::refused(value.nanos, wire_type, rest).1),
                    }
                } else {
                    match skipped(wire_type, tag, rest) {
                        Ok(k) => Ok((value, k)),
                        Err(_) => Err(skip_parse(wire_type, tag, rest).1),
                    }
                };
                match step {
                    Err(k) => n + k,
                    // A key takes at least one byte and no field takes more than
                    // there is, so the test never holds: it shows that the
                    // recursion ends.
                    Ok((next, k)) => if n == 0 || n + k > s.len() {
                        n + k
                    } else {
                        n + k + duration_taken(next, s.skip((n + k) as int))
                    },
                }
            },
        }
    }
}

impl Message for Duration {
    type Model = Duration;

    open spec fn model(&self) -> Duration {
        *self
    }

    open spec fn blank() -> Duration {
        Duration { seconds: 0, nanos: 0 }
    }

    open spec fn wire(m: Duration) -> Seq<u8> {
        i64::emitted(m.seconds, 1, i64::model_is_default(m.seconds))
            + i32::emitted(m.nanos, 2, i32::model_is_default(m.nanos))
    }

    open spec fn parse(s: Seq<u8>) -> Result<Duration, Failure> {
        duration_fields(Self::blank(), s)
    }

    open spec fn taken(s: Seq<u8>) -> nat {
        duration_taken(Self::blank(), s)
    }

    proof fn default_is_blank(v: Self) {
        assert(call_ensures(<Duration as Default>::default, (), v));
    }

    #[verifier::rlimit(30)]
    fn read(src: &mut Bytes) -> (r: Result<Self, DecodeError>) {
        let ghost whole = bytes_seq(src);
        let mut msg = Self::default();
        let ghost mut d: nat = 0;
        assert(whole.skip(0) =~= whole);
        while !bytes_is_empty(src)
            invariant
                Self::parse(whole) == duration_fields(Message::model(&msg), bytes_seq(src)),
                whole == bytes_seq(old(src)),
                d <= whole.len(),
                bytes_seq(src) == whole.skip(d as int),
                Self::taken(whole) == d + duration_taken(Message::model(&msg), bytes_seq(src)),
            decreases bytes_seq(src).len(),
        {
            let ghost s = bytes_seq(src);
            let ghost value = Message::model(&msg);
            proof {
                if varint_parse(s).is_some() {
                    lemma_varint_tail_bounds(s, 0);
                }
            }
            let (tag, wire_type) = match decode_key(src) {
                Ok(key) => key,
                Err(e) => {
                    proof {
                        lemma_skip_more(whole, d, varint_consumed(s));
                    }
                    return Err(e);
                },
            };
            let ghost n = varint_consumed(s);
            let ghost rest = s.skip(n as int);
            if tag == 1 {
                match NativeType::deserialize(&mut msg.seconds, tag, wire_type, src) {
                    Ok(_) => {},
                    Err(e) => {
                        proof {
                            let k = (rest.len() - bytes_seq(src).len()) as nat;
                            lemma_skip_more(whole, d, n);
                            lemma_skip_more(whole, d + n, k);
                        }
                        return Err(e.push("Duration", "seconds"));
                    },
                }
            } else if tag == 2 {
                match NativeType::deserialize(&mut msg.nanos, tag, wire_type, src) {
                    Ok(_) => {},
                    Err(e) => {
                        proof {
                            let k = (rest.len() - bytes_seq(src).len()) as nat;
                            lemma_skip_more(whole, d, n);
                            lemma_skip_more(whole, d + n, k);
                        }
                        return Err(e.push("Duration", "nanos"));
                    },
                }
            } else {
                proof {
                    lemma_skip_parse_bound(wire_type, tag, rest);
                }
                match skip_field(wire_type, tag, src) {
                    Ok(_) => {},
                    Err(e) => {
                        proof {
                            let k = (rest.len() - bytes_seq(src).len()) as nat;
                            lemma_skip_more(whole, d, n);
                            lemma_skip_more(whole, d + n, k);
                        }
                        return Err(e);
                    },
                }
            }
            proof {
                let k = (rest.len() - bytes_seq(src).len()) as nat;
                assert(rest.skip(k as int) =~= s.skip((n + k) as int));
                lemma_skip_more(whole, d, n);
                lemma_skip_more(whole, d + n, k);
                d = d + n + k;
            }
        }
        Ok(msg)
    }

    fn write(&self, dst: &mut BytesMut) {
        let ghost start = bytes_mut_seq(dst);
        NativeType::serialize(&self.seconds, 1, DefaultValue::Default, dst);
        NativeType::serialize(&self.nanos, 2, DefaultValue::Default, dst);
        assert(bytes_mut_seq(dst) =~= start + Self::wire(Message::model(self)));
    }

    fn encoded_len(&self) -> (n: usize) {
        NativeType::serialized_len(&self.seconds, 1, DefaultValue::Default)
            + NativeType::serialized_len(&self.nanos, 2, DefaultValue::Default)
    }

    fn is_same(&self, other: &Self) -> (r: bool) {
        self.seconds == other.seconds
            && self.nanos == other.nanos
    }
}

/// **Round trip.** What `write` emits for `Duration` is read back as the same
/// value.
pub proof fn lemma_duration_round_trip(m: Duration)
    ensures
        Duration::parse(Duration::wire(m)) == Ok::<Duration, Failure>(m),
{
    let blank = Duration::blank();
    let e0 = i64::emitted(m.seconds, 1, i64::model_is_default(m.seconds));
    let e1 = i32::emitted(m.nanos, 2, i32::model_is_default(m.nanos));
    let t2 = Seq::<u8>::empty();
    let t1 = e1 + t2;
    let t0 = e0 + t1;
    assert(t0 =~= Duration::wire(m));
    let v0 = blank;
    let v1 = Duration { seconds: m.seconds, nanos: v0.nanos };
    let v2 = Duration { seconds: v1.seconds, nanos: m.nanos };
    assert(v2 == m);
    assert(duration_fields(v2, t2) == Ok::<Duration, Failure>(m));
    assert(duration_fields(v1, t1) == duration_fields(v2, t2)) by {
        if i32::model_is_default(m.nanos) {
            assert(t1 =~= t2);
        } else {
            let key = key_bytes(2, WireType::Varint);
            let body = i32::payload(m.nanos);
            lemma_i32_field(m.nanos, v1.nanos, 2, t2);
            lemma_field_start(2, WireType::Varint, body + t2);
            assert(t1 =~= key + (body + t2));
            assert(e1 == key + body);
            let behind = t1.skip((key.len() + body.len()) as int);
            assert(duration_fields(v1, t1) == duration_fields(v2, behind));
            assert(behind =~= t2);
        }
    }
    assert(duration_fields(v0, t0) == duration_fields(v1, t1)) by {
        if i64::model_is_default(m.seconds) {
            assert(t0 =~= t1);
        } else {
            let key = key_bytes(1, WireType::Varint);
            let body = i64::payload(m.seconds);
            lemma_i64_field(m.seconds, v0.seconds, 1, t1);
            lemma_field_start(1, WireType::Varint, body + t1);
            assert(t0 =~= key + (body + t1));
            assert(e0 == key + body);
            let behind = t0.skip((key.len() + body.len()) as int);
            assert(duration_fields(v0, t0) == duration_fields(v1, behind));
            assert(behind =~= t1);
        }
    }
}

/// **Forward compatibility.** A field with a number that `Duration` does
/// not know, standing where a field may begin, is passed over: the message
/// reads as if the field were not there.
pub proof fn lemma_duration_skips_unknown(
    value: Duration,
    tag: u32,
    wire_type: WireType,
    body: Seq<u8>,
    rest: Seq<u8>,
)
    requires
        MIN_TAG <= tag <= MAX_TAG,
        tag != 1 && tag != 2,
        skip_parse(wire_type, tag, body) == (None::<Seq<char>>, body.len()),
    ensures
        duration_fields(value, key_bytes(tag, wire_type) + body + rest) == duration_fields(
            value,
            rest,
        ),
{
    lemma_skip_exact(wire_type, tag, body, rest);
    let key = key_bytes(tag, wire_type);
    let s = key + body + rest;
    lemma_field_start(tag, wire_type, body + rest);
    assert(s =~= key + (body + rest));
    assert(s.skip(key.len() as int) =~= body + rest);
    assert(s.skip((key.len() + body.len()) as int) =~= rest);
}

/// **Absent fields.** A message read from no bytes at all has every
/// field at the default of its type.
pub proof fn lemma_duration_absent_fields()
    ensures
        Duration::parse(Seq::empty()) == Ok::<Duration, Failure>(Duration::blank()),
{
}

} // verus!
