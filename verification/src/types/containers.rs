//! Field values made of other field values: optional and repeated fields,
//! and messages nested in messages.

use crate::buf::{
    bytes_is_empty, bytes_len, bytes_mut_seq, bytes_seq, bytes_split_to_checked, ByteString,
    BUF_LIMIT,
};
use crate::encoding::{
    check_wire_type, decode_varint, encode_key, encode_varint, encoded_len_varint, key_len,
    wire_type_mismatch, DecodeError, Failure, WireType,
};
use crate::types::fixed::{Fixed32, Fixed64};
use crate::types::map::MapField;
use crate::types::{
    cut_taken, delimited, plain_bytes, plain_len, take_delimited, DefaultValue, Message,
    NativeType,
};
use crate::wire_format::{
    key_bytes, lemma_varint_len, lemma_varint_round_trip, lemma_varint_tail_bounds,
    varint_bytes, varint_len, varint_parse, MAX_TAG, MIN_TAG,
};
use ntex_bytes::{Bytes, BytesMut};
use vstd::prelude::*;

verus! {

/// A field that may be absent: present, it is written as a field of the
/// inner type, whatever the policy; absent, it is not written. Reading a
/// field makes it present with a value read into a fresh one.
impl<T: NativeType> NativeType for Option<T> {
    type Model = Option<T::Model>;

    const TYPE: WireType = WireType::LengthDelimited;

    open spec fn model(&self) -> Option<T::Model> {
        match self {
            Some(value) => Some(value.model()),
            None => None,
        }
    }

    open spec fn zero() -> Option<T::Model> {
        None
    }

    open spec fn model_is_default(m: Option<T::Model>) -> bool {
        m is None
    }

    open spec fn payload(m: Option<T::Model>) -> Seq<u8> {
        Seq::empty()
    }

    open spec fn merged(pre: Option<T::Model>, s: Seq<u8>) -> Result<
        (Option<T::Model>, nat),
        Failure,
    > {
        Err(Failure::plain("Cannot directly call deserialize for Option<T>"@))
    }

    open spec fn emitted(m: Option<T::Model>, tag: u32, suppress: bool) -> Seq<u8> {
        match m {
            Some(value) => T::emitted(value, tag, false),
            None => Seq::empty(),
        }
    }

    open spec fn parsed(pre: Option<T::Model>, wire_type: WireType, s: Seq<u8>) -> Result<
        (Option<T::Model>, nat),
        Failure,
    > {
        match T::parsed(T::zero(), wire_type, s) {
            Ok((value, n)) => Ok((Some(value), n)),
            Err(f) => Err(f),
        }
    }

    open spec fn merge_taken(s: Seq<u8>) -> nat {
        0
    }

    open spec fn refused(pre: Option<T::Model>, wire_type: WireType, s: Seq<u8>) -> (
        Option<T::Model>,
        nat,
    ) {
        (pre, T::refused(T::zero(), wire_type, s).1)
    }

    proof fn default_is_zero(v: Self) {
    }

    open spec fn reads(wire_type: WireType) -> bool {
        T::reads(wire_type)
    }

    proof fn wrong_wire_type_is_refused(pre: Self::Model, wire_type: WireType, s: Seq<u8>) {
        T::wrong_wire_type_is_refused(T::zero(), wire_type, s);
    }

    proof fn default_is_left_out(m: Self::Model, tag: u32) {
    }

    proof fn varint_merge_advances(pre: Self::Model, s: Seq<u8>) {
    }

    fn value_len(&self) -> (n: usize) {
        0
    }

    fn merge(&mut self, src: &mut Bytes) -> (r: Result<(), DecodeError>) {
        let ghost taken = Self::merge_taken(bytes_seq(src));
        assert(bytes_seq(src).skip(0) =~= bytes_seq(src));
        Err(DecodeError::new("Cannot directly call deserialize for Option<T>"))
    }

    fn is_default(&self) -> (r: bool) {
        self.is_none()
    }

    fn is_same(&self, other: &Self) -> (r: bool) {
        match (self, other) {
            (Some(a), Some(b)) => a.is_same(b),
            (None, None) => true,
            _ => false,
        }
    }

    fn encode_value(&self, dst: &mut BytesMut) {
        assert(bytes_mut_seq(dst) =~= bytes_mut_seq(dst) + Seq::<u8>::empty());
    }

    fn encoded_len(&self, tag: u32) -> (n: usize) {
        match self {
            Some(value) => value.encoded_len(tag),
            None => 0,
        }
    }

    fn serialize(&self, tag: u32, default: DefaultValue<&Self>, dst: &mut BytesMut) {
        match self {
            Some(value) => {
                value.serialize(tag, DefaultValue::Unknown, dst);
            },
            None => {
                assert(bytes_mut_seq(dst) =~= bytes_mut_seq(dst) + Seq::<u8>::empty());
            },
        }
    }

    fn serialized_len(&self, tag: u32, default: DefaultValue<&Self>) -> (n: usize) {
        match self {
            Some(value) => value.serialized_len(tag, DefaultValue::Unknown),
            None => 0,
        }
    }

    fn deserialize(&mut self, tag: u32, wtype: WireType, src: &mut Bytes) -> (r: Result<
        (),
        DecodeError,
    >) {
        let ghost left = Self::refused(self.model(), wtype, bytes_seq(src));
        let mut value = T::default();
        proof {
            T::default_is_zero(value);
        }
        match value.deserialize(tag, wtype, src) {
            Ok(_) => {
                *self = Some(value);
                Ok(())
            },
            Err(e) => Err(e),
        }
    }
}

/// The values of the items, one after the other, without key or length.
pub open spec fn packed<T: NativeType>(items: Seq<T::Model>) -> Seq<u8>
    decreases items.len(),
{
    if items.len() == 0 {
        Seq::empty()
    } else {
        packed::<T>(items.drop_last()) + T::payload(items.last())
    }
}

/// The items as one field each, one after the other.
pub open spec fn repeated<T: NativeType>(items: Seq<T::Model>, tag: u32) -> Seq<u8>
    decreases items.len(),
{
    if items.len() == 0 {
        Seq::empty()
    } else {
        repeated::<T>(items.drop_last(), tag) + T::emitted(items.last(), tag, false)
    }
}

/// The items whose values stand one after the other in `body`, or why
/// `body` is not made of such values.
pub open spec fn unpack<T: NativeType>(body: Seq<u8>) -> Result<Seq<T::Model>, Failure>
    decreases body.len(),
{
    if body.len() == 0 {
        Ok(Seq::empty())
    } else {
        match T::merged(T::zero(), body) {
            Err(f) => Err(f),
            // A value takes at least one byte and never more than there
            // is, so the test never holds: it shows that the recursion
            // ends.
            Ok((value, n)) => if n == 0 || n > body.len() {
                Ok(Seq::empty())
            } else {
                match unpack::<T>(body.skip(n as int)) {
                    Ok(more) => Ok(seq![value] + more),
                    Err(f) => Err(f),
                }
            },
        }
    }
}

/// The items that a reader of `body` has read when it comes to the end of
/// `body` or to a value that it refuses.
pub open spec fn unpacked_before<T: NativeType>(body: Seq<u8>) -> Seq<T::Model>
    decreases body.len(),
{
    if body.len() == 0 {
        Seq::empty()
    } else {
        match T::merged(T::zero(), body) {
            Err(_) => Seq::empty(),
            Ok((value, n)) => if n == 0 || n > body.len() {
                Seq::empty()
            } else {
                seq![value] + unpacked_before::<T>(body.skip(n as int))
            },
        }
    }
}

/// Cutting the body of a packed field out of the input that follows its
/// key: the bytes of the body and how many bytes are taken in all, or why
/// the input is refused.
pub open spec fn packed_body(wire_type: WireType, s: Seq<u8>) -> Result<(Seq<u8>, nat), Failure> {
    if wire_type != WireType::LengthDelimited {
        Err(Failure::plain(wire_type_mismatch(WireType::LengthDelimited, wire_type)))
    } else {
        match varint_parse(s) {
            None => Err(Failure::plain("invalid varint"@)),
            Some((len, n)) => if n + len > s.len() {
                Err(Failure::plain("Not enough data"@))
            } else {
                Ok((s.subrange(n as int, n + len), n + len as nat))
            },
        }
    }
}

pub proof fn lemma_packed_push<T: NativeType>(items: Seq<T::Model>, value: T::Model)
    ensures
        packed::<T>(items.push(value)) == packed::<T>(items) + T::payload(value),
{
    assert(items.push(value).drop_last() =~= items);
}

pub proof fn lemma_repeated_push<T: NativeType>(items: Seq<T::Model>, value: T::Model, tag: u32)
    ensures
        repeated::<T>(items.push(value), tag) == repeated::<T>(items, tag) + T::emitted(
            value,
            tag,
            false,
        ),
{
    assert(items.push(value).drop_last() =~= items);
}

/// The first items take no more bytes than all of them.
pub proof fn lemma_packed_prefix<T: NativeType>(items: Seq<T::Model>, i: int)
    requires
        0 <= i <= items.len(),
    ensures
        packed::<T>(items.take(i)).len() <= packed::<T>(items).len(),
        i < items.len() ==> packed::<T>(items.take(i)).len() + T::payload(items[i]).len()
            <= packed::<T>(items).len(),
    decreases items.len() - i,
{
    if i < items.len() {
        lemma_packed_prefix::<T>(items, i + 1);
        lemma_packed_push::<T>(items.take(i), items[i]);
        assert(items.take(i).push(items[i]) =~= items.take(i + 1));
    } else {
        assert(items.take(i) =~= items);
    }
}

/// The first items take no more bytes than all of them.
pub proof fn lemma_repeated_prefix<T: NativeType>(items: Seq<T::Model>, tag: u32, i: int)
    requires
        0 <= i <= items.len(),
    ensures
        repeated::<T>(items.take(i), tag).len() <= repeated::<T>(items, tag).len(),
        i < items.len() ==> repeated::<T>(items.take(i), tag).len() + T::emitted(
            items[i],
            tag,
            false,
        ).len() <= repeated::<T>(items, tag).len(),
    decreases items.len() - i,
{
    if i < items.len() {
        lemma_repeated_prefix::<T>(items, tag, i + 1);
        lemma_repeated_push::<T>(items.take(i), items[i], tag);
        assert(items.take(i).push(items[i]) =~= items.take(i + 1));
    } else {
        assert(items.take(i) =~= items);
    }
}

/// Whether the value reads back from its own bytes, whatever was there
/// before and whatever follows.
pub open spec fn reads_back<T: NativeType>(value: T::Model) -> bool {
    forall|pre: T::Model, tail: Seq<u8>| #[trigger]
        T::merged(pre, T::payload(value) + tail) == Ok::<(T::Model, nat), Failure>(
            (value, T::payload(value).len()),
        )
}

/// The bytes of packed items begin with the bytes of the first.
pub proof fn lemma_packed_front<T: NativeType>(value: T::Model, more: Seq<T::Model>)
    ensures
        packed::<T>(seq![value] + more) == T::payload(value) + packed::<T>(more),
    decreases more.len(),
{
    let all = seq![value] + more;
    if more.len() == 0 {
        assert(all.drop_last() =~= Seq::<T::Model>::empty());
        assert(all.last() == value);
        assert(packed::<T>(all.drop_last()) =~= Seq::<u8>::empty());
        assert(packed::<T>(more) =~= Seq::<u8>::empty());
        assert(packed::<T>(all) =~= T::payload(value) + packed::<T>(more));
    } else {
        lemma_packed_front::<T>(value, more.drop_last());
        assert(all.drop_last() =~= seq![value] + more.drop_last());
        assert(all.last() == more.last());
        assert(packed::<T>(all) =~= T::payload(value) + packed::<T>(more));
    }
}

/// Items of a varint type that were written back to back are read back one
/// by one.
pub proof fn lemma_unpack_packed<T: NativeType>(items: Seq<T::Model>)
    requires
        T::TYPE == WireType::Varint,
        forall|i: int| 0 <= i < items.len() ==> reads_back::<T>(#[trigger] items[i]),
    ensures
        unpack::<T>(packed::<T>(items)) == Ok::<Seq<T::Model>, Failure>(items),
    decreases items.len(),
{
    if items.len() == 0 {
        assert(items =~= Seq::<T::Model>::empty());
    } else {
        let value = items[0];
        let more = items.drop_first();
        assert(items =~= seq![value] + more);
        lemma_packed_front::<T>(value, more);
        let body = packed::<T>(items);
        let n = T::payload(value).len();
        assert(body == T::payload(value) + packed::<T>(more));
        assert(reads_back::<T>(value));
        assert(T::merged(T::zero(), T::payload(value) + packed::<T>(more)) == Ok::<
            (T::Model, nat),
            Failure,
        >((value, n)));
        T::varint_merge_advances(T::zero(), body);
        assert forall|i: int| 0 <= i < more.len() implies reads_back::<T>(#[trigger] more[i]) by {
            assert(0 <= i + 1 < items.len());
            assert(more[i] == items[i + 1]);
        }
        lemma_unpack_packed::<T>(more);
        assert(body.skip(n as int) =~= packed::<T>(more));
        assert(body.len() > 0);
        assert(unpack::<T>(body) == Ok::<Seq<T::Model>, Failure>(seq![value] + more));
    }
}

/// The body of a packed field that was written with its length in front is
/// cut out again, whatever follows it.
pub proof fn lemma_packed_body_round_trip(body: Seq<u8>, rest: Seq<u8>)
    requires
        body.len() <= u64::MAX,
    ensures
        packed_body(WireType::LengthDelimited, varint_bytes(body.len()) + body + rest) == Ok::<
            (Seq<u8>, nat),
            Failure,
        >((body, varint_len(body.len()) + body.len())),
{
    let s = varint_bytes(body.len()) + body + rest;
    lemma_varint_round_trip(body.len() as u64, body + rest);
    assert(varint_bytes(body.len()) + (body + rest) =~= s);
    let n = varint_len(body.len());
    assert(s.subrange(n as int, (n + body.len()) as int) =~= body);
}

/// **Packed and unpacked.** Items of a varint type read the same whether
/// they come packed in one field or each under a key of its own: the packed
/// field adds all the items behind those already there, and the single item
/// adds itself.
pub proof fn lemma_packed_unpacked<T: NativeType>(
    pre: Seq<T::Model>,
    items: Seq<T::Model>,
    rest: Seq<u8>,
)
    requires
        T::TYPE == WireType::Varint,
        forall|i: int| 0 <= i < items.len() ==> reads_back::<T>(#[trigger] items[i]),
        packed::<T>(items).len() <= u64::MAX,
    ensures
        <Vec<T> as NativeType>::parsed(
            pre,
            WireType::LengthDelimited,
            varint_bytes(packed::<T>(items).len()) + packed::<T>(items) + rest,
        ) == Ok::<(Seq<T::Model>, nat), Failure>(
            (pre + items, varint_len(packed::<T>(items).len()) + packed::<T>(items).len()),
        ),
        forall|i: int, before: Seq<T::Model>, tail: Seq<u8>|
            0 <= i < items.len() ==> #[trigger] <Vec<T> as NativeType>::parsed(
                before,
                WireType::Varint,
                T::payload(items[i]) + tail,
            ) == Ok::<(Seq<T::Model>, nat), Failure>(
                (before.push(items[i]), T::payload(items[i]).len()),
            ),
{
    lemma_unpack_packed::<T>(items);
    lemma_packed_body_round_trip(packed::<T>(items), rest);
    assert forall|i: int, before: Seq<T::Model>, tail: Seq<u8>|
        0 <= i < items.len() implies #[trigger] <Vec<T> as NativeType>::parsed(
        before,
        WireType::Varint,
        T::payload(items[i]) + tail,
    )
        == Ok::<(Seq<T::Model>, nat), Failure>(
        (before.push(items[i]), T::payload(items[i]).len()),
    ) by {
        assert(reads_back::<T>(items[i]));
    }
}

/// A repeated field. Items of a varint type are written packed: one key,
/// the length of all the values, and the values back to back; items of any
/// other type are written as one field each. A packed field is read as a
/// whole, and a single item that comes under a key of its own is read too;
/// either way the items read are added behind those already there.
impl<T: NativeType> NativeType for Vec<T> {
    type Model = Seq<T::Model>;

    const TYPE: WireType = WireType::LengthDelimited;

    open spec fn model(&self) -> Seq<T::Model> {
        self@.map_values(|item: T| item.model())
    }

    open spec fn zero() -> Seq<T::Model> {
        Seq::empty()
    }

    open spec fn model_is_default(m: Seq<T::Model>) -> bool {
        m.len() == 0
    }

    open spec fn payload(m: Seq<T::Model>) -> Seq<u8> {
        Seq::empty()
    }

    open spec fn merged(pre: Seq<T::Model>, s: Seq<u8>) -> Result<(Seq<T::Model>, nat), Failure> {
        Err(Failure::plain("Cannot directly call merge for Vec<T>"@))
    }

    open spec fn emitted(m: Seq<T::Model>, tag: u32, suppress: bool) -> Seq<u8> {
        if suppress {
            Seq::empty()
        } else if T::TYPE == WireType::Varint {
            key_bytes(tag, WireType::LengthDelimited) + varint_bytes(packed::<T>(m).len())
                + packed::<T>(m)
        } else {
            repeated::<T>(m, tag)
        }
    }

    open spec fn parsed(pre: Seq<T::Model>, wire_type: WireType, s: Seq<u8>) -> Result<
        (Seq<T::Model>, nat),
        Failure,
    > {
        if T::TYPE == WireType::Varint && wire_type != WireType::Varint {
            match packed_body(wire_type, s) {
                Ok((body, n)) => match unpack::<T>(body) {
                    Ok(items) => Ok((pre + items, n)),
                    Err(f) => Err(f),
                },
                Err(f) => Err(f),
            }
        } else if T::TYPE == WireType::Varint {
            match T::merged(T::zero(), s) {
                Ok((value, n)) => Ok((pre.push(value), n)),
                Err(f) => Err(f),
            }
        } else {
            match T::parsed(T::zero(), wire_type, s) {
                Ok((value, n)) => Ok((pre.push(value), n)),
                Err(f) => Err(f),
            }
        }
    }

    open spec fn merge_taken(s: Seq<u8>) -> nat {
        0
    }

    open spec fn refused(pre: Seq<T::Model>, wire_type: WireType, s: Seq<u8>) -> (
        Seq<T::Model>,
        nat,
    ) {
        if T::TYPE == WireType::Varint && wire_type != WireType::Varint {
            match packed_body(wire_type, s) {
                Ok((body, n)) => (pre + unpacked_before::<T>(body), n),
                Err(_) => (pre, cut_taken(WireType::LengthDelimited, wire_type, s)),
            }
        } else if T::TYPE == WireType::Varint {
            (pre, T::merge_taken(s))
        } else {
            (pre, T::refused(T::zero(), wire_type, s).1)
        }
    }

    proof fn default_is_zero(v: Self) {
        assert(v.model() =~= Seq::empty());
    }

    open spec fn reads(wire_type: WireType) -> bool {
        if T::TYPE == WireType::Varint {
            wire_type == WireType::LengthDelimited || wire_type == WireType::Varint
        } else {
            T::reads(wire_type)
        }
    }

    proof fn wrong_wire_type_is_refused(pre: Self::Model, wire_type: WireType, s: Seq<u8>) {
        if T::TYPE != WireType::Varint {
            T::wrong_wire_type_is_refused(T::zero(), wire_type, s);
        }
    }

    proof fn default_is_left_out(m: Self::Model, tag: u32) {
    }

    proof fn varint_merge_advances(pre: Self::Model, s: Seq<u8>) {
    }

    fn value_len(&self) -> (n: usize) {
        0
    }

    fn merge(&mut self, src: &mut Bytes) -> (r: Result<(), DecodeError>) {
        let ghost taken = Self::merge_taken(bytes_seq(src));
        assert(bytes_seq(src).skip(0) =~= bytes_seq(src));
        Err(DecodeError::new("Cannot directly call merge for Vec<T>"))
    }

    fn is_default(&self) -> (r: bool) {
        self.len() == 0
    }

    fn is_same(&self, other: &Self) -> (r: bool) {
        if self.len() != other.len() {
            assert(self.model().len() != other.model().len());
            return false;
        }
        let mut i: usize = 0;
        while i < self.len()
            invariant
                self@.len() == other@.len(),
                i <= self@.len(),
                forall|j: int| 0 <= j < i ==> self.model()[j] == other.model()[j],
            decreases self@.len() - i,
        {
            assert(self.model()[i as int] == self@[i as int].model());
            assert(other.model()[i as int] == other@[i as int].model());
            if !self[i].is_same(&other[i]) {
                return false;
            }
            i += 1;
        }
        assert(self.model() =~= other.model());
        true
    }

    fn encode_value(&self, dst: &mut BytesMut) {
        assert(bytes_mut_seq(dst) =~= bytes_mut_seq(dst) + Seq::<u8>::empty());
    }

    fn encoded_len(&self, tag: u32) -> (n: usize) {
        let ghost m = self.model();
        if T::TYPE == WireType::Varint {
            proof {
                lemma_varint_len(packed::<T>(m).len());
            }
            let mut total: usize = 0;
            let mut i: usize = 0;
            while i < self.len()
                invariant
                    m == self.model(),
                    i <= self@.len(),
                    total == packed::<T>(m.take(i as int)).len(),
                    packed::<T>(m).len() <= usize::MAX,
                decreases self@.len() - i,
            {
                proof {
                    lemma_packed_prefix::<T>(m, i as int);
                    lemma_packed_push::<T>(m.take(i as int), m[i as int]);
                    assert(m.take(i as int).push(m[i as int]) =~= m.take(i + 1));
                }
                total += self[i].value_len();
                i += 1;
            }
            assert(m.take(i as int) =~= m);
            total + key_len(tag) + encoded_len_varint(total as u64)
        } else {
            let mut total: usize = 0;
            let mut i: usize = 0;
            while i < self.len()
                invariant
                    m == self.model(),
                    tag <= MAX_TAG,
                    i <= self@.len(),
                    total == repeated::<T>(m.take(i as int), tag).len(),
                    repeated::<T>(m, tag).len() <= usize::MAX,
                decreases self@.len() - i,
            {
                proof {
                    lemma_repeated_prefix::<T>(m, tag, i as int);
                    lemma_repeated_push::<T>(m.take(i as int), m[i as int], tag);
                    assert(m.take(i as int).push(m[i as int]) =~= m.take(i + 1));
                }
                total += self[i].encoded_len(tag);
                i += 1;
            }
            assert(m.take(i as int) =~= m);
            total
        }
    }

    fn serialize(&self, tag: u32, default: DefaultValue<&Self>, dst: &mut BytesMut) {
        let suppress = match default {
            DefaultValue::Unknown => false,
            DefaultValue::Default => self.is_default(),
            DefaultValue::Value(d) => self.is_same(d),
        };
        let ghost m = self.model();
        let ghost start = bytes_mut_seq(dst);
        if suppress {
            assert(start =~= start + Seq::<u8>::empty());
        } else if T::TYPE == WireType::Varint {
            proof {
                lemma_varint_len(packed::<T>(m).len());
            }
            encode_key(tag, WireType::LengthDelimited, dst);
            let mut total: usize = 0;
            let mut i: usize = 0;
            while i < self.len()
                invariant
                    m == self.model(),
                    i <= self@.len(),
                    total == packed::<T>(m.take(i as int)).len(),
                    packed::<T>(m).len() <= usize::MAX,
                decreases self@.len() - i,
            {
                proof {
                    lemma_packed_prefix::<T>(m, i as int);
                    lemma_packed_push::<T>(m.take(i as int), m[i as int]);
                    assert(m.take(i as int).push(m[i as int]) =~= m.take(i + 1));
                }
                total += self[i].value_len();
                i += 1;
            }
            assert(m.take(i as int) =~= m);
            encode_varint(total as u64, dst);
            let ghost head = bytes_mut_seq(dst);
            let mut i: usize = 0;
            while i < self.len()
                invariant
                    m == self.model(),
                    i <= self@.len(),
                    bytes_mut_seq(dst) == head + packed::<T>(m.take(i as int)),
                    head.len() + packed::<T>(m).len() <= BUF_LIMIT,
                decreases self@.len() - i,
            {
                proof {
                    lemma_packed_prefix::<T>(m, i as int);
                    lemma_packed_push::<T>(m.take(i as int), m[i as int]);
                    assert(m.take(i as int).push(m[i as int]) =~= m.take(i + 1));
                }
                let ghost before = bytes_mut_seq(dst);
                self[i].encode_value(dst);
                assert(bytes_mut_seq(dst) =~= head + packed::<T>(m.take(i + 1)));
                i += 1;
            }
            assert(m.take(i as int) =~= m);
            assert(bytes_mut_seq(dst) =~= start + Self::emitted(m, tag, false));
        } else {
            let mut i: usize = 0;
            while i < self.len()
                invariant
                    m == self.model(),
                    MIN_TAG <= tag <= MAX_TAG,
                    i <= self@.len(),
                    bytes_mut_seq(dst) == start + repeated::<T>(m.take(i as int), tag),
                    start.len() + repeated::<T>(m, tag).len() <= BUF_LIMIT,
                decreases self@.len() - i,
            {
                proof {
                    lemma_repeated_prefix::<T>(m, tag, i as int);
                    lemma_repeated_push::<T>(m.take(i as int), m[i as int], tag);
                    assert(m.take(i as int).push(m[i as int]) =~= m.take(i + 1));
                }
                self[i].serialize(tag, DefaultValue::Unknown, dst);
                assert(bytes_mut_seq(dst) =~= start + repeated::<T>(m.take(i + 1), tag));
                i += 1;
            }
            assert(m.take(i as int) =~= m);
        }
    }

    fn serialized_len(&self, tag: u32, default: DefaultValue<&Self>) -> (n: usize) {
        let suppress = match default {
            DefaultValue::Unknown => false,
            DefaultValue::Default => self.is_default(),
            DefaultValue::Value(d) => self.is_same(d),
        };
        if suppress {
            0
        } else {
            self.encoded_len(tag)
        }
    }

    fn deserialize(&mut self, tag: u32, wtype: WireType, src: &mut Bytes) -> (r: Result<
        (),
        DecodeError,
    >) {
        let ghost left = Self::refused(self.model(), wtype, bytes_seq(src));
        let ghost pre = self.model();
        let ghost s = bytes_seq(src);
        let ghost outcome = Self::parsed(pre, wtype, s);
        if T::TYPE == WireType::Varint && wtype != WireType::Varint {
            match check_wire_type(WireType::LengthDelimited, wtype) {
                Ok(_) => {},
                Err(e) => {
                    assert(s.skip(0) =~= s);
                    return Err(e);
                },
            }
            proof {
                if varint_parse(s).is_some() {
                    lemma_varint_tail_bounds(s, 0);
                }
            }
            let len = match decode_varint(src) {
                Ok(len) => len,
                Err(e) => {
                    return Err(e);
                },
            };
            if len > bytes_len(src) as u64 {
                return Err(DecodeError::incomplete());
            }
            let ghost n = varint_parse(s).unwrap().1;
            let mut buf = match bytes_split_to_checked(src, len as usize) {
                Some(buf) => buf,
                None => {
                    return Err(DecodeError::incomplete());
                },
            };
            let ghost body = bytes_seq(&buf);
            assert(body =~= s.subrange(n as int, n + len));
            assert(bytes_seq(src) =~= s.skip(n + len));
            let ghost mut done: Seq<T::Model> = Seq::empty();
            assert(pre + done =~= pre);
            assert(done + unpacked_before::<T>(body) =~= unpacked_before::<T>(body));
            assert(packed_body(wtype, s) == Ok::<(Seq<u8>, nat), Failure>((body, n + len as nat)));
            while !bytes_is_empty(&buf)
                invariant
                    T::TYPE == WireType::Varint,
                    wtype != WireType::Varint,
                    pre == old(self).model(),
                    s == bytes_seq(old(src)),
                    n + len <= s.len(),
                    bytes_seq(src) == s.skip(n + len),
                    packed_body(wtype, s) == Ok::<(Seq<u8>, nat), Failure>(
                        (body, n + len as nat),
                    ),
                    self.model() == pre + done,
                    unpacked_before::<T>(body) == done + unpacked_before::<T>(bytes_seq(&buf)),
                    unpack::<T>(body) == match unpack::<T>(bytes_seq(&buf)) {
                        Ok(more) => Ok::<Seq<T::Model>, Failure>(done + more),
                        Err(f) => Err(f),
                    },
                decreases bytes_seq(&buf).len(),
            {
                let ghost cur = bytes_seq(&buf);
                let mut value = T::default();
                proof {
                    T::default_is_zero(value);
                    T::varint_merge_advances(T::zero(), cur);
                }
                match value.merge(&mut buf) {
                    Ok(_) => {},
                    Err(e) => {
                        assert(done + Seq::<T::Model>::empty() =~= done);
                        return Err(e);
                    },
                }
                proof {
                    let later = unpacked_before::<T>(bytes_seq(&buf));
                    assert(done + (seq![value.model()] + later) =~= done.push(value.model())
                        + later);
                    let more = unpack::<T>(bytes_seq(&buf));
                    if more is Ok {
                        assert(done + (seq![value.model()] + more->Ok_0) =~= done.push(
                            value.model(),
                        ) + more->Ok_0);
                    }
                    lemma_model_push(self, value);
                    assert(pre + done.push(value.model()) =~= (pre + done).push(value.model()));
                    done = done.push(value.model());
                }
                self.push(value);
            }
            assert(done + Seq::<T::Model>::empty() =~= done);
            assert(unpack::<T>(body) == Ok::<Seq<T::Model>, Failure>(done));
            Ok(())
        } else if T::TYPE == WireType::Varint {
            let mut value = T::default();
            proof {
                T::default_is_zero(value);
            }
            match value.merge(src) {
                Ok(_) => {
                    proof {
                        lemma_model_push(self, value);
                    }
                    self.push(value);
                    Ok(())
                },
                Err(e) => Err(e),
            }
        } else {
            let mut value = T::default();
            proof {
                T::default_is_zero(value);
            }
            match value.deserialize(tag, wtype, src) {
                Ok(_) => {
                    proof {
                        lemma_model_push(self, value);
                    }
                    self.push(value);
                    Ok(())
                },
                Err(e) => Err(e),
            }
        }
    }
}

/// The model of a vector with one more item is the model with one more
/// value.
pub proof fn lemma_model_push<T: NativeType>(items: &Vec<T>, value: T)
    ensures
        items@.push(value).map_values(|item: T| item.model()) == items.model().push(value.model()),
{
    assert(items@.push(value).map_values(|item: T| item.model()) =~= items.model().push(
        value.model(),
    ));
}

/// A message nested in a message: written as a length-delimited field that
/// holds the bytes of the message, and never left out as a default.
impl<T: Message> NativeType for T {
    type Model = <T as Message>::Model;

    const TYPE: WireType = WireType::LengthDelimited;

    open spec fn model(&self) -> <T as Message>::Model {
        Message::model(self)
    }

    open spec fn zero() -> <T as Message>::Model {
        T::blank()
    }

    open spec fn model_is_default(m: <T as Message>::Model) -> bool {
        false
    }

    open spec fn payload(m: <T as Message>::Model) -> Seq<u8> {
        T::wire(m)
    }

    open spec fn merged(pre: <T as Message>::Model, s: Seq<u8>) -> Result<
        (<T as Message>::Model, nat),
        Failure,
    > {
        match T::parse(s) {
            Ok(m) => Ok((m, s.len())),
            Err(f) => Err(f),
        }
    }

    open spec fn emitted(m: <T as Message>::Model, tag: u32, suppress: bool) -> Seq<u8> {
        plain_bytes(WireType::LengthDelimited, T::wire(m), tag, suppress)
    }

    open spec fn parsed(pre: <T as Message>::Model, wire_type: WireType, s: Seq<u8>) -> Result<
        (<T as Message>::Model, nat),
        Failure,
    > {
        match delimited(WireType::LengthDelimited, wire_type, s) {
            Ok((body, n)) => match T::parse(body) {
                Ok(m) => Ok((m, n)),
                Err(f) => Err(f),
            },
            Err(f) => Err(f),
        }
    }

    open spec fn merge_taken(s: Seq<u8>) -> nat {
        T::taken(s)
    }

    open spec fn refused(pre: <T as Message>::Model, wire_type: WireType, s: Seq<u8>) -> (
        <T as Message>::Model,
        nat,
    ) {
        (pre, cut_taken(WireType::LengthDelimited, wire_type, s))
    }

    proof fn default_is_zero(v: Self) {
        T::default_is_blank(v);
    }

    open spec fn reads(wire_type: WireType) -> bool {
        wire_type == WireType::LengthDelimited
    }

    proof fn wrong_wire_type_is_refused(pre: Self::Model, wire_type: WireType, s: Seq<u8>) {
    }

    proof fn default_is_left_out(m: Self::Model, tag: u32) {
    }

    proof fn varint_merge_advances(pre: Self::Model, s: Seq<u8>) {
    }

    fn value_len(&self) -> (n: usize) {
        Message::encoded_len(self)
    }

    fn merge(&mut self, src: &mut Bytes) -> (r: Result<(), DecodeError>) {
        let ghost taken = Self::merge_taken(bytes_seq(src));
        let ghost s = bytes_seq(src);
        let ghost outcome = Self::merged(Message::model(self), s);
        match <T as Message>::read(src) {
            Ok(value) => {
                assert(outcome is Ok);
                *self = value;
                assert(bytes_seq(src) =~= s.skip(s.len() as int));
                Ok(())
            },
            Err(e) => {
                assert(outcome is Err);
                Err(e)
            },
        }
    }

    fn is_default(&self) -> (r: bool) {
        false
    }

    fn is_same(&self, other: &Self) -> (r: bool) {
        Message::is_same(self, other)
    }

    fn encode_value(&self, dst: &mut BytesMut) {
        self.write(dst);
    }

    fn encoded_len(&self, tag: u32) -> (n: usize) {
        proof {
            lemma_varint_len(T::wire(Message::model(self)).len());
        }
        plain_len(WireType::LengthDelimited, Message::encoded_len(self), tag)
    }

    fn serialize(&self, tag: u32, default: DefaultValue<&Self>, dst: &mut BytesMut) {
        let suppress = match default {
            DefaultValue::Unknown => false,
            DefaultValue::Default => false,
            DefaultValue::Value(d) => Message::is_same(self, d),
        };
        if !suppress {
            proof {
                lemma_varint_len(T::wire(Message::model(self)).len());
            }
            self.encode_type(tag, dst);
            self.write(dst);
            assert(bytes_mut_seq(dst) =~= bytes_mut_seq(old(dst)) + Self::emitted(
                Message::model(self),
                tag,
                false,
            ));
        } else {
            assert(bytes_mut_seq(dst) =~= bytes_mut_seq(old(dst)) + Seq::<u8>::empty());
        }
    }

    fn serialized_len(&self, tag: u32, default: DefaultValue<&Self>) -> (n: usize) {
        let suppress = match default {
            DefaultValue::Unknown => false,
            DefaultValue::Default => false,
            DefaultValue::Value(d) => Message::is_same(self, d),
        };
        if suppress {
            0
        } else {
            NativeType::encoded_len(self, tag)
        }
    }

    fn deserialize(&mut self, tag: u32, wtype: WireType, src: &mut Bytes) -> (r: Result<
        (),
        DecodeError,
    >) {
        let ghost left = Self::refused(self.model(), wtype, bytes_seq(src));
        let ghost outcome = Self::parsed(Message::model(self), wtype, bytes_seq(src));
        match take_delimited(WireType::LengthDelimited, wtype, src) {
            Ok(mut buf) => {
                assert(outcome is Ok <==> T::parse(bytes_seq(&buf)) is Ok);
                NativeType::merge(self, &mut buf)
            },
            Err(e) => {
                assert(outcome is Err);
                Err(e)
            },
        }
    }
}

/// An optional field, a repeated field and a nested message are all written
/// with the length-delimited wire type.
pub proof fn lemma_container_types<T: NativeType, M: Message>()
    ensures
        <Option<T> as NativeType>::TYPE == WireType::LengthDelimited,
        <Vec<T> as NativeType>::TYPE == WireType::LengthDelimited,
        <M as NativeType>::TYPE == WireType::LengthDelimited,
{
}

/// **Fields that are left out.** A field that its policy leaves out takes
/// no bytes, whatever its value: so it is for the numbers, the texts and the
/// buffers, for repeated fields, map fields and nested messages. The one
/// exception is the optional field, which is written whenever it is present
/// and takes no bytes only where it is absent.
pub proof fn lemma_left_out_is_empty<T: NativeType, K: NativeType, V: NativeType, M: Message>(
    tag: u32,
)
    ensures
        forall|m: bool| #[trigger] bool::emitted(m, tag, true) == Seq::<u8>::empty(),
        forall|m: i32| #[trigger] i32::emitted(m, tag, true) == Seq::<u8>::empty(),
        forall|m: i64| #[trigger] i64::emitted(m, tag, true) == Seq::<u8>::empty(),
        forall|m: u32| #[trigger] u32::emitted(m, tag, true) == Seq::<u8>::empty(),
        forall|m: u64| #[trigger] u64::emitted(m, tag, true) == Seq::<u8>::empty(),
        forall|m: u32| #[trigger] Fixed32::emitted(m, tag, true) == Seq::<u8>::empty(),
        forall|m: u64| #[trigger] Fixed64::emitted(m, tag, true) == Seq::<u8>::empty(),
        forall|m: Seq<char>| #[trigger] String::emitted(m, tag, true) == Seq::<u8>::empty(),
        forall|m: Seq<u8>| #[trigger] Bytes::emitted(m, tag, true) == Seq::<u8>::empty(),
        forall|m: Seq<u8>| #[trigger] ByteString::emitted(m, tag, true) == Seq::<u8>::empty(),
        forall|m: Seq<u8>| #[trigger] <Vec<u8> as NativeType>::emitted(m, tag, true) == Seq::<
            u8,
        >::empty(),
        forall|m: Seq<T::Model>| #[trigger]
            <Vec<T> as NativeType>::emitted(m, tag, true) == Seq::<u8>::empty(),
        forall|m: Seq<(K::Model, V::Model)>| #[trigger]
            MapField::<K, V>::emitted(m, tag, true) == Seq::<u8>::empty(),
        forall|m: <M as Message>::Model| #[trigger]
            <M as NativeType>::emitted(m, tag, true) == Seq::<u8>::empty(),
        <Option<T> as NativeType>::emitted(None, tag, true) == Seq::<u8>::empty(),
        forall|m: T::Model| #[trigger]
            <Option<T> as NativeType>::emitted(Some(m), tag, true) == T::emitted(m, tag, false),
{
}

} // verus!
