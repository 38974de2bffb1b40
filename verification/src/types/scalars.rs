//! Field values that are written as one varint.

use crate::buf::{bytes_mut_seq, bytes_seq};
use crate::encoding::{
    check_wire_type, decode_varint, encode_varint, encoded_len_varint, wire_type_mismatch,
    DecodeError, Failure, WireType,
};
use crate::types::containers::lemma_packed_unpacked;
use crate::types::{packed, plain_bytes, plain_len, reads_back, DefaultValue, NativeType};
use crate::wire_format::{
    key_bytes, lemma_varint_len, lemma_varint_round_trip, lemma_varint_tail_bounds,
    varint_bytes, varint_consumed, varint_len, varint_parse, MAX_TAG, MIN_TAG,
};
use ntex_bytes::{Bytes, BytesMut};
use vstd::prelude::*;

verus! {

/// How a varint field is read: the key has the varint wire type, and the
/// value is the varint that follows.
pub open spec fn varint_field(wire_type: WireType, s: Seq<u8>) -> Result<(u64, nat), Failure> {
    if wire_type != WireType::Varint {
        Err(Failure::plain(wire_type_mismatch(WireType::Varint, wire_type)))
    } else {
        match varint_parse(s) {
            Some((v, n)) => Ok((v, n)),
            None => Err(Failure::plain("invalid varint"@)),
        }
    }
}

/// A truth value: the varint 1 for true and 0 for false; the varint 1 reads
/// as true and every other varint as false.
impl NativeType for bool {
    type Model = bool;

    const TYPE: WireType = WireType::Varint;

    open spec fn model(&self) -> bool {
        *self
    }

    open spec fn zero() -> bool {
        false
    }

    open spec fn model_is_default(m: bool) -> bool {
        m == false
    }

    open spec fn payload(m: bool) -> Seq<u8> {
        varint_bytes((if m { 1u64 } else { 0u64 }) as nat)
    }

    open spec fn merged(pre: bool, s: Seq<u8>) -> Result<(bool, nat), Failure> {
        match varint_parse(s) {
            Some((v, n)) => Ok((v == 1, n)),
            None => Err(Failure::plain("invalid varint"@)),
        }
    }

    open spec fn emitted(m: bool, tag: u32, suppress: bool) -> Seq<u8> {
        plain_bytes(WireType::Varint, Self::payload(m), tag, suppress)
    }

    open spec fn parsed(pre: bool, wire_type: WireType, s: Seq<u8>) -> Result<
        (bool, nat),
        Failure,
    > {
        match varint_field(wire_type, s) {
            Ok((v, n)) => Ok((v == 1, n)),
            Err(f) => Err(f),
        }
    }

    open spec fn merge_taken(s: Seq<u8>) -> nat {
        varint_consumed(s)
    }

    open spec fn refused(pre: bool, wire_type: WireType, s: Seq<u8>) -> (bool, nat) {
        if wire_type != WireType::Varint {
            (pre, 0)
        } else {
            (pre, varint_consumed(s))
        }
    }

    proof fn default_is_zero(v: Self) {
    }

    open spec fn reads(wire_type: WireType) -> bool {
        wire_type == WireType::Varint
    }

    proof fn wrong_wire_type_is_refused(pre: Self::Model, wire_type: WireType, s: Seq<u8>) {
    }

    proof fn default_is_left_out(m: Self::Model, tag: u32) {
    }

    proof fn varint_merge_advances(pre: Self::Model, s: Seq<u8>) {
        if varint_parse(s).is_some() {
            lemma_varint_tail_bounds(s, 0);
        }
    }

    fn value_len(&self) -> (n: usize) {
        encoded_len_varint(if *self { 1u64 } else { 0u64 })
    }

    fn merge(&mut self, src: &mut Bytes) -> (r: Result<(), DecodeError>) {
        let ghost outcome = Self::merged(self.model(), bytes_seq(src));
        let ghost taken = Self::merge_taken(bytes_seq(src));
        match decode_varint(src) {
            Ok(v) => {
                assert(outcome is Ok);
                *self = v == 1;
                Ok(())
            },
            Err(e) => {
                assert(outcome is Err);
                Err(e)
            },
        }
    }

    fn is_default(&self) -> (r: bool) {
        *self == false
    }

    fn is_same(&self, other: &Self) -> (r: bool) {
        *self == *other
    }

    fn encode_value(&self, dst: &mut BytesMut) {
        proof {
            lemma_varint_len((if *self { 1u64 } else { 0u64 }) as nat);
        }
        encode_varint(if *self { 1u64 } else { 0u64 }, dst);
    }

    fn encoded_len(&self, tag: u32) -> (n: usize) {
        proof {
            lemma_varint_len((if *self { 1u64 } else { 0u64 }) as nat);
        }
        plain_len(WireType::Varint, self.value_len(), tag)
    }

    fn serialize(&self, tag: u32, default: DefaultValue<&Self>, dst: &mut BytesMut) {
        let suppress = match default {
            DefaultValue::Unknown => false,
            DefaultValue::Default => self.is_default(),
            DefaultValue::Value(d) => self.is_same(d),
        };
        if !suppress {
            proof {
                lemma_varint_len((if *self { 1u64 } else { 0u64 }) as nat);
            }
            self.encode_type(tag, dst);
            self.encode_value(dst);
            assert(bytes_mut_seq(dst) =~= bytes_mut_seq(old(dst)) + Self::emitted(
                self.model(),
                tag,
                false,
            ));
        } else {
            assert(bytes_mut_seq(dst) =~= bytes_mut_seq(old(dst)) + Seq::<u8>::empty());
        }
    }

    fn serialized_len(&self, tag: u32, default: DefaultValue<&Self>) -> (n: usize) {
        let suppress = match default {
            DefaultValue::Unknown => false,
            DefaultValue::Default => self.is_default(),
            DefaultValue::Value(d) => self.is_same(d),
        };
        if suppress {
            0
        } else {
            self.encoded_len(tag)
        }
    }

    fn deserialize(&mut self, tag: u32, wtype: WireType, src: &mut Bytes) -> (r: Result<
        (),
        DecodeError,
    >) {
        let ghost left = Self::refused(self.model(), wtype, bytes_seq(src));
        let ghost outcome = Self::parsed(self.model(), wtype, bytes_seq(src));
        match check_wire_type(WireType::Varint, wtype) {
            Ok(_) => {
                assert(outcome is Ok <==> Self::merged(self.model(), bytes_seq(src)) is Ok);
                self.merge(src)
            },
            Err(e) => {
                assert(outcome is Err);
                assert(bytes_seq(src).skip(0) =~= bytes_seq(src));
                Err(e)
            },
        }
    }
}

/// Every `bool` reads back from its own bytes, whatever follows them.
pub proof fn lemma_bool_reads_back(value: bool)
    ensures
        reads_back::<bool>(value),
{
    assert forall|pre: bool, tail: Seq<u8>|
        #[trigger] bool::merged(pre, bool::payload(value) + tail) == Ok::<
            (bool, nat),
            Failure,
        >((value, bool::payload(value).len())) by {
        lemma_bool_field(value, pre, 1, tail);
    }
}

/// **Round trip of one field.** A `bool` that was written as field `tag`
/// is read back from the bytes behind its key, whatever follows, and the
/// reader stops right behind it.
pub proof fn lemma_bool_field(
    value: bool,
    pre: bool,
    tag: u32,
    rest: Seq<u8>,
)
    requires
        MIN_TAG <= tag <= MAX_TAG,
    ensures
        bool::emitted(value, tag, false) == key_bytes(tag, WireType::Varint)
            + bool::payload(value),
        bool::parsed(
            pre,
            WireType::Varint,
            bool::payload(value) + rest,
        ) == Ok::<(bool, nat), Failure>((value, bool::payload(value).len())),
{
    let raw: u64 = (if value { 1u64 } else { 0u64 });
    lemma_varint_round_trip(raw, rest);
    
}

/// A signed 32-bit number: the varint of its sign-extended 64 bits; a varint
/// reads as its low 32 bits.
impl NativeType for i32 {
    type Model = i32;

    const TYPE: WireType = WireType::Varint;

    open spec fn model(&self) -> i32 {
        *self
    }

    open spec fn zero() -> i32 {
        0
    }

    open spec fn model_is_default(m: i32) -> bool {
        m == 0
    }

    open spec fn payload(m: i32) -> Seq<u8> {
        varint_bytes((m as u64) as nat)
    }

    open spec fn merged(pre: i32, s: Seq<u8>) -> Result<(i32, nat), Failure> {
        match varint_parse(s) {
            Some((v, n)) => Ok((v as i32, n)),
            None => Err(Failure::plain("invalid varint"@)),
        }
    }

    open spec fn emitted(m: i32, tag: u32, suppress: bool) -> Seq<u8> {
        plain_bytes(WireType::Varint, Self::payload(m), tag, suppress)
    }

    open spec fn parsed(pre: i32, wire_type: WireType, s: Seq<u8>) -> Result<
        (i32, nat),
        Failure,
    > {
        match varint_field(wire_type, s) {
            Ok((v, n)) => Ok((v as i32, n)),
            Err(f) => Err(f),
        }
    }

    open spec fn merge_taken(s: Seq<u8>) -> nat {
        varint_consumed(s)
    }

    open spec fn refused(pre: i32, wire_type: WireType, s: Seq<u8>) -> (i32, nat) {
        if wire_type != WireType::Varint {
            (pre, 0)
        } else {
            (pre, varint_consumed(s))
        }
    }

    proof fn default_is_zero(v: Self) {
    }

    open spec fn reads(wire_type: WireType) -> bool {
        wire_type == WireType::Varint
    }

    proof fn wrong_wire_type_is_refused(pre: Self::Model, wire_type: WireType, s: Seq<u8>) {
    }

    proof fn default_is_left_out(m: Self::Model, tag: u32) {
    }

    proof fn varint_merge_advances(pre: Self::Model, s: Seq<u8>) {
        if varint_parse(s).is_some() {
            lemma_varint_tail_bounds(s, 0);
        }
    }

    fn value_len(&self) -> (n: usize) {
        encoded_len_varint(*self as u64)
    }

    fn merge(&mut self, src: &mut Bytes) -> (r: Result<(), DecodeError>) {
        let ghost taken = Self::merge_taken(bytes_seq(src));
        let ghost outcome = Self::merged(self.model(), bytes_seq(src));
        match decode_varint(src) {
            Ok(v) => {
                assert(outcome is Ok);
                *self = #[verifier::truncate]
                (v as i32);
                Ok(())
            },
            Err(e) => {
                assert(outcome is Err);
                Err(e)
            },
        }
    }

    fn is_default(&self) -> (r: bool) {
        *self == 0
    }

    fn is_same(&self, other: &Self) -> (r: bool) {
        *self == *other
    }

    fn encode_value(&self, dst: &mut BytesMut) {
        proof {
            lemma_varint_len((*self as u64) as nat);
        }
        encode_varint(*self as u64, dst);
    }

    fn encoded_len(&self, tag: u32) -> (n: usize) {
        proof {
            lemma_varint_len((*self as u64) as nat);
        }
        plain_len(WireType::Varint, self.value_len(), tag)
    }

    fn serialize(&self, tag: u32, default: DefaultValue<&Self>, dst: &mut BytesMut) {
        let suppress = match default {
            DefaultValue::Unknown => false,
            DefaultValue::Default => self.is_default(),
            DefaultValue::Value(d) => self.is_same(d),
        };
        if !suppress {
            proof {
                lemma_varint_len((*self as u64) as nat);
            }
            self.encode_type(tag, dst);
            self.encode_value(dst);
            assert(bytes_mut_seq(dst) =~= bytes_mut_seq(old(dst)) + Self::emitted(
                self.model(),
                tag,
                false,
            ));
        } else {
            assert(bytes_mut_seq(dst) =~= bytes_mut_seq(old(dst)) + Seq::<u8>::empty());
        }
    }

    fn serialized_len(&self, tag: u32, default: DefaultValue<&Self>) -> (n: usize) {
        let suppress = match default {
            DefaultValue::Unknown => false,
            DefaultValue::Default => self.is_default(),
            DefaultValue::Value(d) => self.is_same(d),
        };
        if suppress {
            0
        } else {
            self.encoded_len(tag)
        }
    }

    fn deserialize(&mut self, tag: u32, wtype: WireType, src: &mut Bytes) -> (r: Result<
        (),
        DecodeError,
    >) {
        let ghost left = Self::refused(self.model(), wtype, bytes_seq(src));
        let ghost outcome = Self::parsed(self.model(), wtype, bytes_seq(src));
        match check_wire_type(WireType::Varint, wtype) {
            Ok(_) => {
                assert(outcome is Ok <==> Self::merged(self.model(), bytes_seq(src)) is Ok);
                self.merge(src)
            },
            Err(e) => {
                assert(outcome is Err);
                assert(bytes_seq(src).skip(0) =~= bytes_seq(src));
                Err(e)
            },
        }
    }
}

/// Every `i32` reads back from its own bytes, whatever follows them.
pub proof fn lemma_i32_reads_back(value: i32)
    ensures
        reads_back::<i32>(value),
{
    assert forall|pre: i32, tail: Seq<u8>|
        #[trigger] i32::merged(pre, i32::payload(value) + tail) == Ok::<
            (i32, nat),
            Failure,
        >((value, i32::payload(value).len())) by {
        lemma_i32_field(value, pre, 1, tail);
    }
}

/// **Round trip of one field.** A `i32` that was written as field `tag`
/// is read back from the bytes behind its key, whatever follows, and the
/// reader stops right behind it.
pub proof fn lemma_i32_field(
    value: i32,
    pre: i32,
    tag: u32,
    rest: Seq<u8>,
)
    requires
        MIN_TAG <= tag <= MAX_TAG,
    ensures
        i32::emitted(value, tag, false) == key_bytes(tag, WireType::Varint)
            + i32::payload(value),
        i32::parsed(
            pre,
            WireType::Varint,
            i32::payload(value) + rest,
        ) == Ok::<(i32, nat), Failure>((value, i32::payload(value).len())),
{
    let raw: u64 = (value as u64);
    lemma_varint_round_trip(raw, rest);
    assert(raw as i32 == value) by (bit_vector)
        requires
            raw == value as u64,
    ;
}

/// A signed 64-bit number: the varint of its 64 bits.
impl NativeType for i64 {
    type Model = i64;

    const TYPE: WireType = WireType::Varint;

    open spec fn model(&self) -> i64 {
        *self
    }

    open spec fn zero() -> i64 {
        0
    }

    open spec fn model_is_default(m: i64) -> bool {
        m == 0
    }

    open spec fn payload(m: i64) -> Seq<u8> {
        varint_bytes((m as u64) as nat)
    }

    open spec fn merged(pre: i64, s: Seq<u8>) -> Result<(i64, nat), Failure> {
        match varint_parse(s) {
            Some((v, n)) => Ok((v as i64, n)),
            None => Err(Failure::plain("invalid varint"@)),
        }
    }

    open spec fn emitted(m: i64, tag: u32, suppress: bool) -> Seq<u8> {
        plain_bytes(WireType::Varint, Self::payload(m), tag, suppress)
    }

    open spec fn parsed(pre: i64, wire_type: WireType, s: Seq<u8>) -> Result<
        (i64, nat),
        Failure,
    > {
        match varint_field(wire_type, s) {
            Ok((v, n)) => Ok((v as i64, n)),
            Err(f) => Err(f),
        }
    }

    open spec fn merge_taken(s: Seq<u8>) -> nat {
        varint_consumed(s)
    }

    open spec fn refused(pre: i64, wire_type: WireType, s: Seq<u8>) -> (i64, nat) {
        if wire_type != WireType::Varint {
            (pre, 0)
        } else {
            (pre, varint_consumed(s))
        }
    }

    proof fn default_is_zero(v: Self) {
    }

    open spec fn reads(wire_type: WireType) -> bool {
        wire_type == WireType::Varint
    }

    proof fn wrong_wire_type_is_refused(pre: Self::Model, wire_type: WireType, s: Seq<u8>) {
    }

    proof fn default_is_left_out(m: Self::Model, tag: u32) {
    }

    proof fn varint_merge_advances(pre: Self::Model, s: Seq<u8>) {
        if varint_parse(s).is_some() {
            lemma_varint_tail_bounds(s, 0);
        }
    }

    fn value_len(&self) -> (n: usize) {
        encoded_len_varint(*self as u64)
    }

    fn merge(&mut self, src: &mut Bytes) -> (r: Result<(), DecodeError>) {
        let ghost taken = Self::merge_taken(bytes_seq(src));
        let ghost outcome = Self::merged(self.model(), bytes_seq(src));
        match decode_varint(src) {
            Ok(v) => {
                assert(outcome is Ok);
                *self = #[verifier::truncate]
                (v as i64);
                Ok(())
            },
            Err(e) => {
                assert(outcome is Err);
                Err(e)
            },
        }
    }

    fn is_default(&self) -> (r: bool) {
        *self == 0
    }

    fn is_same(&self, other: &Self) -> (r: bool) {
        *self == *other
    }

    fn encode_value(&self, dst: &mut BytesMut) {
        proof {
            lemma_varint_len((*self as u64) as nat);
        }
        encode_varint(*self as u64, dst);
    }

    fn encoded_len(&self, tag: u32) -> (n: usize) {
        proof {
            lemma_varint_len((*self as u64) as nat);
        }
        plain_len(WireType::Varint, self.value_len(), tag)
    }

    fn serialize(&self, tag: u32, default: DefaultValue<&Self>, dst: &mut BytesMut) {
        let suppress = match default {
            DefaultValue::Unknown => false,
            DefaultValue::Default => self.is_default(),
            DefaultValue::Value(d) => self.is_same(d),
        };
        if !suppress {
            proof {
                lemma_varint_len((*self as u64) as nat);
            }
            self.encode_type(tag, dst);
            self.encode_value(dst);
            assert(bytes_mut_seq(dst) =~= bytes_mut_seq(old(dst)) + Self::emitted(
                self.model(),
                tag,
                false,
            ));
        } else {
            assert(bytes_mut_seq(dst) =~= bytes_mut_seq(old(dst)) + Seq::<u8>::empty());
        }
    }

    fn serialized_len(&self, tag: u32, default: DefaultValue<&Self>) -> (n: usize) {
        let suppress = match default {
            DefaultValue::Unknown => false,
            DefaultValue::Default => self.is_default(),
            DefaultValue::Value(d) => self.is_same(d),
        };
        if suppress {
            0
        } else {
            self.encoded_len(tag)
        }
    }

    fn deserialize(&mut self, tag: u32, wtype: WireType, src: &mut Bytes) -> (r: Result<
        (),
        DecodeError,
    >) {
        let ghost left = Self::refused(self.model(), wtype, bytes_seq(src));
        let ghost outcome = Self::parsed(self.model(), wtype, bytes_seq(src));
        match check_wire_type(WireType::Varint, wtype) {
            Ok(_) => {
                assert(outcome is Ok <==> Self::merged(self.model(), bytes_seq(src)) is Ok);
                self.merge(src)
            },
            Err(e) => {
                assert(outcome is Err);
                assert(bytes_seq(src).skip(0) =~= bytes_seq(src));
                Err(e)
            },
        }
    }
}

/// Every `i64` reads back from its own bytes, whatever follows them.
pub proof fn lemma_i64_reads_back(value: i64)
    ensures
        reads_back::<i64>(value),
{
    assert forall|pre: i64, tail: Seq<u8>|
        #[trigger] i64::merged(pre, i64::payload(value) + tail) == Ok::<
            (i64, nat),
            Failure,
        >((value, i64::payload(value).len())) by {
        lemma_i64_field(value, pre, 1, tail);
    }
}

/// **Round trip of one field.** A `i64` that was written as field `tag`
/// is read back from the bytes behind its key, whatever follows, and the
/// reader stops right behind it.
pub proof fn lemma_i64_field(
    value: i64,
    pre: i64,
    tag: u32,
    rest: Seq<u8>,
)
    requires
        MIN_TAG <= tag <= MAX_TAG,
    ensures
        i64::emitted(value, tag, false) == key_bytes(tag, WireType::Varint)
            + i64::payload(value),
        i64::parsed(
            pre,
            WireType::Varint,
            i64::payload(value) + rest,
        ) == Ok::<(i64, nat), Failure>((value, i64::payload(value).len())),
{
    let raw: u64 = (value as u64);
    lemma_varint_round_trip(raw, rest);
    assert(raw as i64 == value) by (bit_vector)
        requires
            raw == value as u64,
    ;
}

/// An unsigned 32-bit number: its varint; a varint reads as its low 32 bits.
impl NativeType for u32 {
    type Model = u32;

    const TYPE: WireType = WireType::Varint;

    open spec fn model(&self) -> u32 {
        *self
    }

    open spec fn zero() -> u32 {
        0
    }

    open spec fn model_is_default(m: u32) -> bool {
        m == 0
    }

    open spec fn payload(m: u32) -> Seq<u8> {
        varint_bytes((m as u64) as nat)
    }

    open spec fn merged(pre: u32, s: Seq<u8>) -> Result<(u32, nat), Failure> {
        match varint_parse(s) {
            Some((v, n)) => Ok((v as u32, n)),
            None => Err(Failure::plain("invalid varint"@)),
        }
    }

    open spec fn emitted(m: u32, tag: u32, suppress: bool) -> Seq<u8> {
        plain_bytes(WireType::Varint, Self::payload(m), tag, suppress)
    }

    open spec fn parsed(pre: u32, wire_type: WireType, s: Seq<u8>) -> Result<
        (u32, nat),
        Failure,
    > {
        match varint_field(wire_type, s) {
            Ok((v, n)) => Ok((v as u32, n)),
            Err(f) => Err(f),
        }
    }

    open spec fn merge_taken(s: Seq<u8>) -> nat {
        varint_consumed(s)
    }

    open spec fn refused(pre: u32, wire_type: WireType, s: Seq<u8>) -> (u32, nat) {
        if wire_type != WireType::Varint {
            (pre, 0)
        } else {
            (pre, varint_consumed(s))
        }
    }

    proof fn default_is_zero(v: Self) {
    }

    open spec fn reads(wire_type: WireType) -> bool {
        wire_type == WireType::Varint
    }

    proof fn wrong_wire_type_is_refused(pre: Self::Model, wire_type: WireType, s: Seq<u8>) {
    }

    proof fn default_is_left_out(m: Self::Model, tag: u32) {
    }

    proof fn varint_merge_advances(pre: Self::Model, s: Seq<u8>) {
        if varint_parse(s).is_some() {
            lemma_varint_tail_bounds(s, 0);
        }
    }

    fn value_len(&self) -> (n: usize) {
        encoded_len_varint(*self as u64)
    }

    fn merge(&mut self, src: &mut Bytes) -> (r: Result<(), DecodeError>) {
        let ghost taken = Self::merge_taken(bytes_seq(src));
        let ghost outcome = Self::merged(self.model(), bytes_seq(src));
        match decode_varint(src) {
            Ok(v) => {
                assert(outcome is Ok);
                *self = #[verifier::truncate]
                (v as u32);
                Ok(())
            },
            Err(e) => {
                assert(outcome is Err);
                Err(e)
            },
        }
    }

    fn is_default(&self) -> (r: bool) {
        *self == 0
    }

    fn is_same(&self, other: &Self) -> (r: bool) {
        *self == *other
    }

    fn encode_value(&self, dst: &mut BytesMut) {
        proof {
            lemma_varint_len((*self as u64) as nat);
        }
        encode_varint(*self as u64, dst);
    }

    fn encoded_len(&self, tag: u32) -> (n: usize) {
        proof {
            lemma_varint_len((*self as u64) as nat);
        }
        plain_len(WireType::Varint, self.value_len(), tag)
    }

    fn serialize(&self, tag: u32, default: DefaultValue<&Self>, dst: &mut BytesMut) {
        let suppress = match default {
            DefaultValue::Unknown => false,
            DefaultValue::Default => self.is_default(),
            DefaultValue::Value(d) => self.is_same(d),
        };
        if !suppress {
            proof {
                lemma_varint_len((*self as u64) as nat);
            }
            self.encode_type(tag, dst);
            self.encode_value(dst);
            assert(bytes_mut_seq(dst) =~= bytes_mut_seq(old(dst)) + Self::emitted(
                self.model(),
                tag,
                false,
            ));
        } else {
            assert(bytes_mut_seq(dst) =~= bytes_mut_seq(old(dst)) + Seq::<u8>::empty());
        }
    }

    fn serialized_len(&self, tag: u32, default: DefaultValue<&Self>) -> (n: usize) {
        let suppress = match default {
            DefaultValue::Unknown => false,
            DefaultValue::Default => self.is_default(),
            DefaultValue::Value(d) => self.is_same(d),
        };
        if suppress {
            0
        } else {
            self.encoded_len(tag)
        }
    }

    fn deserialize(&mut self, tag: u32, wtype: WireType, src: &mut Bytes) -> (r: Result<
        (),
        DecodeError,
    >) {
        let ghost left = Self::refused(self.model(), wtype, bytes_seq(src));
        let ghost outcome = Self::parsed(self.model(), wtype, bytes_seq(src));
        match check_wire_type(WireType::Varint, wtype) {
            Ok(_) => {
                assert(outcome is Ok <==> Self::merged(self.model(), bytes_seq(src)) is Ok);
                self.merge(src)
            },
            Err(e) => {
                assert(outcome is Err);
                assert(bytes_seq(src).skip(0) =~= bytes_seq(src));
                Err(e)
            },
        }
    }
}

/// Every `u32` reads back from its own bytes, whatever follows them.
pub proof fn lemma_u32_reads_back(value: u32)
    ensures
        reads_back::<u32>(value),
{
    assert forall|pre: u32, tail: Seq<u8>|
        #[trigger] u32::merged(pre, u32::payload(value) + tail) == Ok::<
            (u32, nat),
            Failure,
        >((value, u32::payload(value).len())) by {
        lemma_u32_field(value, pre, 1, tail);
    }
}

/// **Round trip of one field.** A `u32` that was written as field `tag`
/// is read back from the bytes behind its key, whatever follows, and the
/// reader stops right behind it.
pub proof fn lemma_u32_field(
    value: u32,
    pre: u32,
    tag: u32,
    rest: Seq<u8>,
)
    requires
        MIN_TAG <= tag <= MAX_TAG,
    ensures
        u32::emitted(value, tag, false) == key_bytes(tag, WireType::Varint)
            + u32::payload(value),
        u32::parsed(
            pre,
            WireType::Varint,
            u32::payload(value) + rest,
        ) == Ok::<(u32, nat), Failure>((value, u32::payload(value).len())),
{
    let raw: u64 = (value as u64);
    lemma_varint_round_trip(raw, rest);
    assert(raw as u32 == value) by (bit_vector)
        requires
            raw == value as u64,
    ;
}

/// An unsigned 64-bit number: its varint.
impl NativeType for u64 {
    type Model = u64;

    const TYPE: WireType = WireType::Varint;

    open spec fn model(&self) -> u64 {
        *self
    }

    open spec fn zero() -> u64 {
        0
    }

    open spec fn model_is_default(m: u64) -> bool {
        m == 0
    }

    open spec fn payload(m: u64) -> Seq<u8> {
        varint_bytes(m as nat)
    }

    open spec fn merged(pre: u64, s: Seq<u8>) -> Result<(u64, nat), Failure> {
        match varint_parse(s) {
            Some((v, n)) => Ok((v, n)),
            None => Err(Failure::plain("invalid varint"@)),
        }
    }

    open spec fn emitted(m: u64, tag: u32, suppress: bool) -> Seq<u8> {
        plain_bytes(WireType::Varint, Self::payload(m), tag, suppress)
    }

    open spec fn parsed(pre: u64, wire_type: WireType, s: Seq<u8>) -> Result<
        (u64, nat),
        Failure,
    > {
        match varint_field(wire_type, s) {
            Ok((v, n)) => Ok((v, n)),
            Err(f) => Err(f),
        }
    }

    open spec fn merge_taken(s: Seq<u8>) -> nat {
        varint_consumed(s)
    }

    open spec fn refused(pre: u64, wire_type: WireType, s: Seq<u8>) -> (u64, nat) {
        if wire_type != WireType::Varint {
            (pre, 0)
        } else {
            (pre, varint_consumed(s))
        }
    }

    proof fn default_is_zero(v: Self) {
    }

    open spec fn reads(wire_type: WireType) -> bool {
        wire_type == WireType::Varint
    }

    proof fn wrong_wire_type_is_refused(pre: Self::Model, wire_type: WireType, s: Seq<u8>) {
    }

    proof fn default_is_left_out(m: Self::Model, tag: u32) {
    }

    proof fn varint_merge_advances(pre: Self::Model, s: Seq<u8>) {
        if varint_parse(s).is_some() {
            lemma_varint_tail_bounds(s, 0);
        }
    }

    fn value_len(&self) -> (n: usize) {
        encoded_len_varint(*self)
    }

    fn merge(&mut self, src: &mut Bytes) -> (r: Result<(), DecodeError>) {
        let ghost taken = Self::merge_taken(bytes_seq(src));
        let ghost outcome = Self::merged(self.model(), bytes_seq(src));
        match decode_varint(src) {
            Ok(v) => {
                assert(outcome is Ok);
                *self = v;
                Ok(())
            },
            Err(e) => {
                assert(outcome is Err);
                Err(e)
            },
        }
    }

    fn is_default(&self) -> (r: bool) {
        *self == 0
    }

    fn is_same(&self, other: &Self) -> (r: bool) {
        *self == *other
    }

    fn encode_value(&self, dst: &mut BytesMut) {
        proof {
            lemma_varint_len(*self as nat);
        }
        encode_varint(*self, dst);
    }

    fn encoded_len(&self, tag: u32) -> (n: usize) {
        proof {
            lemma_varint_len(*self as nat);
        }
        plain_len(WireType::Varint, self.value_len(), tag)
    }

    fn serialize(&self, tag: u32, default: DefaultValue<&Self>, dst: &mut BytesMut) {
        let suppress = match default {
            DefaultValue::Unknown => false,
            DefaultValue::Default => self.is_default(),
            DefaultValue::Value(d) => self.is_same(d),
        };
        if !suppress {
            proof {
                lemma_varint_len(*self as nat);
            }
            self.encode_type(tag, dst);
            self.encode_value(dst);
            assert(bytes_mut_seq(dst) =~= bytes_mut_seq(old(dst)) + Self::emitted(
                self.model(),
                tag,
                false,
            ));
        } else {
            assert(bytes_mut_seq(dst) =~= bytes_mut_seq(old(dst)) + Seq::<u8>::empty());
        }
    }

    fn serialized_len(&self, tag: u32, default: DefaultValue<&Self>) -> (n: usize) {
        let suppress = match default {
            DefaultValue::Unknown => false,
            DefaultValue::Default => self.is_default(),
            DefaultValue::Value(d) => self.is_same(d),
        };
        if suppress {
            0
        } else {
            self.encoded_len(tag)
        }
    }

    fn deserialize(&mut self, tag: u32, wtype: WireType, src: &mut Bytes) -> (r: Result<
        (),
        DecodeError,
    >) {
        let ghost left = Self::refused(self.model(), wtype, bytes_seq(src));
        let ghost outcome = Self::parsed(self.model(), wtype, bytes_seq(src));
        match check_wire_type(WireType::Varint, wtype) {
            Ok(_) => {
                assert(outcome is Ok <==> Self::merged(self.model(), bytes_seq(src)) is Ok);
                self.merge(src)
            },
            Err(e) => {
                assert(outcome is Err);
                assert(bytes_seq(src).skip(0) =~= bytes_seq(src));
                Err(e)
            },
        }
    }
}

/// Every `u64` reads back from its own bytes, whatever follows them.
pub proof fn lemma_u64_reads_back(value: u64)
    ensures
        reads_back::<u64>(value),
{
    assert forall|pre: u64, tail: Seq<u8>|
        #[trigger] u64::merged(pre, u64::payload(value) + tail) == Ok::<
            (u64, nat),
            Failure,
        >((value, u64::payload(value).len())) by {
        lemma_u64_field(value, pre, 1, tail);
    }
}

/// **Round trip of one field.** A `u64` that was written as field `tag`
/// is read back from the bytes behind its key, whatever follows, and the
/// reader stops right behind it.
pub proof fn lemma_u64_field(
    value: u64,
    pre: u64,
    tag: u32,
    rest: Seq<u8>,
)
    requires
        MIN_TAG <= tag <= MAX_TAG,
    ensures
        u64::emitted(value, tag, false) == key_bytes(tag, WireType::Varint)
            + u64::payload(value),
        u64::parsed(
            pre,
            WireType::Varint,
            u64::payload(value) + rest,
        ) == Ok::<(u64, nat), Failure>((value, u64::payload(value).len())),
{
    let raw: u64 = value;
    lemma_varint_round_trip(raw, rest);
    
}

/// The types of this file are all written with the varint wire type.
pub proof fn lemma_varint_types()
    ensures
        <bool as NativeType>::TYPE == WireType::Varint,
        <i32 as NativeType>::TYPE == WireType::Varint,
        <i64 as NativeType>::TYPE == WireType::Varint,
        <u32 as NativeType>::TYPE == WireType::Varint,
        <u64 as NativeType>::TYPE == WireType::Varint,
{
}

/// **Packed and unpacked, for `i64`.** A packed field of 64-bit numbers
/// adds all of them, in their order, behind those already there, and a
/// single number under a key of its own adds itself.
pub proof fn lemma_i64_packed_unpacked(pre: Seq<i64>, items: Seq<i64>, rest: Seq<u8>)
    requires
        packed::<i64>(items).len() <= u64::MAX,
    ensures
        <Vec<i64> as NativeType>::parsed(
            pre,
            WireType::LengthDelimited,
            varint_bytes(packed::<i64>(items).len()) + packed::<i64>(items) + rest,
        ) == Ok::<(Seq<i64>, nat), Failure>(
            (pre + items, varint_len(packed::<i64>(items).len()) + packed::<i64>(items).len()),
        ),
        forall|i: int, before: Seq<i64>, tail: Seq<u8>|
            0 <= i < items.len() ==> #[trigger] <Vec<i64> as NativeType>::parsed(
                before,
                WireType::Varint,
                i64::payload(items[i]) + tail,
            ) == Ok::<(Seq<i64>, nat), Failure>((before.push(items[i]), i64::payload(items[i]).len())),
{
    assert forall|i: int| 0 <= i < items.len() implies reads_back::<i64>(#[trigger] items[i]) by {
        lemma_i64_reads_back(items[i]);
    }
    lemma_packed_unpacked::<i64>(pre, items, rest);
}

} // verus!
