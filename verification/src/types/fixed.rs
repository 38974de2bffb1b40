//! Field values of a fixed width: the bits of 32-bit and 64-bit numbers,
//! floating-point numbers among them, least significant byte first.

use crate::buf::{
    bytes_advance, bytes_chunk, bytes_len, bytes_mut_put_u8, bytes_mut_seq, bytes_seq,
};
use crate::encoding::{DecodeError, Failure, WireType};
use crate::types::{
    cut_taken, delimited, lemma_delimited_round_trip, plain_bytes, plain_len, take_delimited,
    DefaultValue, NativeType,
};
use crate::wire_format::{key_bytes, lemma_varint_len, varint_bytes, varint_len, MAX_TAG, MIN_TAG};
use ntex_bytes::{Bytes, BytesMut};
use vstd::prelude::*;

verus! {

/// The text of the complaint about a fixed-width value that is cut short.
pub open spec fn underflow_text() -> Seq<char> {
    "Buffer underflow"@
}

/// The bytes of a number of `width` bytes, least significant first.
pub open spec fn le_bytes(v: nat, width: nat) -> Seq<u8>
    decreases width,
{
    if width == 0 {
        Seq::empty()
    } else {
        seq![(v % 256) as u8] + le_bytes(v / 256, (width - 1) as nat)
    }
}

/// The number whose first `width` bytes, least significant first, open `s`.
pub open spec fn le_value(s: Seq<u8>, width: nat) -> nat
    decreases width,
{
    if width == 0 || s.len() == 0 {
        0
    } else {
        s[0] as nat + 256 * le_value(s.skip(1), (width - 1) as nat)
    }
}

/// The bytes of a number read back are the number, whatever follows them.
pub proof fn lemma_le_round_trip(v: nat, width: nat, rest: Seq<u8>)
    ensures
        le_bytes(v, width).len() == width,
        le_value(le_bytes(v, width) + rest, width) == v % pow256(width),
    decreases width,
{
    if width > 0 {
        lemma_le_round_trip(v / 256, (width - 1) as nat, rest);
        let s = le_bytes(v, width) + rest;
        assert(s.skip(1) =~= le_bytes(v / 256, (width - 1) as nat) + rest);
        assert(s[0] == (v % 256) as u8);
        let p = pow256((width - 1) as nat);
        lemma_pow256_positive((width - 1) as nat);
        vstd::arithmetic::div_mod::lemma_breakdown(v as int, 256, p as int);
    }
}

/// 256 to the power `k`.
pub open spec fn pow256(k: nat) -> nat
    decreases k,
{
    if k == 0 {
        1
    } else {
        256 * pow256((k - 1) as nat)
    }
}

proof fn lemma_pow256_positive(k: nat)
    ensures
        pow256(k) > 0,
    decreases k,
{
    if k > 0 {
        lemma_pow256_positive((k - 1) as nat);
    }
}

proof fn lemma_pow256_values()
    ensures
        pow256(4) == 0x1_0000_0000,
        pow256(8) == 0x1_0000_0000_0000_0000,
{
    reveal_with_fuel(pow256, 9);
}

/// The 32 bits of a number of fixed width, such as a single-precision
/// floating-point number.
#[derive(Clone, Copy, Debug, PartialEq, Eq, Hash, Structural)]
pub struct Fixed32(pub u32);

impl Default for Fixed32 {
    fn default() -> (r: Fixed32)
        ensures
            r.0 == 0,
    {
        Fixed32(0)
    }
}

impl Fixed32 {
    /// The value with the given bits.
    pub fn from_bits(bits: u32) -> (r: Fixed32)
        ensures
            r.0 == bits,
    {
        Fixed32(bits)
    }

    /// The bits of the value.
    pub fn to_bits(self) -> (bits: u32)
        ensures
            bits == self.0,
    {
        self.0
    }
}

/// A 32-bit value of fixed width: four bytes, least significant first, behind
/// their length. Positive and negative zero are the default.
impl NativeType for Fixed32 {
    type Model = u32;

    const TYPE: WireType = WireType::ThirtyTwoBit;

    open spec fn model(&self) -> u32 {
        self.0
    }

    open spec fn zero() -> u32 {
        0
    }

    open spec fn model_is_default(m: u32) -> bool {
        m == 0 || m == 0x8000_0000
    }

    open spec fn payload(m: u32) -> Seq<u8> {
        le_bytes(m as nat, 4)
    }

    open spec fn merged(pre: u32, s: Seq<u8>) -> Result<(u32, nat), Failure> {
        if s.len() < 4 {
            Err(Failure::plain(underflow_text()))
        } else {
            Ok((le_value(s, 4) as u32, 4))
        }
    }

    open spec fn emitted(m: u32, tag: u32, suppress: bool) -> Seq<u8> {
        plain_bytes(WireType::ThirtyTwoBit, Self::payload(m), tag, suppress)
    }

    open spec fn parsed(pre: u32, wire_type: WireType, s: Seq<u8>) -> Result<
        (u32, nat),
        Failure,
    > {
        match delimited(WireType::ThirtyTwoBit, wire_type, s) {
            Ok((body, n)) => match Self::merged(pre, body) {
                Ok((m, _)) => Ok((m, n)),
                Err(f) => Err(f),
            },
            Err(f) => Err(f),
        }
    }

    open spec fn merge_taken(s: Seq<u8>) -> nat {
        0
    }

    open spec fn refused(pre: u32, wire_type: WireType, s: Seq<u8>) -> (u32, nat) {
        (pre, cut_taken(WireType::ThirtyTwoBit, wire_type, s))
    }

    proof fn default_is_zero(v: Self) {
        assert(call_ensures(<Fixed32 as Default>::default, (), v));
    }

    open spec fn reads(wire_type: WireType) -> bool {
        wire_type == WireType::ThirtyTwoBit
    }

    proof fn wrong_wire_type_is_refused(pre: Self::Model, wire_type: WireType, s: Seq<u8>) {
    }

    proof fn default_is_left_out(m: Self::Model, tag: u32) {
    }

    proof fn varint_merge_advances(pre: Self::Model, s: Seq<u8>) {
    }

    fn value_len(&self) -> (n: usize) {
        proof {
            lemma_le_round_trip(self.0 as nat, 4, Seq::empty());
        }
        4
    }

    fn merge(&mut self, src: &mut Bytes) -> (r: Result<(), DecodeError>) {
        let ghost taken = Self::merge_taken(bytes_seq(src));
        let ghost s = bytes_seq(src);
        if bytes_len(src) < 4 {
            assert(s.skip(0) =~= s);
            return Err(DecodeError::new("Buffer underflow"));
        }
        let bytes = bytes_chunk(src);
        let mut value: u32 = 0;
        let mut i: usize = 4;
        proof {
            lemma_pow256_values();
            assert(le_value(s.skip(4), 0) == 0);
        }
        while i > 0
            invariant
                bytes@ == s,
                s.len() >= 4,
                i <= 4,
                value == le_value(s.skip(i as int), (4 - i) as nat),
                value < pow256((4 - i) as nat),
            decreases i,
        {
            i -= 1;
            proof {
                assert(s.skip(i as int).skip(1) =~= s.skip(i + 1));
                assert(s.skip(i as int)[0] == s[i as int]);
                lemma_pow256_bound((4 - i - 1) as nat, (4 - 1) as nat);
            }
            value = value * 256 + bytes[i] as u32;
        }
        assert(s.skip(0) =~= s);
        bytes_advance(src, 4);
        *self = Fixed32(value);
        Ok(())
    }

    fn is_default(&self) -> (r: bool) {
        self.0 == 0 || self.0 == 0x8000_0000
    }

    fn is_same(&self, other: &Self) -> (r: bool) {
        self.0 == other.0
    }

    fn encode_value(&self, dst: &mut BytesMut) {
        let ghost start = bytes_mut_seq(dst);
        let mut rest: u32 = self.0;
        let mut i: usize = 0;
        proof {
            lemma_le_round_trip(self.0 as nat, 4, Seq::empty());
            assert(start + le_bytes(rest as nat, 4) =~= start + Self::payload(self.0));
        }
        while i < 4
            invariant
                i <= 4,
                bytes_mut_seq(dst).len() + (4 - i) <= crate::buf::BUF_LIMIT,
                bytes_mut_seq(dst) + le_bytes(rest as nat, (4 - i) as nat) == start
                    + Self::payload(self.0),
            decreases 4 - i,
        {
            let ghost before = bytes_mut_seq(dst);
            let low = (rest % 256) as u8;
            proof {
                let higher = le_bytes((rest / 256) as nat, (4 - i - 1) as nat);
                assert(before.push(low) + higher =~= before + le_bytes(
                    rest as nat,
                    (4 - i) as nat,
                ));
            }
            bytes_mut_put_u8(dst, low);
            rest = rest / 256;
            i += 1;
        }
        assert(bytes_mut_seq(dst) + le_bytes(rest as nat, 0) =~= bytes_mut_seq(dst));
    }

    fn encoded_len(&self, tag: u32) -> (n: usize) {
        proof {
            lemma_varint_len(Self::payload(self.model()).len());
        }
        plain_len(WireType::ThirtyTwoBit, self.value_len(), tag)
    }

    fn serialize(&self, tag: u32, default: DefaultValue<&Self>, dst: &mut BytesMut) {
        let suppress = match default {
            DefaultValue::Unknown => false,
            DefaultValue::Default => self.is_default(),
            DefaultValue::Value(d) => self.is_same(d),
        };
        if !suppress {
            proof {
                lemma_varint_len(Self::payload(self.model()).len());
                lemma_le_round_trip(self.0 as nat, 4, Seq::empty());
            }
            self.encode_type(tag, dst);
            self.encode_value(dst);
            assert(bytes_mut_seq(dst) =~= bytes_mut_seq(old(dst)) + Self::emitted(
                self.model(),
                tag,
                false,
            ));
        } else {
            assert(bytes_mut_seq(dst) =~= bytes_mut_seq(old(dst)) + Seq::<u8>::empty());
        }
    }

    fn serialized_len(&self, tag: u32, default: DefaultValue<&Self>) -> (n: usize) {
        let suppress = match default {
            DefaultValue::Unknown => false,
            DefaultValue::Default => self.is_default(),
            DefaultValue::Value(d) => self.is_same(d),
        };
        if suppress {
            0
        } else {
            self.encoded_len(tag)
        }
    }

    fn deserialize(&mut self, tag: u32, wtype: WireType, src: &mut Bytes) -> (r: Result<
        (),
        DecodeError,
    >) {
        let ghost left = Self::refused(self.model(), wtype, bytes_seq(src));
        let ghost outcome = Self::parsed(self.model(), wtype, bytes_seq(src));
        match take_delimited(WireType::ThirtyTwoBit, wtype, src) {
            Ok(mut buf) => {
                assert(outcome is Ok <==> Self::merged(self.model(), bytes_seq(&buf)) is Ok);
                self.merge(&mut buf)
            },
            Err(e) => {
                assert(outcome is Err);
                Err(e)
            },
        }
    }
}

/// **Round trip of one field.** The bits that were written as field `tag`
/// are read back from the bytes behind its key, whatever follows, and the
/// reader stops right behind them.
pub proof fn lemma_fixed32_field(value: u32, pre: u32, tag: u32, rest: Seq<u8>)
    requires
        MIN_TAG <= tag <= MAX_TAG,
    ensures
        ({
            let body = Fixed32::payload(value);
            let field = varint_bytes(body.len()) + body;
            let wire_type = WireType::ThirtyTwoBit;
            &&& Fixed32::emitted(value, tag, false) == key_bytes(tag, wire_type) + field
            &&& Fixed32::parsed(pre, wire_type, field + rest) == Ok::<(u32, nat), Failure>(
                (value, varint_len(body.len()) + body.len()),
            )
        }),
{
    let body = Fixed32::payload(value);
    lemma_le_round_trip(value as nat, 4, Seq::empty());
    lemma_pow256_values();
    assert(body + Seq::<u8>::empty() =~= body);
    lemma_delimited_round_trip(WireType::ThirtyTwoBit, body, rest);
    assert(key_bytes(tag, WireType::ThirtyTwoBit) + varint_bytes(body.len()) + body =~= key_bytes(
        tag,
        WireType::ThirtyTwoBit,
    ) + (varint_bytes(body.len()) + body));
}

/// The 64 bits of a number of fixed width, such as a double-precision
/// floating-point number.
#[derive(Clone, Copy, Debug, PartialEq, Eq, Hash, Structural)]
pub struct Fixed64(pub u64);

impl Default for Fixed64 {
    fn default() -> (r: Fixed64)
        ensures
            r.0 == 0,
    {
        Fixed64(0)
    }
}

impl Fixed64 {
    /// The value with the given bits.
    pub fn from_bits(bits: u64) -> (r: Fixed64)
        ensures
            r.0 == bits,
    {
        Fixed64(bits)
    }

    /// The bits of the value.
    pub fn to_bits(self) -> (bits: u64)
        ensures
            bits == self.0,
    {
        self.0
    }
}

/// A 64-bit value of fixed width: eight bytes, least significant first,
/// behind their length. Positive and negative zero are the default.
impl NativeType for Fixed64 {
    type Model = u64;

    const TYPE: WireType = WireType::SixtyFourBit;

    open spec fn model(&self) -> u64 {
        self.0
    }

    open spec fn zero() -> u64 {
        0
    }

    open spec fn model_is_default(m: u64) -> bool {
        m == 0 || m == 0x8000_0000_0000_0000
    }

    open spec fn payload(m: u64) -> Seq<u8> {
        le_bytes(m as nat, 8)
    }

    open spec fn merged(pre: u64, s: Seq<u8>) -> Result<(u64, nat), Failure> {
        if s.len() < 8 {
            Err(Failure::plain(underflow_text()))
        } else {
            Ok((le_value(s, 8) as u64, 8))
        }
    }

    open spec fn emitted(m: u64, tag: u32, suppress: bool) -> Seq<u8> {
        plain_bytes(WireType::SixtyFourBit, Self::payload(m), tag, suppress)
    }

    open spec fn parsed(pre: u64, wire_type: WireType, s: Seq<u8>) -> Result<
        (u64, nat),
        Failure,
    > {
        match delimited(WireType::SixtyFourBit, wire_type, s) {
            Ok((body, n)) => match Self::merged(pre, body) {
                Ok((m, _)) => Ok((m, n)),
                Err(f) => Err(f),
            },
            Err(f) => Err(f),
        }
    }

    open spec fn merge_taken(s: Seq<u8>) -> nat {
        0
    }

    open spec fn refused(pre: u64, wire_type: WireType, s: Seq<u8>) -> (u64, nat) {
        (pre, cut_taken(WireType::SixtyFourBit, wire_type, s))
    }

    proof fn default_is_zero(v: Self) {
        assert(call_ensures(<Fixed64 as Default>::default, (), v));
    }

    open spec fn reads(wire_type: WireType) -> bool {
        wire_type == WireType::SixtyFourBit
    }

    proof fn wrong_wire_type_is_refused(pre: Self::Model, wire_type: WireType, s: Seq<u8>) {
    }

    proof fn default_is_left_out(m: Self::Model, tag: u32) {
    }

    proof fn varint_merge_advances(pre: Self::Model, s: Seq<u8>) {
    }

    fn value_len(&self) -> (n: usize) {
        proof {
            lemma_le_round_trip(self.0 as nat, 8, Seq::empty());
        }
        8
    }

    fn merge(&mut self, src: &mut Bytes) -> (r: Result<(), DecodeError>) {
        let ghost taken = Self::merge_taken(bytes_seq(src));
        let ghost s = bytes_seq(src);
        if bytes_len(src) < 8 {
            assert(s.skip(0) =~= s);
            return Err(DecodeError::new("Buffer underflow"));
        }
        let bytes = bytes_chunk(src);
        let mut value: u64 = 0;
        let mut i: usize = 8;
        proof {
            lemma_pow256_values();
            assert(le_value(s.skip(8), 0) == 0);
        }
        while i > 0
            invariant
                bytes@ == s,
                s.len() >= 8,
                i <= 8,
                value == le_value(s.skip(i as int), (8 - i) as nat),
                value < pow256((8 - i) as nat),
            decreases i,
        {
            i -= 1;
            proof {
                assert(s.skip(i as int).skip(1) =~= s.skip(i + 1));
                assert(s.skip(i as int)[0] == s[i as int]);
                lemma_pow256_bound((8 - i - 1) as nat, (8 - 1) as nat);
            }
            value = value * 256 + bytes[i] as u64;
        }
        assert(s.skip(0) =~= s);
        bytes_advance(src, 8);
        *self = Fixed64(value);
        Ok(())
    }

    fn is_default(&self) -> (r: bool) {
        self.0 == 0 || self.0 == 0x8000_0000_0000_0000
    }

    fn is_same(&self, other: &Self) -> (r: bool) {
        self.0 == other.0
    }

    fn encode_value(&self, dst: &mut BytesMut) {
        let ghost start = bytes_mut_seq(dst);
        let mut rest: u64 = self.0;
        let mut i: usize = 0;
        proof {
            lemma_le_round_trip(self.0 as nat, 8, Seq::empty());
            assert(start + le_bytes(rest as nat, 8) =~= start + Self::payload(self.0));
        }
        while i < 8
            invariant
                i <= 8,
                bytes_mut_seq(dst).len() + (8 - i) <= crate::buf::BUF_LIMIT,
                bytes_mut_seq(dst) + le_bytes(rest as nat, (8 - i) as nat) == start
                    + Self::payload(self.0),
            decreases 8 - i,
        {
            let ghost before = bytes_mut_seq(dst);
            let low = (rest % 256) as u8;
            proof {
                let higher = le_bytes((rest / 256) as nat, (8 - i - 1) as nat);
                assert(before.push(low) + higher =~= before + le_bytes(
                    rest as nat,
                    (8 - i) as nat,
                ));
            }
            bytes_mut_put_u8(dst, low);
            rest = rest / 256;
            i += 1;
        }
        assert(bytes_mut_seq(dst) + le_bytes(rest as nat, 0) =~= bytes_mut_seq(dst));
    }

    fn encoded_len(&self, tag: u32) -> (n: usize) {
        proof {
            lemma_varint_len(Self::payload(self.model()).len());
        }
        plain_len(WireType::SixtyFourBit, self.value_len(), tag)
    }

    fn serialize(&self, tag: u32, default: DefaultValue<&Self>, dst: &mut BytesMut) {
        let suppress = match default {
            DefaultValue::Unknown => false,
            DefaultValue::Default => self.is_default(),
            DefaultValue::Value(d) => self.is_same(d),
        };
        if !suppress {
            proof {
                lemma_varint_len(Self::payload(self.model()).len());
                lemma_le_round_trip(self.0 as nat, 8, Seq::empty());
            }
            self.encode_type(tag, dst);
            self.encode_value(dst);
            assert(bytes_mut_seq(dst) =~= bytes_mut_seq(old(dst)) + Self::emitted(
                self.model(),
                tag,
                false,
            ));
        } else {
            assert(bytes_mut_seq(dst) =~= bytes_mut_seq(old(dst)) + Seq::<u8>::empty());
        }
    }

    fn serialized_len(&self, tag: u32, default: DefaultValue<&Self>) -> (n: usize) {
        let suppress = match default {
            DefaultValue::Unknown => false,
            DefaultValue::Default => self.is_default(),
            DefaultValue::Value(d) => self.is_same(d),
        };
        if suppress {
            0
        } else {
            self.encoded_len(tag)
        }
    }

    fn deserialize(&mut self, tag: u32, wtype: WireType, src: &mut Bytes) -> (r: Result<
        (),
        DecodeError,
    >) {
        let ghost left = Self::refused(self.model(), wtype, bytes_seq(src));
        let ghost outcome = Self::parsed(self.model(), wtype, bytes_seq(src));
        match take_delimited(WireType::SixtyFourBit, wtype, src) {
            Ok(mut buf) => {
                assert(outcome is Ok <==> Self::merged(self.model(), bytes_seq(&buf)) is Ok);
                self.merge(&mut buf)
            },
            Err(e) => {
                assert(outcome is Err);
                Err(e)
            },
        }
    }
}

/// **Round trip of one field.** The bits that were written as field `tag`
/// are read back from the bytes behind its key, whatever follows, and the
/// reader stops right behind them.
pub proof fn lemma_fixed64_field(value: u64, pre: u64, tag: u32, rest: Seq<u8>)
    requires
        MIN_TAG <= tag <= MAX_TAG,
    ensures
        ({
            let body = Fixed64::payload(value);
            let field = varint_bytes(body.len()) + body;
            let wire_type = WireType::SixtyFourBit;
            &&& Fixed64::emitted(value, tag, false) == key_bytes(tag, wire_type) + field
            &&& Fixed64::parsed(pre, wire_type, field + rest) == Ok::<(u64, nat), Failure>(
                (value, varint_len(body.len()) + body.len()),
            )
        }),
{
    let body = Fixed64::payload(value);
    lemma_le_round_trip(value as nat, 8, Seq::empty());
    lemma_pow256_values();
    assert(body + Seq::<u8>::empty() =~= body);
    lemma_delimited_round_trip(WireType::SixtyFourBit, body, rest);
    assert(key_bytes(tag, WireType::SixtyFourBit) + varint_bytes(body.len()) + body =~= key_bytes(
        tag,
        WireType::SixtyFourBit,
    ) + (varint_bytes(body.len()) + body));
}

/// The powers of 256 grow.
proof fn lemma_pow256_bound(k: nat, top: nat)
    requires
        k <= top,
    ensures
        pow256(k) <= pow256(top),
        pow256(k + 1) == 256 * pow256(k),
        top == 3 ==> pow256(top) == 0x100_0000,
        top == 7 ==> pow256(top) == 0x100_0000_0000_0000,
    decreases top - k,
{
    reveal_with_fuel(pow256, 9);
    if k < top {
        lemma_pow256_bound(k + 1, top);
    }
}

/// The wire types of the two fixed-width types.
pub proof fn lemma_fixed_types()
    ensures
        <Fixed32 as NativeType>::TYPE == WireType::ThirtyTwoBit,
        <Fixed64 as NativeType>::TYPE == WireType::SixtyFourBit,
{
}

} // verus!
