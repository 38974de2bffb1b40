//! Reading and writing the pieces of the Protocol Buffers wire format on
//! byte buffers: varints, field keys, and fields that are passed over.

use crate::buf::{
    bytes_advance, bytes_chunk, bytes_len, bytes_mut_put_u8, bytes_mut_seq, bytes_seq,
    bytes_split_to_checked, BUF_LIMIT,
};
use crate::text::{decimal, push_decimal};
use crate::wire_format::{
    group_parse, key_bytes, key_parse, key_value, lemma_group_parse_bound,
    lemma_skip_parse_bound, lemma_varint_len, lemma_varint_len_bound, lemma_varint_prefix,
    lemma_varint_tail_bounds, low7_sum, pow128, skip_parse, varint_bytes, varint_consumed,
    varint_len, varint_parse, varint_runs_out, varint_tail, MAX_TAG, MIN_TAG,
};
use ntex_bytes::{Bytes, BytesMut};
use vstd::prelude::*;
use vstd::std_specs::bits::u64_leading_zeros;

verus! {

/// How the bytes of a field are laid out; the low three bits of a field key.
#[derive(Clone, Copy, Debug, PartialEq, Eq, Hash, Structural)]
pub enum WireType {
    Varint,
    SixtyFourBit,
    LengthDelimited,
    StartGroup,
    EndGroup,
    ThirtyTwoBit,
}

impl WireType {
    /// The number that stands for the wire type in a field key.
    pub open spec fn spec_code(self) -> u8 {
        match self {
            WireType::Varint => 0,
            WireType::SixtyFourBit => 1,
            WireType::LengthDelimited => 2,
            WireType::StartGroup => 3,
            WireType::EndGroup => 4,
            WireType::ThirtyTwoBit => 5,
        }
    }

    /// The wire type that `code` stands for, if any.
    pub open spec fn spec_from_code(code: nat) -> Option<WireType> {
        if code == 0 {
            Some(WireType::Varint)
        } else if code == 1 {
            Some(WireType::SixtyFourBit)
        } else if code == 2 {
            Some(WireType::LengthDelimited)
        } else if code == 3 {
            Some(WireType::StartGroup)
        } else if code == 4 {
            Some(WireType::EndGroup)
        } else if code == 5 {
            Some(WireType::ThirtyTwoBit)
        } else {
            None
        }
    }

    /// The variant's name.
    pub open spec fn spec_name(self) -> Seq<char> {
        match self {
            WireType::Varint => "Varint"@,
            WireType::SixtyFourBit => "SixtyFourBit"@,
            WireType::LengthDelimited => "LengthDelimited"@,
            WireType::StartGroup => "StartGroup"@,
            WireType::EndGroup => "EndGroup"@,
            WireType::ThirtyTwoBit => "ThirtyTwoBit"@,
        }
    }

    #[verifier::when_used_as_spec(spec_code)]
    pub fn code(self) -> (c: u8)
        ensures
            c == self.spec_code(),
    {
        match self {
            WireType::Varint => 0,
            WireType::SixtyFourBit => 1,
            WireType::LengthDelimited => 2,
            WireType::StartGroup => 3,
            WireType::EndGroup => 4,
            WireType::ThirtyTwoBit => 5,
        }
    }

    pub fn name(self) -> (s: &'static str)
        ensures
            s@ == self.spec_name(),
    {
        match self {
            WireType::Varint => "Varint",
            WireType::SixtyFourBit => "SixtyFourBit",
            WireType::LengthDelimited => "LengthDelimited",
            WireType::StartGroup => "StartGroup",
            WireType::EndGroup => "EndGroup",
            WireType::ThirtyTwoBit => "ThirtyTwoBit",
        }
    }

    /// The wire type for a number from 0 to 5; any other number is refused
    /// with a message that names it.
    pub fn try_from(value: u64) -> (r: Result<WireType, DecodeError>)
        ensures
            match WireType::spec_from_code(value as nat) {
                Some(w) => r == Ok::<WireType, DecodeError>(w),
                None => r.is_err() && r.unwrap_err().is_plain(
                    "invalid wire type value: "@ + decimal(value as nat),
                ),
            },
    {
        if value == 0 {
            Ok(WireType::Varint)
        } else if value == 1 {
            Ok(WireType::SixtyFourBit)
        } else if value == 2 {
            Ok(WireType::LengthDelimited)
        } else if value == 3 {
            Ok(WireType::StartGroup)
        } else if value == 4 {
            Ok(WireType::EndGroup)
        } else if value == 5 {
            Ok(WireType::ThirtyTwoBit)
        } else {
            let mut text = String::from_str("invalid wire type value: ");
            push_decimal(&mut text, value as u128);
            Err(DecodeError::new(text.as_str()))
        }
    }
}

/// What a decoding failure says: a description of the cause, and the
/// (message, field) pairs that the failure passed on its way out, innermost
/// first.
pub struct Failure {
    pub description: Seq<char>,
    pub stack: Seq<(Seq<char>, Seq<char>)>,
}

impl Failure {
    /// A failure with the description `text` that has passed no field yet.
    pub open spec fn plain(text: Seq<char>) -> Failure {
        Failure { description: text, stack: Seq::empty() }
    }

    /// The failure as seen from `field` of `message`, one level further out.
    pub open spec fn within(self, message: Seq<char>, field: Seq<char>) -> Failure {
        Failure { description: self.description, stack: self.stack.push((message, field)) }
    }
}

/// Why a buffer could not be decoded.
#[derive(Clone, Debug, PartialEq, Eq)]
pub struct DecodeError {
    description: String,
    stack: Vec<(&'static str, &'static str)>,
}

/// The text that a stack of (message, field) pairs adds to an error message:
/// for each pair, in order, the message name, a dot, the field name, a colon
/// and a space.
pub open spec fn stack_text(stack: Seq<(Seq<char>, Seq<char>)>) -> Seq<char>
    decreases stack.len(),
{
    if stack.len() == 0 {
        Seq::empty()
    } else {
        stack_text(stack.drop_last()) + stack.last().0 + "."@ + stack.last().1 + ": "@
    }
}

impl View for DecodeError {
    type V = Failure;

    closed spec fn view(&self) -> Failure {
        Failure {
            description: self.description@,
            stack: self.stack@.map_values(|p: (&'static str, &'static str)| (p.0@, p.1@)),
        }
    }
}

impl DecodeError {
    /// The description of the cause.
    pub open spec fn description(&self) -> Seq<char> {
        self@.description
    }

    /// The (message, field) pairs recorded so far, innermost first.
    pub open spec fn stack(&self) -> Seq<(Seq<char>, Seq<char>)> {
        self@.stack
    }

    /// An error with the description `text` that has passed no field yet.
    pub open spec fn is_plain(&self, text: Seq<char>) -> bool {
        self@ == Failure::plain(text)
    }

    /// The full message.
    pub open spec fn spec_to_string(&self) -> Seq<char> {
        "failed to decode Protobuf message: "@ + stack_text(self.stack()) + self.description()
    }

    /// A new error with the given description of the cause.
    pub fn new(description: &str) -> (e: DecodeError)
        ensures
            e.is_plain(description@),
    {
        let e = DecodeError { description: String::from_str(description), stack: Vec::new() };
        assert(e@.stack =~= Seq::empty());
        e
    }

    /// Records that the failure occurred in `field` of `message`.
    pub fn push(self, message: &'static str, field: &'static str) -> (e: DecodeError)
        ensures
            e@ == self@.within(message@, field@),
    {
        let mut e = self;
        e.stack.push((message, field));
        assert(e@.stack =~= self@.stack.push((message@, field@)));
        e
    }

    /// The error for input that ends too early.
    pub fn incomplete() -> (e: DecodeError)
        ensures
            e.is_plain("Not enough data"@),
    {
        DecodeError::new("Not enough data")
    }

    /// The description as a string slice.
    pub fn describe(&self) -> (s: &str)
        ensures
            s@ == self.description(),
    {
        self.description.as_str()
    }

    /// The full message: a fixed opening, the recorded fields, and the
    /// description.
    pub fn to_string(&self) -> (s: String)
        ensures
            s@ == self.spec_to_string(),
    {
        let mut s = String::from_str("failed to decode Protobuf message: ");
        let mut i: usize = 0;
        while i < self.stack.len()
            invariant
                i <= self.stack.len(),
                s@ == "failed to decode Protobuf message: "@ + stack_text(
                    self.stack().take(i as int),
                ),
            decreases self.stack.len() - i,
        {
            let (message, field) = self.stack[i];
            proof {
                let t = self.stack().take(i + 1);
                assert(t.drop_last() =~= self.stack().take(i as int));
                assert(t.last() == (message@, field@));
            }
            s.append(message);
            s.append(".");
            s.append(field);
            s.append(": ");
            i += 1;
        }
        assert(self.stack().take(i as int) =~= self.stack());
        s.append(self.description.as_str());
        s
    }
}

/// The position of the highest set bit decides how many groups of seven
/// bits a value takes.
proof fn lemma_len_by_leading_zeros(v: u64)
    requires
        v >= 1,
    ensures
        0 <= u64_leading_zeros(v) <= 63,
        varint_len(v as nat) == (63 - u64_leading_zeros(v)) / 7 + 1,
    decreases v,
{
    reveal_with_fuel(u64_leading_zeros, 9);
    if v >= 128 {
        let w = (v / 128) as u64;
        lemma_len_by_leading_zeros(w);
        assert(v / 2 / 2 / 2 / 2 / 2 / 2 / 2 == w);
        assert(u64_leading_zeros(v) == u64_leading_zeros(w) - 7);
    } else {
        assert(v / 2 / 2 / 2 / 2 / 2 / 2 / 2 == 0);
    }
}

/// The number of bytes that the varint encoding of `value` takes: between
/// one and ten.
pub fn encoded_len_varint(value: u64) -> (n: usize)
    ensures
        n == varint_len(value as nat),
        n == varint_bytes(value as nat).len(),
        1 <= n <= 10,
{
    let odd = value | 1;
    let zeros = odd.leading_zeros();
    proof {
        lemma_varint_len(value as nat);
        assert(odd >= 1 && odd / 128 == value / 128 && (odd < 128 <==> value < 128))
            by (bit_vector)
            requires
                odd == value | 1,
        ;
        lemma_len_by_leading_zeros(odd);
        assert(zeros <= 63 ==> zeros ^ 63 == 63 - zeros) by (bit_vector);
    }
    let top = zeros ^ 63;
    ((top * 9 + 73) / 64) as usize
}

/// Appends the varint encoding of `value` to the buffer.
pub fn encode_varint(value: u64, buf: &mut BytesMut)
    requires
        bytes_mut_seq(old(buf)).len() + varint_len(value as nat) <= BUF_LIMIT,
    ensures
        bytes_mut_seq(final(buf)) == bytes_mut_seq(old(buf)) + varint_bytes(value as nat),
{
    let mut value = value;
    let ghost start = bytes_mut_seq(buf);
    let ghost whole = varint_bytes(value as nat);
    while value >= 0x80
        invariant
            bytes_mut_seq(buf) + varint_bytes(value as nat) == start + whole,
            bytes_mut_seq(buf).len() + varint_len(value as nat) <= BUF_LIMIT,
        decreases value,
    {
        let ghost before = bytes_mut_seq(buf);
        let low = ((value & 0x7F) | 0x80) as u8;
        proof {
            assert(((value & 0x7F) | 0x80) == value % 128 + 128 && value >> 7 == value / 128)
                by (bit_vector);
            assert(before.push(low) + varint_bytes((value / 128) as nat) =~= before + varint_bytes(
                value as nat,
            ));
        }
        bytes_mut_put_u8(buf, low);
        value >>= 7;
    }
    let ghost before = bytes_mut_seq(buf);
    assert(before.push(value as u8) =~= before + varint_bytes(value as nat));
    bytes_mut_put_u8(buf, value as u8);
}

/// Reads one varint from the front of the buffer and moves the buffer past
/// it.
///
/// On malformed input the error is "invalid varint". The buffer is then left
/// as it was where the failure shows within the first ten bytes without
/// running out of input; where the input gives out first, it is left empty.
pub fn decode_varint(buf: &mut Bytes) -> (r: Result<u64, DecodeError>)
    ensures
        match varint_parse(bytes_seq(old(buf))) {
            Some((v, n)) => r == Ok::<u64, DecodeError>(v) && n <= bytes_seq(old(buf)).len()
                && bytes_seq(final(buf)) == bytes_seq(old(buf)).skip(n as int),
            None => r.is_err() && r.unwrap_err().is_plain("invalid varint"@),
        },
        bytes_seq(final(buf)) == bytes_seq(old(buf)).skip(
            varint_consumed(bytes_seq(old(buf))) as int,
        ),
{
    let bytes = bytes_chunk(buf);
    let len = bytes.len();
    if len == 0 {
        return Err(DecodeError::new("invalid varint"));
    }
    let byte = bytes[0];
    if byte < 0x80 {
        bytes_advance(buf, 1);
        Ok(byte as u64)
    } else if len > 10 || bytes[len - 1] < 0x80 {
        match decode_varint_slice(bytes) {
            Ok((value, advance)) => {
                bytes_advance(buf, advance);
                Ok(value)
            },
            Err(e) => Err(e),
        }
    } else {
        decode_varint_slow(buf)
    }
}

/// Reads one varint from the front of a slice: its value and the number of
/// bytes it took.
///
/// The slice is not empty, and it is longer than ten bytes or ends in a
/// byte that closes a varint, so that no read runs past its end.
#[verifier::rlimit(60)]
fn decode_varint_slice(bytes: &[u8]) -> (r: Result<(u64, usize), DecodeError>)
    requires
        bytes@.len() > 0,
        bytes@.len() > 10 || bytes@[bytes@.len() - 1] < 0x80,
    ensures
        match varint_parse(bytes@) {
            Some((v, n)) => r == Ok::<(u64, usize), DecodeError>((v, n as usize)) && n
                <= bytes@.len(),
            None => r.is_err() && r.unwrap_err().is_plain("invalid varint"@) && !varint_runs_out(
                bytes@,
            ),
        },
{
    let ghost s = bytes@;
    proof {
        crate::wire_format::lemma_pow128_values();
    }
    let mut b: u8 = bytes[0];
    let mut part0: u32 = b as u32;
    if b < 0x80 {
        proof {
            lemma_low7_step(s, 0, 1);
            lemma_varint_closed(s, 0);
        }
        return Ok((part0 as u64, 1));
    }
    part0 -= 0x80;
    proof {
        lemma_low7_step(s, 0, 1);
    }
    assert(part0 == low7_sum(s, 1));
    assert(s.len() > 1);
    b = bytes[1];
    proof {
        lemma_byte_shifts(b);
    }
    part0 += (b as u32) << 7;
    if b < 0x80 {
        proof {
            lemma_low7_step(s, 1, 0x80);
            lemma_varint_closed(s, 1);
        }
        return Ok((part0 as u64, 2));
    }
    part0 -= 0x4000;
    proof {
        lemma_low7_step(s, 1, 0x80);
    }
    assert(part0 == low7_sum(s, 2));
    assert(s.len() > 2);
    b = bytes[2];
    proof {
        lemma_byte_shifts(b);
    }
    part0 += (b as u32) << 14;
    if b < 0x80 {
        proof {
            lemma_low7_step(s, 2, 0x4000);
            lemma_varint_closed(s, 2);
        }
        return Ok((part0 as u64, 3));
    }
    part0 -= 0x20_0000;
    proof {
        lemma_low7_step(s, 2, 0x4000);
    }
    assert(part0 == low7_sum(s, 3));
    assert(s.len() > 3);
    b = bytes[3];
    proof {
        lemma_byte_shifts(b);
    }
    part0 += (b as u32) << 21;
    if b < 0x80 {
        proof {
            lemma_low7_step(s, 3, 0x20_0000);
            lemma_varint_closed(s, 3);
        }
        return Ok((part0 as u64, 4));
    }
    part0 -= 0x1000_0000;
    let value = part0 as u64;
    proof {
        lemma_low7_step(s, 3, 0x20_0000);
    }
    assert(value == low7_sum(s, 4));
    assert(value < 0x1000_0000);

    assert(s.len() > 4);
    b = bytes[4];
    let mut part1: u32 = b as u32;
    if b < 0x80 {
        proof {
            lemma_part_shifts(part1);
            lemma_low7_step(s, 4, 0x1000_0000);
            lemma_varint_closed(s, 4);
        }
        return Ok((value + ((part1 as u64) << 28), 5));
    }
    part1 -= 0x80;
    proof {
        lemma_low7_step(s, 4, 0x1000_0000);
    }
    assert(value + part1 * 0x1000_0000 == low7_sum(s, 5));
    assert(s.len() > 5);
    b = bytes[5];
    proof {
        lemma_byte_shifts(b);
    }
    part1 += (b as u32) << 7;
    if b < 0x80 {
        proof {
            lemma_part_shifts(part1);
            lemma_low7_step(s, 5, 0x8_0000_0000);
            lemma_varint_closed(s, 5);
        }
        return Ok((value + ((part1 as u64) << 28), 6));
    }
    part1 -= 0x4000;
    proof {
        lemma_low7_step(s, 5, 0x8_0000_0000);
    }
    assert(value + part1 * 0x1000_0000 == low7_sum(s, 6));
    assert(s.len() > 6);
    b = bytes[6];
    proof {
        lemma_byte_shifts(b);
    }
    part1 += (b as u32) << 14;
    if b < 0x80 {
        proof {
            lemma_part_shifts(part1);
            lemma_low7_step(s, 6, 0x400_0000_0000);
            lemma_varint_closed(s, 6);
        }
        return Ok((value + ((part1 as u64) << 28), 7));
    }
    part1 -= 0x20_0000;
    proof {
        lemma_low7_step(s, 6, 0x400_0000_0000);
    }
    assert(value + part1 * 0x1000_0000 == low7_sum(s, 7));
    assert(s.len() > 7);
    b = bytes[7];
    proof {
        lemma_byte_shifts(b);
    }
    part1 += (b as u32) << 21;
    if b < 0x80 {
        proof {
            lemma_part_shifts(part1);
            lemma_low7_step(s, 7, 0x2_0000_0000_0000);
            lemma_varint_closed(s, 7);
        }
        return Ok((value + ((part1 as u64) << 28), 8));
    }
    part1 -= 0x1000_0000;
    proof {
        lemma_part_shifts(part1);
    }
    let value = value + ((part1 as u64) << 28);
    proof {
        lemma_low7_step(s, 7, 0x2_0000_0000_0000);
    }
    assert(value == low7_sum(s, 8));
    assert(value < 0x100_0000_0000_0000);

    assert(s.len() > 8);
    b = bytes[8];
    let mut part2: u32 = b as u32;
    if b < 0x80 {
        proof {
            lemma_part_shifts(part2);
            lemma_low7_step(s, 8, 0x100_0000_0000_0000);
            lemma_varint_closed(s, 8);
        }
        return Ok((value + ((part2 as u64) << 56), 9));
    }
    part2 -= 0x80;
    proof {
        lemma_low7_step(s, 8, 0x100_0000_0000_0000);
    }
    assert(value + part2 * 0x100_0000_0000_0000 == low7_sum(s, 9));
    assert(s.len() > 9);
    b = bytes[9];
    proof {
        lemma_byte_shifts(b);
    }
    part2 += (b as u32) << 7;
    // The tenth byte may carry one bit only: anything more does not fit in
    // 64 bits.
    if b < 0x02 {
        proof {
            lemma_part_shifts(part2);
            lemma_low7_step(s, 9, 0x8000_0000_0000_0000);
            lemma_varint_closed(s, 9);
        }
        return Ok((value + ((part2 as u64) << 56), 10));
    }
    // More than ten bytes, or a tenth byte that overflows: the data is
    // corrupt.

    proof {
        lemma_varint_prefix(s, 9);
        if b >= 0x80 {
            lemma_varint_prefix(s, 10);
        }
    }
    Err(DecodeError::new("invalid varint"))
}

/// What one more byte adds to the value carried so far.
proof fn lemma_low7_step(s: Seq<u8>, k: nat, weight: nat)
    requires
        pow128(k) == weight,
    ensures
        low7_sum(s, k + 1) == low7_sum(s, k) + (s[k as int] % 128) * weight,
{
}

/// A varint whose bytes before number `k` all announce a successor, and
/// whose byte number `k` closes it, has the value that those bytes carry.
proof fn lemma_varint_closed(s: Seq<u8>, k: nat)
    requires
        k < 10,
        k < s.len(),
        forall|i: int| 0 <= i < k ==> s[i] >= 128,
        s[k as int] < 128,
        k == 9 ==> s[k as int] < 2,
    ensures
        varint_tail(s, 0) == Some((low7_sum(s, k + 1), k + 1)),
        low7_sum(s, k + 1) <= u64::MAX,
{
    lemma_varint_prefix(s, k);
    lemma_varint_tail_bounds(s, 0);
    assert(pow128(k) * (s[k as int] as nat) == (s[k as int] % 128) as nat * pow128(k))
        by (nonlinear_arith)
        requires
            s[k as int] < 128,
    ;
}

/// Reads one varint byte by byte, taking each byte from the buffer as it
/// goes. On malformed input the bytes that were looked at are gone.
fn decode_varint_slow(buf: &mut Bytes) -> (r: Result<u64, DecodeError>)
    ensures
        match varint_parse(bytes_seq(old(buf))) {
            Some((v, n)) => r == Ok::<u64, DecodeError>(v) && n <= bytes_seq(old(buf)).len()
                && bytes_seq(final(buf)) == bytes_seq(old(buf)).skip(n as int),
            None => r.is_err() && r.unwrap_err().is_plain("invalid varint"@) && (0 < bytes_seq(
                old(buf),
            ).len() <= 10 && bytes_seq(old(buf)).last() >= 128 ==> varint_runs_out(
                bytes_seq(old(buf)),
            ) && bytes_seq(final(buf)) == Seq::<u8>::empty()),
        },
{
    let ghost s = bytes_seq(buf);
    let mut value: u64 = 0;
    let remaining = bytes_len(buf);
    let limit: usize = if remaining < 10 {
        remaining
    } else {
        10
    };
    let mut count: usize = 0;
    proof {
        crate::wire_format::lemma_pow128_values();
    }
    while count < limit
        invariant
            s == bytes_seq(old(buf)),
            limit <= 10,
            limit <= s.len(),
            limit == 10 || limit == s.len(),
            count <= limit,
            count <= 9,
            bytes_seq(buf) == s.skip(count as int),
            forall|i: int| 0 <= i < count ==> s[i] >= 128,
            value == low7_sum(s, count as nat),
            value < pow128(count as nat),
        decreases limit - count,
    {
        let byte = bytes_chunk(buf)[0];
        bytes_advance(buf, 1);
        assert(byte == s[count as int]);
        assert(s.skip(count as int).skip(1) =~= s.skip(count + 1));
        let shift: usize = count * 7;
        if byte <= 0x7F {
            if count == 9 && byte >= 0x02 {
                proof {
                    lemma_varint_prefix(s, count as nat);
                }
                return Err(DecodeError::new("invalid varint"));
            } else {
                proof {
                    lemma_or_low_bits(value, byte, count as nat);
                    lemma_varint_closed(s, count as nat);
                }
                value |= ((byte & 0x7F) as u64) << (shift as u64);
                return Ok(value);
            }
        }
        if count == 9 {
            proof {
                lemma_varint_prefix(s, 10);
                if s.len() <= 10 {
                    assert(s.skip(10) =~= Seq::<u8>::empty());
                }
            }
            return Err(DecodeError::new("invalid varint"));
        }
        proof {
            lemma_or_low_bits(value, byte, count as nat);
        }
        value |= ((byte & 0x7F) as u64) << (shift as u64);
        count += 1;
    }
    proof {
        lemma_varint_prefix(s, count as nat);
        assert(s.skip(count as int) =~= Seq::<u8>::empty());
    }
    Err(DecodeError::new("invalid varint"))
}

/// What the shifts of a byte into its place in a 32-bit part amount to.
proof fn lemma_byte_shifts(b: u8)
    ensures
        (b as u32) << 7 == b * 0x80,
        (b as u32) << 14 == b * 0x4000,
        (b as u32) << 21 == b * 0x20_0000,
{
    assert((b as u32) << 7 == b * 0x80 && (b as u32) << 14 == b * 0x4000 && (b as u32) << 21 == b
        * 0x20_0000) by (bit_vector);
}

/// What the shifts of a 32-bit part into its place in the value amount to.
proof fn lemma_part_shifts(p: u32)
    ensures
        p < 0x1000_0000 ==> (p as u64) << 28 == p * 0x1000_0000,
        p <= 0xFF ==> (p as u64) << 56 == p * 0x100_0000_0000_0000,
{
    assert(p < 0x1000_0000 ==> (p as u64) << 28 == p * 0x1000_0000) by (bit_vector);
    assert(p <= 0xFF ==> (p as u64) << 56 == p * 0x100_0000_0000_0000) by (bit_vector);
}

/// Shifting 1 left by seven places per byte gives the weight of that byte.
proof fn lemma_shift_is_pow128(k: nat)
    requires
        k <= 9,
    ensures
        (1u64 << ((k * 7) as u64)) == pow128(k),
{
    crate::wire_format::lemma_pow128_values();
    assert(1u64 << 0u64 == 1 && 1u64 << 7u64 == 0x80 && 1u64 << 14u64 == 0x4000 && 1u64 << 21u64
        == 0x20_0000 && 1u64 << 28u64 == 0x1000_0000 && 1u64 << 35u64 == 0x8_0000_0000 && 1u64
        << 42u64 == 0x400_0000_0000 && 1u64 << 49u64 == 0x2_0000_0000_0000 && 1u64 << 56u64
        == 0x100_0000_0000_0000 && 1u64 << 63u64 == 0x8000_0000_0000_0000) by (bit_vector);
}

/// Setting the seven low bits of `byte` at the place of byte number `k`, in
/// a value that has nothing set there yet, adds them at that weight.
proof fn lemma_or_low_bits(value: u64, byte: u8, k: nat)
    requires
        k <= 9,
        value < pow128(k),
        k == 9 ==> byte % 128 < 2,
    ensures
        (value | (((byte & 0x7F) as u64) << ((k * 7) as u64))) == value + (byte % 128) as nat
            * pow128(k),
        value + (byte % 128) as nat * pow128(k) < pow128(k + 1) || k == 9,
        value + (byte % 128) as nat * pow128(k) <= u64::MAX,
{
    crate::wire_format::lemma_pow128_values();
    let sh = (k * 7) as u64;
    lemma_shift_is_pow128(k);
    let w = (1u64 << sh) as u64;
    assert(sh <= 56 && value < w ==> (value | (((byte & 0x7F) as u64) << sh)) == value + (byte
        % 128) * w && value + (byte % 128) * w < w * 128) by (bit_vector)
        requires
            w == 1u64 << sh,
    ;
    assert(sh == 63 && value < w && byte % 128 < 2 ==> (value | (((byte & 0x7F) as u64) << sh))
        == value + (byte % 128) * w && value + (byte % 128) * w <= 0xFFFF_FFFF_FFFF_FFFF)
        by (bit_vector)
        requires
            w == 1u64 << sh,
    ;
    assert(k <= 8 ==> sh <= 56) by (nonlinear_arith)
        requires
            sh == k * 7,
    ;
    assert(k == 9 ==> sh == 63);
    assert(pow128(k + 1) == 128 * pow128(k));
}

/// Appends the key of field `tag` with the given wire type.
pub fn encode_key(tag: u32, wire_type: WireType, buf: &mut BytesMut)
    requires
        MIN_TAG <= tag <= MAX_TAG,
        bytes_mut_seq(old(buf)).len() + key_bytes(tag, wire_type).len() <= BUF_LIMIT,
    ensures
        bytes_mut_seq(final(buf)) == bytes_mut_seq(old(buf)) + key_bytes(tag, wire_type),
{
    let code = wire_type.code() as u32;
    assert(((tag << 3) | code) == tag * 8 + code) by (bit_vector)
        requires
            tag <= 0x1FFF_FFFF,
            code <= 5,
    ;
    let key = (tag << 3) | code;
    proof {
        lemma_varint_len(key as nat);
    }
    encode_varint(key as u64, buf);
}

/// Reads a field key from the front of the buffer and moves the buffer past
/// the varint that holds it, whether or not that varint is a sound key.
pub fn decode_key(buf: &mut Bytes) -> (r: Result<(u32, WireType), DecodeError>)
    ensures
        match key_parse(bytes_seq(old(buf))) {
            Ok(key) => r == Ok::<(u32, WireType), DecodeError>(key) && 1 <= varint_consumed(
                bytes_seq(old(buf)),
            ),
            Err(text) => r.is_err() && r.unwrap_err().is_plain(text),
        },
        varint_consumed(bytes_seq(old(buf))) <= bytes_seq(old(buf)).len(),
        bytes_seq(final(buf)) == bytes_seq(old(buf)).skip(
            varint_consumed(bytes_seq(old(buf))) as int,
        ),
{
    proof {
        if varint_parse(bytes_seq(buf)).is_some() {
            lemma_varint_tail_bounds(bytes_seq(buf), 0);
        }
    }
    let key = match decode_varint(buf) {
        Ok(key) => key,
        Err(e) => {
            return Err(e);
        },
    };
    if key > u32::MAX as u64 {
        let mut text = String::from_str("invalid key value: ");
        push_decimal(&mut text, key as u128);
        return Err(DecodeError::new(text.as_str()));
    }
    assert(key & 0x07 == key % 8 && (key as u32) >> 3 == key / 8) by (bit_vector)
        requires
            key <= 0xFFFF_FFFF,
    ;
    let wire_type = match WireType::try_from(key & 0x07) {
        Ok(wire_type) => wire_type,
        Err(e) => {
            return Err(e);
        },
    };
    let tag = key as u32 >> 3;
    if tag < MIN_TAG {
        return Err(DecodeError::new("invalid tag value: 0"));
    }
    Ok((tag, wire_type))
}

/// The number of bytes that the key of field `tag` takes, whatever its wire
/// type: between one and five.
pub fn key_len(tag: u32) -> (n: usize)
    requires
        tag <= MAX_TAG,
    ensures
        forall|wire_type: WireType| n == #[trigger] key_bytes(tag, wire_type).len(),
        1 <= n <= 5,
{
    assert((tag << 3) == tag * 8) by (bit_vector)
        requires
            tag <= 0x1FFF_FFFF,
    ;
    proof {
        crate::wire_format::lemma_pow128_values();
        assert forall|wire_type: WireType|
            varint_len((tag * 8) as nat) == #[trigger] key_bytes(tag, wire_type).len() by {
            let key = key_value(tag, wire_type);
            lemma_varint_len(key);
            lemma_varint_len_bound(key, 5);
        }
        lemma_varint_len_bound((tag * 8) as nat, 5);
    }
    encoded_len_varint((tag << 3) as u64)
}

/// The text of the complaint about a field whose wire type is not the one
/// its type is written with.
pub open spec fn wire_type_mismatch(expected: WireType, actual: WireType) -> Seq<char> {
    "invalid wire type: "@ + actual.spec_name() + " (expected "@ + expected.spec_name() + ")"@
}

/// Accepts `actual` where it is the wire type `expected`, and refuses it
/// with a message that names both otherwise.
pub fn check_wire_type(expected: WireType, actual: WireType) -> (r: Result<(), DecodeError>)
    ensures
        expected == actual ==> r.is_ok(),
        expected != actual ==> r.is_err() && r.unwrap_err().is_plain(
            wire_type_mismatch(expected, actual),
        ),
{
    if expected != actual {
        let mut text = String::from_str("invalid wire type: ");
        text.append(actual.name());
        text.append(" (expected ");
        text.append(expected.name());
        text.append(")");
        return Err(DecodeError::new(text.as_str()));
    }
    Ok(())
}

/// Passes over one field of the given wire type at the front of the buffer.
///
/// The buffer loses what was read, on failure too.
pub fn skip_field(wire_type: WireType, tag: u32, buf: &mut Bytes) -> (r: Result<(), DecodeError>)
    ensures
        match skip_parse(wire_type, tag, bytes_seq(old(buf))).0 {
            None => r.is_ok(),
            Some(text) => r.is_err() && r.unwrap_err().is_plain(text),
        },
        skip_parse(wire_type, tag, bytes_seq(old(buf))).1 <= bytes_seq(old(buf)).len(),
        bytes_seq(final(buf)) == bytes_seq(old(buf)).skip(
            skip_parse(wire_type, tag, bytes_seq(old(buf))).1 as int,
        ),
    decreases bytes_seq(old(buf)).len(),
{
    let ghost s = bytes_seq(buf);
    let ghost mut done: nat = 0;
    proof {
        lemma_skip_parse_bound(wire_type, tag, s);
        if varint_parse(s).is_some() {
            lemma_varint_tail_bounds(s, 0);
        }
        assert(s.skip(0) =~= s);
    }
    let len: u64 = match wire_type {
        WireType::Varint => match decode_varint(buf) {
            Ok(_) => {
                proof {
                    done = varint_consumed(s);
                }
                0
            },
            Err(e) => {
                return Err(e);
            },
        },
        WireType::ThirtyTwoBit => 4,
        WireType::SixtyFourBit => 8,
        WireType::LengthDelimited => match decode_varint(buf) {
            Ok(len) => {
                proof {
                    done = varint_consumed(s);
                }
                len
            },
            Err(e) => {
                return Err(e);
            },
        },
        WireType::StartGroup => {
            loop
                invariant_except_break
                    group_parse(tag, s) == (
                        group_parse(tag, s.skip(done as int)).0,
                        done + group_parse(tag, s.skip(done as int)).1,
                    ),
                invariant
                    wire_type == WireType::StartGroup,
                    s == bytes_seq(old(buf)),
                    done <= s.len(),
                    bytes_seq(buf) == s.skip(done as int),
                ensures
                    group_parse(tag, s) == (None::<Seq<char>>, done),
                decreases s.len() - done,
            {
                let ghost cur = bytes_seq(buf);
                proof {
                    lemma_group_parse_bound(tag, cur);
                    if varint_parse(cur).is_some() {
                        lemma_varint_tail_bounds(cur, 0);
                    }
                }
                let ghost n = varint_consumed(cur);
                assert(cur.skip(n as int) =~= s.skip((done + n) as int));
                let (inner_tag, inner_wire_type) = match decode_key(buf) {
                    Ok(key) => key,
                    Err(e) => {
                        return Err(e);
                    },
                };
                match inner_wire_type {
                    WireType::EndGroup => {
                        if inner_tag != tag {
                            return Err(DecodeError::new("unexpected end group tag"));
                        }
                        proof {
                            done = done + n;
                        }
                        break ;
                    },
                    _ => {
                        let ghost inner = bytes_seq(buf);
                        proof {
                            lemma_skip_parse_bound(inner_wire_type, inner_tag, inner);
                        }
                        let ghost m = skip_parse(inner_wire_type, inner_tag, inner).1;
                        assert(inner.skip(m as int) =~= s.skip((done + n + m) as int));
                        match skip_field(inner_wire_type, inner_tag, buf) {
                            Ok(_) => {},
                            Err(e) => {
                                return Err(e);
                            },
                        }
                        proof {
                            assert(cur.skip((n + m) as int) =~= s.skip((done + n + m) as int));
                            done = done + n + m;
                        }
                    },
                }
            }
            0
        },
        WireType::EndGroup => {
            return Err(DecodeError::new("unexpected end group tag"));
        },
    };
    assert(bytes_seq(buf) == s.skip(done as int));
    if len > bytes_len(buf) as u64 {
        // more than any buffer holds: the cast below would cut it short
        return Err(DecodeError::incomplete());
    }
    match bytes_split_to_checked(buf, len as usize) {
        Some(_) => {
            assert(s.skip(done as int).skip(len as int) =~= s.skip(done + len));
            Ok(())
        },
        None => Err(DecodeError::incomplete()),
    }
}

} // verus!
