//! The Protocol Buffers wire format as mathematics: what a varint, a field
//! key and a skipped field are, as functions on byte sequences, and the facts
//! that relate writing to reading.

use crate::encoding::WireType;
use crate::text::decimal;
use vstd::prelude::*;

verus! {

/// Smallest field number a key may carry.
pub const MIN_TAG: u32 = 1;

/// Largest field number a key may carry: 2^29 - 1.
pub const MAX_TAG: u32 = 0x1FFF_FFFF;

/// 128 to the power `k`: the weight of the `k`-th byte of a varint.
pub open spec fn pow128(k: nat) -> nat
    decreases k,
{
    if k == 0 {
        1
    } else {
        128 * pow128((k - 1) as nat)
    }
}

/// The base-128 encoding of `v`, least significant group first, every byte
/// but the last marked with its top bit.
pub open spec fn varint_bytes(v: nat) -> Seq<u8>
    decreases v,
{
    if v < 128 {
        seq![v as u8]
    } else {
        seq![(v % 128 + 128) as u8] + varint_bytes(v / 128)
    }
}

/// The number of base-128 groups that `v` takes.
pub open spec fn varint_len(v: nat) -> nat
    decreases v,
{
    if v < 128 {
        1
    } else {
        1 + varint_len(v / 128)
    }
}

/// Reads a varint whose byte number `k` stands at `s[k]`: the value of the
/// bytes from `k` on, in units of `pow128(k)`, and the index behind the last
/// byte. A varint has at most ten bytes, and its tenth may only be 0 or 1, so
/// that the value fits in 64 bits.
pub open spec fn varint_tail(s: Seq<u8>, k: nat) -> Option<(nat, nat)>
    decreases 10 - k,
{
    if k >= 10 || k >= s.len() {
        None
    } else if s[k as int] < 128 {
        if k == 9 && s[k as int] >= 2 {
            None
        } else {
            Some((s[k as int] as nat, k + 1))
        }
    } else {
        match varint_tail(s, k + 1) {
            Some((hi, n)) => Some(((s[k as int] - 128) as nat + 128 * hi, n)),
            None => None,
        }
    }
}

/// Reads one varint from the front of `s`: its value and how many bytes it
/// took, or `None` where `s` does not start with a well-formed varint.
pub open spec fn varint_parse(s: Seq<u8>) -> Option<(u64, nat)> {
    match varint_tail(s, 0) {
        Some((v, n)) => Some((v as u64, n)),
        None => None,
    }
}

/// The value carried by the first `k` bytes of `s`, top bits ignored.
pub open spec fn low7_sum(s: Seq<u8>, k: nat) -> nat
    decreases k,
{
    if k == 0 {
        0
    } else {
        low7_sum(s, (k - 1) as nat) + (s[k - 1] % 128) as nat * pow128((k - 1) as nat)
    }
}

pub proof fn lemma_pow128_values()
    ensures
        pow128(0) == 1,
        pow128(1) == 0x80,
        pow128(2) == 0x4000,
        pow128(3) == 0x20_0000,
        pow128(4) == 0x1000_0000,
        pow128(5) == 0x8_0000_0000,
        pow128(6) == 0x400_0000_0000,
        pow128(7) == 0x2_0000_0000_0000,
        pow128(8) == 0x100_0000_0000_0000,
        pow128(9) == 0x8000_0000_0000_0000,
        pow128(10) == 0x40_0000_0000_0000_0000,
{
    reveal_with_fuel(pow128, 12);
}

/// The encoding of `v` has `varint_len(v)` bytes: at least one, and at most
/// ten for a 64-bit value.
pub proof fn lemma_varint_len(v: nat)
    ensures
        varint_bytes(v).len() == varint_len(v),
        1 <= varint_len(v),
        v <= u64::MAX ==> varint_len(v) <= 10,
{
    lemma_varint_len_bound(v, 10);
    lemma_pow128_values();
}

pub proof fn lemma_varint_len_bound(v: nat, k: nat)
    requires
        k >= 1,
    ensures
        varint_bytes(v).len() == varint_len(v),
        1 <= varint_len(v),
        v < pow128(k) ==> varint_len(v) <= k,
    decreases v,
{
    if v >= 128 {
        if k >= 2 {
            lemma_varint_len_bound(v / 128, (k - 1) as nat);
        } else {
            lemma_varint_len_bound(v / 128, 1);
            reveal_with_fuel(pow128, 2);
        }
    }
}

/// One more than the largest value that the bytes of a varint from byte
/// number `k` on may carry: 2 to the power `64 - 7 * k`.
pub open spec fn varint_limit(k: nat) -> nat {
    if k == 0 {
        0x1_0000_0000_0000_0000
    } else if k == 1 {
        0x200_0000_0000_0000
    } else if k == 2 {
        0x4_0000_0000_0000
    } else if k == 3 {
        0x800_0000_0000
    } else if k == 4 {
        0x10_0000_0000
    } else if k == 5 {
        0x2000_0000
    } else if k == 6 {
        0x40_0000
    } else if k == 7 {
        0x8000
    } else if k == 8 {
        0x100
    } else if k == 9 {
        2
    } else {
        1
    }
}

/// Reading where the varint `v` was written gives `v` back, whatever follows
/// it, and stops right behind it.
pub proof fn lemma_varint_tail_of_bytes(pre: Seq<u8>, v: nat, rest: Seq<u8>, k: nat)
    requires
        pre.len() == k,
        k < 10,
        v < varint_limit(k),
    ensures
        varint_tail(pre + varint_bytes(v) + rest, k) == Some((v, k + varint_len(v))),
    decreases v,
{
    let s = pre + varint_bytes(v) + rest;
    if v < 128 {
        assert(s[k as int] == v as u8);
    } else {
        let b = (v % 128 + 128) as u8;
        assert(s[k as int] == b);
        lemma_varint_tail_of_bytes(pre.push(b), v / 128, rest, k + 1);
        assert(pre.push(b) + varint_bytes(v / 128) + rest =~= s);
    }
}

/// **Varint round trip.** Every 64-bit value reads back from its own
/// encoding, whatever bytes follow, and the encoding has between one and ten
/// bytes.
pub proof fn lemma_varint_round_trip(v: u64, rest: Seq<u8>)
    ensures
        varint_parse(varint_bytes(v as nat) + rest) == Some((v, varint_len(v as nat))),
        varint_bytes(v as nat).len() == varint_len(v as nat),
        1 <= varint_len(v as nat) <= 10,
{
    lemma_varint_len(v as nat);
    lemma_varint_tail_of_bytes(Seq::empty(), v as nat, rest, 0);
    assert(Seq::<u8>::empty() + varint_bytes(v as nat) + rest =~= varint_bytes(v as nat) + rest);
}

/// What a well-formed varint yields fits in the bits that are left for it,
/// and it ends inside the input, within ten bytes.
pub proof fn lemma_varint_tail_bounds(s: Seq<u8>, k: nat)
    requires
        varint_tail(s, k).is_some(),
    ensures
        k < varint_tail(s, k).unwrap().1 <= 10,
        varint_tail(s, k).unwrap().1 <= s.len(),
        varint_tail(s, k).unwrap().0 < varint_limit(k),
    decreases 10 - k,
{
    if s[k as int] >= 128 {
        lemma_varint_tail_bounds(s, k + 1);
    }
}

/// Where the first `k` bytes all announce a successor, the varint is what
/// they carry plus what the bytes from `k` on yield.
pub proof fn lemma_varint_prefix(s: Seq<u8>, k: nat)
    requires
        k <= s.len(),
        k <= 10,
        forall|i: int| 0 <= i < k ==> s[i] >= 128,
    ensures
        varint_tail(s, 0) == match varint_tail(s, k) {
            Some((hi, n)) => Some((low7_sum(s, k) + pow128(k) * hi, n)),
            None => None,
        },
    decreases k,
{
    if k == 0 {
        assert(pow128(0) == 1);
        match varint_tail(s, 0) {
            Some((hi, n)) => {
                assert(1 * hi == hi);
            },
            None => {},
        }
    } else {
        let j = (k - 1) as nat;
        lemma_varint_prefix(s, j);
        match varint_tail(s, k) {
            Some((hi, n)) => {
                let b = (s[j as int] - 128) as nat;
                assert(varint_tail(s, j) == Some((b + 128 * hi, n)));
                assert(b == s[j as int] % 128);
                assert(low7_sum(s, j) + pow128(j) * (b + 128 * hi) == low7_sum(s, j) + b * pow128(
                    j,
                ) + (128 * pow128(j)) * hi) by (nonlinear_arith);
            },
            None => {},
        }
    }
}

/// Whether the input is at most ten bytes long and ends before its varint
/// does: it is empty, or every byte of it announces a successor.
pub open spec fn varint_runs_out(s: Seq<u8>) -> bool {
    s.len() <= 10 && forall|i: int| 0 <= i < s.len() ==> s[i] >= 128
}

/// How many bytes a reader of one varint takes from the front of `s`: the
/// varint itself where there is one; everything where the input gives out
/// within ten bytes; nothing where the varint is too long or too large.
pub open spec fn varint_consumed(s: Seq<u8>) -> nat {
    match varint_parse(s) {
        Some((_, n)) => n,
        None => if varint_runs_out(s) {
            s.len()
        } else {
            0
        },
    }
}

/// The varint that stands for the key of field `tag` with the given wire
/// type: the field number, then three bits of wire type.
pub open spec fn key_value(tag: u32, wire_type: WireType) -> nat {
    (tag * 8 + wire_type.spec_code()) as nat
}

/// The bytes of a field key.
pub open spec fn key_bytes(tag: u32, wire_type: WireType) -> Seq<u8> {
    varint_bytes(key_value(tag, wire_type))
}

/// Reads a field key from the front of `s`: the field number and the wire
/// type, or the description of what is wrong. The key is a varint that fits
/// in 32 bits, ends in one of the six wire types, and carries a field number
/// of at least one.
pub open spec fn key_parse(s: Seq<u8>) -> Result<(u32, WireType), Seq<char>> {
    match varint_parse(s) {
        None => Err("invalid varint"@),
        Some((key, _)) => if key > u32::MAX {
            Err("invalid key value: "@ + decimal(key as nat))
        } else {
            match WireType::spec_from_code((key % 8) as nat) {
                None => Err("invalid wire type value: "@ + decimal((key % 8) as nat)),
                Some(wire_type) => if key / 8 < MIN_TAG {
                    Err("invalid tag value: 0"@)
                } else {
                    Ok(((key / 8) as u32, wire_type))
                },
            }
        },
    }
}

/// A key that was written reads back, whatever follows it.
pub proof fn lemma_key_round_trip(tag: u32, wire_type: WireType, rest: Seq<u8>)
    requires
        MIN_TAG <= tag <= MAX_TAG,
    ensures
        key_parse(key_bytes(tag, wire_type) + rest) == Ok::<(u32, WireType), Seq<char>>(
            (tag, wire_type),
        ),
        varint_consumed(key_bytes(tag, wire_type) + rest) == key_bytes(tag, wire_type).len(),
        1 <= key_bytes(tag, wire_type).len() <= 5,
{
    let key = key_value(tag, wire_type);
    lemma_varint_round_trip(key as u64, rest);
    lemma_varint_len_bound(key, 5);
    lemma_pow128_values();
}

/// What passing over one field of the given wire type does at the front of
/// `s`: the description of what is wrong, if anything, and the number of
/// bytes taken from the input either way.
///
/// A varint field is one varint; a fixed field is 4 or 8 bytes; a
/// length-delimited field is a varint and as many bytes as it says; a group
/// runs up to the end-group key with the same field number, over fields and
/// groups nested in it.
pub open spec fn skip_parse(wire_type: WireType, tag: u32, s: Seq<u8>) -> (Option<Seq<char>>, nat)
    decreases s.len(), 1nat,
{
    match wire_type {
        WireType::Varint => match varint_parse(s) {
            Some((_, n)) => (None, n),
            None => (Some("invalid varint"@), varint_consumed(s)),
        },
        WireType::ThirtyTwoBit => if s.len() >= 4 {
            (None, 4)
        } else {
            (Some("Not enough data"@), 0)
        },
        WireType::SixtyFourBit => if s.len() >= 8 {
            (None, 8)
        } else {
            (Some("Not enough data"@), 0)
        },
        WireType::LengthDelimited => match varint_parse(s) {
            Some((len, n)) => if n + len <= s.len() {
                (None, n + len as nat)
            } else {
                (Some("Not enough data"@), n)
            },
            None => (Some("invalid varint"@), varint_consumed(s)),
        },
        WireType::StartGroup => group_parse(tag, s),
        WireType::EndGroup => (Some("unexpected end group tag"@), 0),
    }
}

/// What passing over the rest of a group with field number `tag` does at the
/// front of `s`.
pub open spec fn group_parse(tag: u32, s: Seq<u8>) -> (Option<Seq<char>>, nat)
    decreases s.len(), 0nat,
{
    let n = varint_consumed(s);
    match key_parse(s) {
        Err(text) => (Some(text), n),
        Ok((inner_tag, inner_wire_type)) => if inner_wire_type == WireType::EndGroup {
            if inner_tag != tag {
                (Some("unexpected end group tag"@), n)
            } else {
                (None, n)
            }
        } else {
            proof {
                lemma_varint_tail_bounds(s, 0);
            }
            let (inner_err, m) = skip_parse(inner_wire_type, inner_tag, s.skip(n as int));
            // A field never takes more than there is, so the second test
            // never holds: it shows that the recursion ends.
            if inner_err.is_some() || n + m > s.len() {
                (inner_err, n + m)
            } else {
                let (err, r) = group_parse(tag, s.skip((n + m) as int));
                (err, n + m + r)
            }
        },
    }
}

/// Passing over a field never takes more than there is.
pub proof fn lemma_skip_parse_bound(wire_type: WireType, tag: u32, s: Seq<u8>)
    ensures
        skip_parse(wire_type, tag, s).1 <= s.len(),
    decreases s.len(), 1nat,
{
    if varint_parse(s).is_some() {
        lemma_varint_tail_bounds(s, 0);
    }
    if wire_type == WireType::StartGroup {
        lemma_group_parse_bound(tag, s);
    }
}

pub proof fn lemma_group_parse_bound(tag: u32, s: Seq<u8>)
    ensures
        group_parse(tag, s).1 <= s.len(),
    decreases s.len(), 0nat,
{
    let n = varint_consumed(s);
    if varint_parse(s).is_some() {
        lemma_varint_tail_bounds(s, 0);
    }
    match key_parse(s) {
        Err(text) => {},
        Ok((inner_tag, inner_wire_type)) => {
            if inner_wire_type == WireType::EndGroup {
            } else {
                lemma_skip_parse_bound(inner_wire_type, inner_tag, s.skip(n as int));
                let (inner_err, m) = skip_parse(inner_wire_type, inner_tag, s.skip(n as int));
                if inner_err.is_some() || n + m > s.len() {
                } else {
                    lemma_group_parse_bound(tag, s.skip((n + m) as int));
                }
            }
        },
    }
}

/// A varint is read from its own bytes alone: an input that agrees with `s`
/// up to the end of the varint yields the same.
pub proof fn lemma_varint_local(s: Seq<u8>, t: Seq<u8>, k: nat)
    requires
        varint_tail(s, k).is_some(),
        varint_tail(s, k).unwrap().1 <= t.len(),
        forall|i: int| k <= i < varint_tail(s, k).unwrap().1 ==> t[i] == s[i],
    ensures
        varint_tail(t, k) == varint_tail(s, k),
    decreases 10 - k,
{
    lemma_varint_tail_bounds(s, k);
    if s[k as int] >= 128 {
        lemma_varint_tail_bounds(s, k + 1);
        lemma_varint_local(s, t, k + 1);
    }
}

/// **Skipping takes the field and nothing else.** Where a field is passed
/// over without complaint, the same happens on every input that begins with
/// the bytes that were taken: what follows a field has no say in how the
/// field is passed over. Groups nested in groups are passed over likewise.
pub proof fn lemma_skip_local(wire_type: WireType, tag: u32, s: Seq<u8>, t: Seq<u8>)
    requires
        skip_parse(wire_type, tag, s).0.is_none(),
        skip_parse(wire_type, tag, s).1 <= t.len(),
        forall|i: int| 0 <= i < skip_parse(wire_type, tag, s).1 ==> t[i] == s[i],
    ensures
        skip_parse(wire_type, tag, t) == skip_parse(wire_type, tag, s),
    decreases s.len(), 1nat,
{
    match wire_type {
        WireType::Varint => {
            lemma_varint_local(s, t, 0);
        },
        WireType::LengthDelimited => {
            lemma_varint_tail_bounds(s, 0);
            lemma_varint_local(s, t, 0);
        },
        WireType::StartGroup => {
            lemma_group_local(tag, s, t);
        },
        _ => {},
    }
}

/// The rest of a group that is passed over without complaint is passed over
/// in the same way on every input that begins with the bytes that were
/// taken.
pub proof fn lemma_group_local(tag: u32, s: Seq<u8>, t: Seq<u8>)
    requires
        group_parse(tag, s).0.is_none(),
        group_parse(tag, s).1 <= t.len(),
        forall|i: int| 0 <= i < group_parse(tag, s).1 ==> t[i] == s[i],
    ensures
        group_parse(tag, t) == group_parse(tag, s),
    decreases s.len(), 0nat,
{
    let n = varint_consumed(s);
    lemma_group_parse_bound(tag, s);
    match key_parse(s) {
        Err(text) => {},
        Ok((inner_tag, inner_wire_type)) => {
            lemma_varint_tail_bounds(s, 0);
            if inner_wire_type == WireType::EndGroup {
                lemma_varint_local(s, t, 0);
            } else {
                let s1 = s.skip(n as int);
                let (inner_err, m) = skip_parse(inner_wire_type, inner_tag, s1);
                lemma_skip_parse_bound(inner_wire_type, inner_tag, s1);
                let s2 = s.skip((n + m) as int);
                lemma_group_parse_bound(tag, s2);
                lemma_varint_local(s, t, 0);
                let t1 = t.skip(n as int);
                assert forall|i: int| 0 <= i < m implies t1[i] == s1[i] by {
                    assert(t1[i] == t[n + i]);
                    assert(s1[i] == s[n + i]);
                }
                lemma_skip_local(inner_wire_type, inner_tag, s1, t1);
                let t2 = t.skip((n + m) as int);
                let r = group_parse(tag, s2).1;
                assert forall|i: int| 0 <= i < r implies t2[i] == s2[i] by {
                    assert(t2[i] == t[n + m + i]);
                    assert(s2[i] == s[n + m + i]);
                }
                lemma_group_local(tag, s2, t2);
            }
        },
    }
}

/// **Skipping a field that was written.** Bytes that are one field and
/// nothing else are passed over whole, whatever follows them, and what
/// follows is left.
pub proof fn lemma_skip_exact(wire_type: WireType, tag: u32, field: Seq<u8>, rest: Seq<u8>)
    requires
        skip_parse(wire_type, tag, field) == (None::<Seq<char>>, field.len()),
    ensures
        skip_parse(wire_type, tag, field + rest) == (None::<Seq<char>>, field.len()),
        (field + rest).skip(field.len() as int) == rest,
{
    lemma_skip_local(wire_type, tag, field, field + rest);
    assert((field + rest).skip(field.len() as int) =~= rest);
}

/// The bytes of a value that was written are one field and nothing else: a
/// varint; four bytes; eight bytes; a length and as many bytes as it says;
/// and a group that ends at once.
pub proof fn lemma_written_is_one_field(tag: u32, v: u64, body: Seq<u8>)
    requires
        MIN_TAG <= tag <= MAX_TAG,
        body.len() <= u64::MAX,
    ensures
        skip_parse(WireType::Varint, tag, varint_bytes(v as nat)) == (
            None::<Seq<char>>,
            varint_bytes(v as nat).len(),
        ),
        body.len() == 4 ==> skip_parse(WireType::ThirtyTwoBit, tag, body) == (
            None::<Seq<char>>,
            body.len(),
        ),
        body.len() == 8 ==> skip_parse(WireType::SixtyFourBit, tag, body) == (
            None::<Seq<char>>,
            body.len(),
        ),
        skip_parse(WireType::LengthDelimited, tag, varint_bytes(body.len()) + body) == (
            None::<Seq<char>>,
            (varint_bytes(body.len()) + body).len(),
        ),
        skip_parse(WireType::StartGroup, tag, key_bytes(tag, WireType::EndGroup)) == (
            None::<Seq<char>>,
            key_bytes(tag, WireType::EndGroup).len(),
        ),
{
    lemma_varint_round_trip(v, Seq::empty());
    assert(varint_bytes(v as nat) + Seq::<u8>::empty() =~= varint_bytes(v as nat));
    lemma_varint_round_trip(body.len() as u64, body);
    lemma_key_round_trip(tag, WireType::EndGroup, Seq::empty());
    assert(key_bytes(tag, WireType::EndGroup) + Seq::<u8>::empty() =~= key_bytes(
        tag,
        WireType::EndGroup,
    ));
}

/// **Shape of a varint.** Every byte of the encoding but the last has its
/// top bit set, and the last has it clear.
pub proof fn lemma_varint_shape(v: nat)
    ensures
        varint_bytes(v).len() >= 1,
        varint_bytes(v).last() < 128,
        forall|i: int| 0 <= i < varint_bytes(v).len() - 1 ==> varint_bytes(v)[i] >= 128,
    decreases v,
{
    if v >= 128 {
        lemma_varint_shape(v / 128);
        let head = seq![(v % 128 + 128) as u8];
        let tail = varint_bytes(v / 128);
        assert(varint_bytes(v) == head + tail);
        assert(varint_bytes(v).last() == tail.last());
        assert forall|i: int| 0 <= i < varint_bytes(v).len() - 1 implies varint_bytes(v)[i]
            >= 128 by {
            if i > 0 {
                assert(varint_bytes(v)[i] == tail[i - 1]);
            }
        }
    }
}

} // verus!
