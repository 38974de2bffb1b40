//! Map fields: keys with values, written as one nested entry for each key.

use crate::buf::{
    bytes_is_empty, bytes_len, bytes_mut_seq, bytes_seq, bytes_split_to_checked, BUF_LIMIT,
};
use crate::encoding::{
    check_wire_type, decode_key, decode_varint, encode_key, encode_varint, encoded_len_varint,
    key_len, wire_type_mismatch, DecodeError, Failure, WireType,
};
use crate::text::{decimal, push_decimal};
use crate::types::{cut_taken, field_start, DefaultValue, NativeType};
use crate::wire_format::{
    key_bytes, lemma_varint_len, lemma_varint_tail_bounds, varint_bytes, varint_consumed,
    varint_parse, MAX_TAG, MIN_TAG,
};
use ntex_bytes::{Bytes, BytesMut};
use vstd::prelude::*;
use vstd::std_specs::cmp::PartialEqSpecImpl;

verus! {

/// A map field: keys with their values, in the order in which the keys
/// came. A map that is made with `new` and filled with `insert` or by
/// reading fields holds no key twice: see `distinct_keys`. Two maps are
/// equal where they give the same keys the same values, whatever the order.
#[derive(Clone, Debug)]
pub struct MapField<K, V> {
    entries: Vec<(K, V)>,
}

/// The bytes of one entry: the key as field 1 and the value as field 2,
/// each left out where it is the default of its type.
pub open spec fn entry_body<K: NativeType, V: NativeType>(key: K::Model, value: V::Model) -> Seq<
    u8,
> {
    K::emitted(key, 1, key == K::zero()) + V::emitted(value, 2, value == V::zero())
}

/// The bytes of one entry as a nested message under field `tag`.
pub open spec fn entry_field<K: NativeType, V: NativeType>(
    key: K::Model,
    value: V::Model,
    tag: u32,
) -> Seq<u8> {
    key_bytes(tag, WireType::LengthDelimited) + varint_bytes(entry_body::<K, V>(key, value).len())
        + entry_body::<K, V>(key, value)
}

/// The entries as one nested message each, one after the other.
pub open spec fn entry_fields<K: NativeType, V: NativeType>(
    entries: Seq<(K::Model, V::Model)>,
    tag: u32,
) -> Seq<u8>
    decreases entries.len(),
{
    if entries.len() == 0 {
        Seq::empty()
    } else {
        entry_fields::<K, V>(entries.drop_last(), tag) + entry_field::<K, V>(
            entries.last().0,
            entries.last().1,
            tag,
        )
    }
}

/// The text of the complaint about an entry that announces more bytes than
/// follow.
pub open spec fn short_entry_text(len: nat, have: nat) -> Seq<char> {
    "Not enough data for HashMap, message size "@ + decimal(len) + ", buf size "@ + decimal(have)
}

/// Cutting an entry out of the input that follows its key: the bytes of the
/// entry and how many bytes are taken in all, or why the input is refused.
pub open spec fn entry_cut(wire_type: WireType, s: Seq<u8>) -> Result<(Seq<u8>, nat), Failure> {
    if wire_type != WireType::LengthDelimited {
        Err(Failure::plain(wire_type_mismatch(WireType::LengthDelimited, wire_type)))
    } else {
        match varint_parse(s) {
            None => Err(Failure::plain("invalid varint"@)),
            Some((len, n)) => if n + len > s.len() {
                Err(Failure::plain(short_entry_text(len as nat, (s.len() - n) as nat)))
            } else {
                Ok((s.subrange(n as int, n + len), n + len as nat))
            },
        }
    }
}

/// Reading the fields of an entry one after the other into a key and a
/// value: field 1 is the key, field 2 the value, and any other field is
/// refused.
pub open spec fn entry_read<K: NativeType, V: NativeType>(
    key: K::Model,
    value: V::Model,
    s: Seq<u8>,
) -> Result<(K::Model, V::Model), Failure>
    decreases s.len(),
{
    if s.len() == 0 {
        Ok((key, value))
    } else {
        match field_start(s) {
            Err(f) => Err(f),
            Ok((tag, wire_type, n)) => {
                let rest = s.skip(n as int);
                let step: Result<(K::Model, V::Model, nat), Failure> = if tag == 1 {
                    match K::parsed(key, wire_type, rest) {
                        Ok((k, taken)) => Ok((k, value, taken)),
                        Err(f) => Err(f),
                    }
                } else if tag == 2 {
                    match V::parsed(value, wire_type, rest) {
                        Ok((v, taken)) => Ok((key, v, taken)),
                        Err(f) => Err(f),
                    }
                } else {
                    Err(Failure::plain("Map deserialization error"@))
                };
                match step {
                    Err(f) => Err(f),
                    // A key takes at least one byte and no field takes more
                    // than there is, so the test never holds: it shows that
                    // the recursion ends.
                    Ok((k, v, taken)) => if n == 0 || n + taken > s.len() {
                        Ok((k, v))
                    } else {
                        entry_read::<K, V>(k, v, s.skip((n + taken) as int))
                    },
                }
            },
        }
    }
}

/// The index of the first entry with the given key, or the number of
/// entries where there is none.
pub open spec fn key_index<KM, VM>(entries: Seq<(KM, VM)>, key: KM) -> int
    decreases entries.len(),
{
    if entries.len() == 0 {
        0
    } else if entries[0].0 == key {
        0
    } else {
        1 + key_index(entries.drop_first(), key)
    }
}

/// The entries with `value` for `key`: in the place of the value that the
/// key had, or behind all entries where it had none.
pub open spec fn with_entry<KM, VM>(entries: Seq<(KM, VM)>, key: KM, value: VM) -> Seq<(KM, VM)> {
    let i = key_index(entries, key);
    if i < entries.len() {
        entries.update(i, (key, value))
    } else {
        entries.push((key, value))
    }
}

/// Whether no two entries have the same key.
pub open spec fn distinct_keys<KM, VM>(entries: Seq<(KM, VM)>) -> bool {
    forall|i: int, j: int|
        0 <= i < entries.len() && 0 <= j < entries.len() && i != j ==> entries[i].0 != entries[j].0
}

/// The entries as a map: each key with the value of its first entry.
pub open spec fn as_map<KM, VM>(entries: Seq<(KM, VM)>) -> Map<KM, VM> {
    Map::new(
        |k: KM| key_index(entries, k) < entries.len(),
        |k: KM| entries[key_index(entries, k)].1,
    )
}

/// Whether `key` has in `other` the value that it has in `entries`, where it
/// has one there.
pub open spec fn agrees_on<KM, VM>(entries: Seq<(KM, VM)>, other: Seq<(KM, VM)>, key: KM) -> bool {
    as_map(entries).contains_key(key) ==> as_map(other).contains_key(key) && as_map(other)[key]
        == as_map(entries)[key]
}

/// Where the first entry with a key stands.
pub proof fn lemma_key_index<KM, VM>(entries: Seq<(KM, VM)>, key: KM)
    ensures
        0 <= key_index(entries, key) <= entries.len(),
        key_index(entries, key) < entries.len() ==> entries[key_index(entries, key)].0 == key,
        forall|j: int| 0 <= j < key_index(entries, key) ==> entries[j].0 != key,
    decreases entries.len(),
{
    if entries.len() > 0 && entries[0].0 != key {
        lemma_key_index(entries.drop_first(), key);
        assert forall|j: int| 0 <= j < key_index(entries, key) implies entries[j].0 != key by {
            if j > 0 {
                assert(entries[j] == entries.drop_first()[j - 1]);
            }
        }
    }
}

impl<K: NativeType, V: NativeType> MapField<K, V> {
    /// The entries in their order.
    pub closed spec fn entries(&self) -> Seq<(K::Model, V::Model)> {
        self.entries@.map_values(|e: (K, V)| (e.0.model(), e.1.model()))
    }

    /// A map without entries.
    pub fn new() -> (m: MapField<K, V>)
        ensures
            m.entries() == Seq::<(K::Model, V::Model)>::empty(),
            distinct_keys(m.entries()),
    {
        let m = MapField { entries: Vec::new() };
        assert(m.entries() =~= Seq::empty());
        m
    }

    /// The number of entries.
    pub fn len(&self) -> (n: usize)
        ensures
            n == self.entries().len(),
    {
        self.entries.len()
    }

    /// Whether the map has no entry.
    pub fn is_empty(&self) -> (e: bool)
        ensures
            e == (self.entries().len() == 0),
    {
        self.entries.len() == 0
    }

    /// Gives `key` the value `value`: in the place of the value that it
    /// had, or as a new entry behind the others.
    pub fn insert(&mut self, key: K, value: V)
        ensures
            final(self).entries() == with_entry(old(self).entries(), key.model(), value.model()),
            distinct_keys(old(self).entries()) ==> distinct_keys(final(self).entries()),
            distinct_keys(old(self).entries()) ==> as_map(final(self).entries()) == as_map(
                old(self).entries(),
            ).insert(key.model(), value.model()),
    {
        let ghost pre = self.entries();
        let ghost k = key.model();
        proof {
            lemma_key_index(pre, k);
            if distinct_keys(pre) {
                lemma_with_entry(pre, k, value.model());
            }
        }
        let mut i: usize = 0;
        while i < self.entries.len()
            invariant
                self.entries() == pre,
                pre == old(self).entries(),
                k == key.model(),
                i <= self.entries@.len(),
                forall|j: int| 0 <= j < i ==> pre[j].0 != k,
            decreases self.entries@.len() - i,
        {
            assert(pre[i as int].0 == self.entries@[i as int].0.model());
            if self.entries[i].0.is_same(&key) {
                proof {
                    lemma_key_index(pre, k);
                    assert(key_index(pre, k) == i);
                    if distinct_keys(pre) {
                        lemma_with_entry(pre, k, value.model());
                    }
                }
                let ghost v = value.model();
                self.entries.set(i, (key, value));
                assert(self.entries() =~= pre.update(i as int, (k, v)));
                return ;
            }
            i += 1;
        }
        proof {
            lemma_key_index(pre, k);
            assert(key_index(pre, k) == pre.len());
        }
        let ghost v = value.model();
        self.entries.push((key, value));
        assert(self.entries() =~= pre.push((k, v)));
    }

    /// The value of `key`, if it has one.
    pub fn get(&self, key: &K) -> (value: Option<&V>)
        ensures
            match value {
                Some(v) => key_index(self.entries(), key.model()) < self.entries().len()
                    && v.model() == self.entries()[key_index(self.entries(), key.model())].1,
                None => key_index(self.entries(), key.model()) == self.entries().len(),
            },
    {
        let ghost pre = self.entries();
        let ghost k = key.model();
        proof {
            lemma_key_index(pre, k);
        }
        let mut i: usize = 0;
        while i < self.entries.len()
            invariant
                self.entries() == pre,
                k == key.model(),
                i <= self.entries@.len(),
                forall|j: int| 0 <= j < i ==> pre[j].0 != k,
            decreases self.entries@.len() - i,
        {
            assert(pre[i as int] == (
                self.entries@[i as int].0.model(),
                self.entries@[i as int].1.model(),
            ));
            if self.entries[i].0.is_same(key) {
                proof {
                    lemma_key_index(pre, k);
                    assert(key_index(pre, k) == i);
                }
                return Some(&self.entries[i].1);
            }
            i += 1;
        }
        proof {
            lemma_key_index(pre, k);
            assert(key_index(pre, k) == pre.len());
        }
        None
    }
}

/// **Keys stay distinct.** Giving a key a value leaves no key twice where
/// none was there twice, and the map is then the one before with that value
/// for that key.
pub proof fn lemma_with_entry<KM, VM>(entries: Seq<(KM, VM)>, key: KM, value: VM)
    requires
        distinct_keys(entries),
    ensures
        distinct_keys(with_entry(entries, key, value)),
        as_map(with_entry(entries, key, value)) == as_map(entries).insert(key, value),
{
    let after = with_entry(entries, key, value);
    let i = key_index(entries, key);
    lemma_key_index(entries, key);
    assert forall|k: KM| #[trigger] key_index(after, k) == (if k == key {
        i
    } else if key_index(entries, k) < entries.len() {
        key_index(entries, k)
    } else {
        after.len() as int
    }) by {
        lemma_key_index(entries, k);
        lemma_key_index(after, k);
        let a = key_index(entries, k);
        let b = key_index(after, k);
        if k == key {
            assert(after[i].0 == key);
            if b < i {
                assert(after[b].0 == entries[b].0);
            }
        } else if a < entries.len() {
            assert(after[a].0 == entries[a].0);
            if b < a {
                assert(after[b].0 == entries[b].0);
            }
        } else if b < after.len() {
            if b < entries.len() {
                assert(after[b].0 == entries[b].0 || b == i);
            }
        }
    }
    assert forall|k: KM| as_map(after).contains_key(k) == as_map(entries).insert(
        key,
        value,
    ).contains_key(k) by {
        lemma_key_index(entries, k);
        assert(key_index(after, k) == key_index(after, k));
    }
    assert forall|k: KM| as_map(after).contains_key(k) implies as_map(after)[k] == as_map(
        entries,
    ).insert(key, value)[k] by {
        lemma_key_index(entries, k);
        assert(key_index(after, k) == key_index(after, k));
    }
    assert(as_map(after) =~= as_map(entries).insert(key, value));
}

impl<K: NativeType, V: NativeType> MapField<K, V> {
    /// Whether every key of this map has in `other` the value that it has
    /// here.
    fn within(&self, other: &Self) -> (r: bool)
        ensures
            r == forall|k: K::Model| agrees_on(self.entries(), other.entries(), k),
    {
        let ghost mine = self.entries();
        let ghost theirs = other.entries();
        let mut i: usize = 0;
        while i < self.entries.len()
            invariant
                mine == self.entries(),
                theirs == other.entries(),
                i <= self.entries@.len(),
                forall|j: int| 0 <= j < i ==> agrees_on(mine, theirs, #[trigger] mine[j].0),
            decreases self.entries@.len() - i,
        {
            let key = &self.entries[i].0;
            let ghost k = key.model();
            proof {
                assert(mine[i as int].0 == k);
                lemma_key_index(mine, k);
                lemma_key_index(theirs, k);
            }
            let same = match (self.get(key), other.get(key)) {
                (Some(a), Some(b)) => a.is_same(b),
                _ => false,
            };
            if !same {
                assert(!agrees_on(mine, theirs, k));
                return false;
            }
            i += 1;
        }
        assert forall|k: K::Model| agrees_on(mine, theirs, k) by {
            lemma_key_index(mine, k);
            if as_map(mine).contains_key(k) {
                assert(mine[key_index(mine, k)].0 == k);
            }
        }
        true
    }
}

impl<K: NativeType, V: NativeType> PartialEq for MapField<K, V> {
    fn eq(&self, other: &Self) -> (r: bool) {
        let r = self.within(other) && other.within(self);
        proof {
            let a = as_map(self.entries());
            let b = as_map(other.entries());
            if r {
                assert forall|k: K::Model| a.contains_key(k) == b.contains_key(k) by {
                    assert(agrees_on(self.entries(), other.entries(), k));
                    assert(agrees_on(other.entries(), self.entries(), k));
                }
                assert forall|k: K::Model| a.contains_key(k) implies a[k] == b[k] by {
                    assert(agrees_on(self.entries(), other.entries(), k));
                }
                assert(a =~= b);
            }
        }
        r
    }
}

impl<K: NativeType, V: NativeType> PartialEqSpecImpl for MapField<K, V> {
    open spec fn obeys_eq_spec() -> bool {
        true
    }

    open spec fn eq_spec(&self, other: &Self) -> bool {
        as_map(self.entries()) == as_map(other.entries())
    }
}

impl<K: NativeType, V: NativeType> Default for MapField<K, V> {
    fn default() -> (m: MapField<K, V>)
        ensures
            m.entries() == Seq::<(K::Model, V::Model)>::empty(),
    {
        MapField::new()
    }
}

/// A map field: each entry is written as a nested message with the key as
/// field 1 and the value as field 2, each left out where it is the default
/// of its type; the entries come in the order of the map. Reading a field
/// reads one entry and gives its key its value.
impl<K: NativeType, V: NativeType> NativeType for MapField<K, V> {
    type Model = Seq<(K::Model, V::Model)>;

    const TYPE: WireType = WireType::LengthDelimited;

    open spec fn model(&self) -> Seq<(K::Model, V::Model)> {
        self.entries()
    }

    open spec fn zero() -> Seq<(K::Model, V::Model)> {
        Seq::empty()
    }

    open spec fn model_is_default(m: Seq<(K::Model, V::Model)>) -> bool {
        m.len() == 0
    }

    open spec fn payload(m: Seq<(K::Model, V::Model)>) -> Seq<u8> {
        Seq::empty()
    }

    open spec fn merged(pre: Seq<(K::Model, V::Model)>, s: Seq<u8>) -> Result<
        (Seq<(K::Model, V::Model)>, nat),
        Failure,
    > {
        Err(Failure::plain("Cannot directly call merge for Map<K, V>"@))
    }

    open spec fn emitted(m: Seq<(K::Model, V::Model)>, tag: u32, suppress: bool) -> Seq<u8> {
        if suppress {
            Seq::empty()
        } else {
            entry_fields::<K, V>(m, tag)
        }
    }

    open spec fn parsed(pre: Seq<(K::Model, V::Model)>, wire_type: WireType, s: Seq<u8>) -> Result<
        (Seq<(K::Model, V::Model)>, nat),
        Failure,
    > {
        match entry_cut(wire_type, s) {
            Ok((body, n)) => match entry_read::<K, V>(K::zero(), V::zero(), body) {
                Ok((key, value)) => Ok((with_entry(pre, key, value), n)),
                Err(f) => Err(f),
            },
            Err(f) => Err(f),
        }
    }

    open spec fn merge_taken(s: Seq<u8>) -> nat {
        0
    }

    open spec fn refused(pre: Seq<(K::Model, V::Model)>, wire_type: WireType, s: Seq<u8>) -> (
        Seq<(K::Model, V::Model)>,
        nat,
    ) {
        (pre, cut_taken(WireType::LengthDelimited, wire_type, s))
    }

    proof fn default_is_zero(v: Self) {
        assert(call_ensures(<MapField<K, V> as Default>::default, (), v));
    }

    open spec fn reads(wire_type: WireType) -> bool {
        wire_type == WireType::LengthDelimited
    }

    proof fn wrong_wire_type_is_refused(pre: Self::Model, wire_type: WireType, s: Seq<u8>) {
    }

    proof fn default_is_left_out(m: Self::Model, tag: u32) {
    }

    proof fn varint_merge_advances(pre: Self::Model, s: Seq<u8>) {
    }

    fn value_len(&self) -> (n: usize) {
        0
    }

    fn merge(&mut self, src: &mut Bytes) -> (r: Result<(), DecodeError>) {
        let ghost taken = Self::merge_taken(bytes_seq(src));
        assert(bytes_seq(src).skip(0) =~= bytes_seq(src));
        Err(DecodeError::new("Cannot directly call merge for Map<K, V>"))
    }

    fn is_default(&self) -> (r: bool) {
        self.entries.len() == 0
    }

    fn is_same(&self, other: &Self) -> (r: bool) {
        if self.entries.len() != other.entries.len() {
            assert(self.entries().len() != other.entries().len());
            return false;
        }
        let mut i: usize = 0;
        while i < self.entries.len()
            invariant
                self.entries@.len() == other.entries@.len(),
                i <= self.entries@.len(),
                forall|j: int| 0 <= j < i ==> self.entries()[j] == other.entries()[j],
            decreases self.entries@.len() - i,
        {
            assert(self.entries()[i as int] == (
                self.entries@[i as int].0.model(),
                self.entries@[i as int].1.model(),
            ));
            assert(other.entries()[i as int] == (
                other.entries@[i as int].0.model(),
                other.entries@[i as int].1.model(),
            ));
            if !self.entries[i].0.is_same(&other.entries[i].0) || !self.entries[i].1.is_same(
                &other.entries[i].1,
            ) {
                return false;
            }
            i += 1;
        }
        assert(self.entries() =~= other.entries());
        true
    }

    fn encode_value(&self, dst: &mut BytesMut) {
        assert(bytes_mut_seq(dst) =~= bytes_mut_seq(dst) + Seq::<u8>::empty());
    }

    fn encoded_len(&self, tag: u32) -> (n: usize) {
        let ghost m = self.entries();
        let key_default = K::default();
        let val_default = V::default();
        proof {
            K::default_is_zero(key_default);
            V::default_is_zero(val_default);
        }
        let mut total: usize = 0;
        let mut i: usize = 0;
        while i < self.entries.len()
            invariant
                m == self.entries(),
                tag <= MAX_TAG,
                key_default.model() == K::zero(),
                val_default.model() == V::zero(),
                i <= self.entries@.len(),
                total == entry_fields::<K, V>(m.take(i as int), tag).len(),
                entry_fields::<K, V>(m, tag).len() <= usize::MAX,
            decreases self.entries@.len() - i,
        {
            let ghost k = m[i as int].0;
            let ghost v = m[i as int].1;
            proof {
                assert(m[i as int] == (
                    self.entries@[i as int].0.model(),
                    self.entries@[i as int].1.model(),
                ));
                lemma_entry_prefix::<K, V>(m, tag, i as int);
                assert(m.take(i + 1).drop_last() =~= m.take(i as int));
                lemma_varint_len(entry_body::<K, V>(k, v).len());
            }
            let item = &self.entries[i];
            let len = item.0.serialized_len(1, DefaultValue::Value(&key_default))
                + item.1.serialized_len(2, DefaultValue::Value(&val_default));
            total += key_len(tag) + encoded_len_varint(len as u64) + len;
            i += 1;
        }
        assert(m.take(i as int) =~= m);
        total
    }

    fn serialize(&self, tag: u32, default: DefaultValue<&Self>, dst: &mut BytesMut) {
        let suppress = match default {
            DefaultValue::Unknown => false,
            DefaultValue::Default => self.is_default(),
            DefaultValue::Value(d) => self.is_same(d),
        };
        let ghost m = self.entries();
        let ghost start = bytes_mut_seq(dst);
        if suppress {
            assert(start =~= start + Seq::<u8>::empty());
            return ;
        }
        let key_default = K::default();
        let val_default = V::default();
        proof {
            K::default_is_zero(key_default);
            V::default_is_zero(val_default);
        }
        let mut i: usize = 0;
        assert(start =~= start + entry_fields::<K, V>(m.take(0), tag));
        while i < self.entries.len()
            invariant
                m == self.entries(),
                MIN_TAG <= tag <= MAX_TAG,
                key_default.model() == K::zero(),
                val_default.model() == V::zero(),
                i <= self.entries@.len(),
                bytes_mut_seq(dst) == start + entry_fields::<K, V>(m.take(i as int), tag),
                start.len() + entry_fields::<K, V>(m, tag).len() <= BUF_LIMIT,
            decreases self.entries@.len() - i,
        {
            let ghost k = m[i as int].0;
            let ghost v = m[i as int].1;
            let ghost before = bytes_mut_seq(dst);
            proof {
                assert(m[i as int] == (
                    self.entries@[i as int].0.model(),
                    self.entries@[i as int].1.model(),
                ));
                lemma_entry_prefix::<K, V>(m, tag, i as int);
                assert(m.take(i + 1).drop_last() =~= m.take(i as int));
                lemma_varint_len(entry_body::<K, V>(k, v).len());
            }
            let item = &self.entries[i];
            let len = item.0.serialized_len(1, DefaultValue::Value(&key_default))
                + item.1.serialized_len(2, DefaultValue::Value(&val_default));
            encode_key(tag, WireType::LengthDelimited, dst);
            encode_varint(len as u64, dst);
            item.0.serialize(1, DefaultValue::Value(&key_default), dst);
            item.1.serialize(2, DefaultValue::Value(&val_default), dst);
            assert(bytes_mut_seq(dst) =~= before + entry_field::<K, V>(k, v, tag));
            assert(bytes_mut_seq(dst) =~= start + entry_fields::<K, V>(m.take(i + 1), tag));
            i += 1;
        }
        assert(m.take(i as int) =~= m);
    }

    fn serialized_len(&self, tag: u32, default: DefaultValue<&Self>) -> (n: usize) {
        let suppress = match default {
            DefaultValue::Unknown => false,
            DefaultValue::Default => self.is_default(),
            DefaultValue::Value(d) => self.is_same(d),
        };
        if suppress {
            0
        } else {
            self.encoded_len(tag)
        }
    }

    /// Reading an entry leaves no key twice where none was there twice.
    fn deserialize(&mut self, tag: u32, wtype: WireType, src: &mut Bytes) -> (r: Result<
        (),
        DecodeError,
    >)
        ensures
            distinct_keys(old(self).entries()) ==> distinct_keys(final(self).entries()),
    {
        let ghost left = Self::refused(self.model(), wtype, bytes_seq(src));
        let ghost pre = self.entries();
        let ghost s = bytes_seq(src);
        match check_wire_type(WireType::LengthDelimited, wtype) {
            Ok(_) => {},
            Err(e) => {
                assert(s.skip(0) =~= s);
                return Err(e);
            },
        }
        proof {
            if varint_parse(s).is_some() {
                lemma_varint_tail_bounds(s, 0);
            }
        }
        let len = match decode_varint(src) {
            Ok(len) => len,
            Err(e) => {
                return Err(e);
            },
        };
        let have = bytes_len(src);
        if len > have as u64 {
            let mut text = String::from_str("Not enough data for HashMap, message size ");
            push_decimal(&mut text, len as u128);
            text.append(", buf size ");
            push_decimal(&mut text, have as u128);
            return Err(DecodeError::new(text.as_str()));
        }
        let ghost n = varint_parse(s).unwrap().1;
        let mut buf = match bytes_split_to_checked(src, len as usize) {
            Some(buf) => buf,
            None => {
                return Err(DecodeError::incomplete());
            },
        };
        let ghost body = bytes_seq(&buf);
        assert(body =~= s.subrange(n as int, n + len));
        assert(bytes_seq(src) =~= s.skip(n + len));
        assert(entry_cut(wtype, s) == Ok::<(Seq<u8>, nat), Failure>((body, n + len as nat)));
        let mut key = K::default();
        let mut val = V::default();
        proof {
            K::default_is_zero(key);
            V::default_is_zero(val);
        }
        while !bytes_is_empty(&buf)
            invariant
                entry_read::<K, V>(K::zero(), V::zero(), body) == entry_read::<K, V>(
                    key.model(),
                    val.model(),
                    bytes_seq(&buf),
                ),
                pre == old(self).entries(),
                self.entries() == pre,
                s == bytes_seq(old(src)),
                n + len <= s.len(),
                bytes_seq(src) == s.skip(n + len),
                entry_cut(wtype, s) == Ok::<(Seq<u8>, nat), Failure>((body, n + len as nat)),
            decreases bytes_seq(&buf).len(),
        {
            let ghost cur = bytes_seq(&buf);
            proof {
                if varint_parse(cur).is_some() {
                    lemma_varint_tail_bounds(cur, 0);
                }
            }
            let (tag, wire_type) = match decode_key(&mut buf) {
                Ok(key) => key,
                Err(e) => {
                    return Err(e);
                },
            };
            let ghost k = varint_consumed(cur);
            let ghost rest = cur.skip(k as int);
            if tag == 1 {
                match NativeType::deserialize(&mut key, 1, wire_type, &mut buf) {
                    Ok(_) => {},
                    Err(e) => {
                        return Err(e);
                    },
                }
            } else if tag == 2 {
                match NativeType::deserialize(&mut val, 2, wire_type, &mut buf) {
                    Ok(_) => {},
                    Err(e) => {
                        return Err(e);
                    },
                }
            } else {
                return Err(DecodeError::new("Map deserialization error"));
            }
            proof {
                let taken = (rest.len() - bytes_seq(&buf).len()) as nat;
                assert(rest.skip(taken as int) =~= cur.skip((k + taken) as int));
            }
        }
        self.insert(key, val);
        Ok(())
    }
}

/// The first entries take no more bytes than all of them.
pub proof fn lemma_entry_prefix<K: NativeType, V: NativeType>(
    entries: Seq<(K::Model, V::Model)>,
    tag: u32,
    i: int,
)
    requires
        0 <= i <= entries.len(),
    ensures
        entry_fields::<K, V>(entries.take(i), tag).len() <= entry_fields::<K, V>(
            entries,
            tag,
        ).len(),
        i < entries.len() ==> entry_fields::<K, V>(entries.take(i), tag).len() + entry_field::<
            K,
            V,
        >(entries[i].0, entries[i].1, tag).len() <= entry_fields::<K, V>(entries, tag).len(),
    decreases entries.len() - i,
{
    if i < entries.len() {
        lemma_entry_prefix::<K, V>(entries, tag, i + 1);
        assert(entries.take(i + 1).drop_last() =~= entries.take(i));
    } else {
        assert(entries.take(i) =~= entries);
    }
}

/// A map field is written with the length-delimited wire type.
pub proof fn lemma_map_type<K: NativeType, V: NativeType>()
    ensures
        <MapField<K, V> as NativeType>::TYPE == WireType::LengthDelimited,
{
}

} // verus!
