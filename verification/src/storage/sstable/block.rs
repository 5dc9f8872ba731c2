use vstd::prelude::*;

use crate::constants::{SSTABLE_DEFAULT_BLOCK_LEN, SSTABLE_VALUE_KIND_PUT, SSTABLE_VALUE_KIND_TOMBSTONE};
use crate::error::{EngineError, Result};
use crate::format::{copy_bytes, lemma_le_round_trip, push_bytes, take_error, u32_at, u32_le, Decoder};
use crate::index::{bytes_lt, compare_bytes, lookup, sorted_keys, ByteOrder, EntriesView, Key, Value, ValueView};

verus! {

/// Bytes before an entry's key: key length, value kind, value length.
pub const ENTRY_HEADER_LEN: usize = 9;

/// An entry as a block stores it: key, value kind, value bytes.
pub type RawEntry = (Seq<u8>, u8, Seq<u8>);

/// The bytes of one entry: `u32` key length, kind byte, `u32` value length,
/// key, value.
pub open spec fn entry_bytes(e: RawEntry) -> Seq<u8> {
    u32_le(e.0.len() as u32) + seq![e.1] + u32_le(e.2.len() as u32) + e.0 + e.2
}

/// The bytes of entries, one after the other.
pub open spec fn entries_bytes(es: Seq<RawEntry>) -> Seq<u8>
    decreases es.len(),
{
    if es.len() == 0 {
        Seq::empty()
    } else {
        entry_bytes(es[0]) + entries_bytes(es.drop_first())
    }
}

/// The bytes of a block: the number of entries, then the entries.
pub open spec fn block_bytes(es: Seq<RawEntry>) -> Seq<u8> {
    u32_le(es.len() as u32) + entries_bytes(es)
}

/// Both lengths of an entry fit their 32-bit fields.
pub open spec fn entry_fits(e: RawEntry) -> bool {
    e.0.len() <= u32::MAX && e.2.len() <= u32::MAX
}

/// The kind byte a value is stored under.
pub open spec fn kind_of(v: ValueView) -> u8 {
    match v {
        ValueView::Put(_) => SSTABLE_VALUE_KIND_PUT,
        ValueView::Tombstone => SSTABLE_VALUE_KIND_TOMBSTONE,
    }
}

/// The bytes a value is stored with.
pub open spec fn payload_of(v: ValueView) -> Seq<u8> {
    match v {
        ValueView::Put(bytes) => bytes,
        ValueView::Tombstone => Seq::empty(),
    }
}

/// The value a stored entry stands for; `None` for an unknown kind.
pub open spec fn value_of(kind: u8, bytes: Seq<u8>) -> Option<ValueView> {
    if kind == SSTABLE_VALUE_KIND_PUT {
        Some(ValueView::Put(bytes))
    } else if kind == SSTABLE_VALUE_KIND_TOMBSTONE {
        Some(ValueView::Tombstone)
    } else {
        None
    }
}

/// The key and value that stored entries stand for.
pub open spec fn decoded_entries(es: Seq<RawEntry>) -> EntriesView {
    Seq::new(es.len(), |i: int| (es[i].0, value_of(es[i].1, es[i].2).unwrap()))
}

/// Every entry has a known kind and fits its length fields.
pub open spec fn valid_entries(es: Seq<RawEntry>) -> bool {
    forall|i: int| 0 <= i < es.len() ==> #[trigger] entry_fits(es[i]) && value_of(es[i].1, es[i].2) is Some
}

/// The entry stored at `p` in `s` and where the next one starts, or the
/// fault met while reading it.
pub open spec fn parse_entry(s: Seq<u8>, p: int) -> Result<(RawEntry, int)> {
    if p + 4 > s.len() {
        Err(take_error(p, 4))
    } else if p + 4 == s.len() {
        Err(EngineError::CorruptFormat("truncated u8"))
    } else if p + 9 > s.len() {
        Err(take_error(p + 5, 4))
    } else if p + 9 + u32_at(s, p) > s.len() {
        Err(take_error(p + 9, u32_at(s, p) as int))
    } else if p + 9 + u32_at(s, p) + u32_at(s, p + 5) > s.len() {
        Err(take_error(p + 9 + u32_at(s, p), u32_at(s, p + 5) as int))
    } else {
        let k = u32_at(s, p) as int;
        let v = u32_at(s, p + 5) as int;
        Ok(((s.subrange(p + 9, p + 9 + k), s[p + 4], s.subrange(p + 9 + k, p + 9 + k + v)), p + 9 + k + v))
    }
}

/// Looking `key` up among the `n` entries stored from `p` on: the first
/// entry with the key decides, an entry with a greater key ends the search.
pub open spec fn block_scan(s: Seq<u8>, p: int, n: nat, key: Seq<u8>) -> Result<Option<ValueView>>
    decreases n,
{
    if n == 0 {
        Ok(None)
    } else {
        match parse_entry(s, p) {
            Err(e) => Err(e),
            Ok((e, q)) => if e.0 == key {
                match value_of(e.1, e.2) {
                    Some(v) => Ok(Some(v)),
                    None => Err(EngineError::CorruptFormat("unknown value kind")),
                }
            } else if bytes_lt(key, e.0) {
                Ok(None)
            } else {
                block_scan(s, q, (n - 1) as nat, key)
            },
        }
    }
}

/// What looking `key` up in the block `s` gives.
pub open spec fn block_get(s: Seq<u8>, key: Seq<u8>) -> Result<Option<ValueView>> {
    if s.len() < 4 {
        Err(take_error(0, 4))
    } else {
        block_scan(s, 4, u32_at(s, 0) as nat, key)
    }
}

/// The `n` entries stored from `p` on, or the first fault.
pub open spec fn block_list(s: Seq<u8>, p: int, n: nat) -> Result<EntriesView>
    decreases n,
{
    if n == 0 {
        Ok(Seq::empty())
    } else {
        match parse_entry(s, p) {
            Err(e) => Err(e),
            Ok((e, q)) => match value_of(e.1, e.2) {
                None => Err(EngineError::CorruptFormat("unknown value kind")),
                Some(v) => match block_list(s, q, (n - 1) as nat) {
                    Ok(rest) => Ok(seq![(e.0, v)] + rest),
                    Err(err) => Err(err),
                },
            },
        }
    }
}

/// All entries of the block `s`, or the first fault.
pub open spec fn block_entries(s: Seq<u8>) -> Result<EntriesView> {
    if s.len() < 4 {
        Err(take_error(0, 4))
    } else {
        block_list(s, 4, u32_at(s, 0) as nat)
    }
}

/// Appending an entry appends its bytes.
pub proof fn lemma_entries_bytes_push(es: Seq<RawEntry>, e: RawEntry)
    ensures
        entries_bytes(es.push(e)) == entries_bytes(es) + entry_bytes(e),
    decreases es.len(),
{
    if es.len() == 0 {
        let t = es.push(e);
        assert(t.drop_first() =~= Seq::<RawEntry>::empty());
        assert(entries_bytes(t.drop_first()) == Seq::<u8>::empty());
        assert(t[0] == e);
        assert(entries_bytes(t) =~= entry_bytes(e));
        assert(entries_bytes(es) == Seq::<u8>::empty());
        assert(entries_bytes(es) + entry_bytes(e) =~= entry_bytes(e));
    } else {
        lemma_entries_bytes_push(es.drop_first(), e);
        assert(es.push(e).drop_first() =~= es.drop_first().push(e));
        assert(entries_bytes(es.push(e)) =~= entries_bytes(es) + entry_bytes(e));
    }
}

/// An entry's bytes are as long as its header, key and value.
pub proof fn lemma_entry_bytes_len(e: RawEntry)
    ensures
        entry_bytes(e).len() == 9 + e.0.len() + e.2.len(),
{
    lemma_le_round_trip();
}

/// An entry's bytes, found at `p` in `s`, read back as the entry.
proof fn lemma_parse_entry_at(s: Seq<u8>, p: int, e: RawEntry)
    requires
        0 <= p,
        entry_fits(e),
        p + entry_bytes(e).len() <= s.len(),
        s.subrange(p, p + entry_bytes(e).len()) == entry_bytes(e),
    ensures
        parse_entry(s, p) == Ok::<(RawEntry, int), EngineError>((e, p + entry_bytes(e).len())),
{
    lemma_le_round_trip();
    let eb = entry_bytes(e);
    let k = e.0.len() as int;
    let v = e.2.len() as int;
    assert(eb.len() == 9 + k + v);
    let whole = s.subrange(p, p + eb.len());
    assert(whole == eb);
    assert(s.subrange(p, p + 4) =~= whole.subrange(0, 4));
    assert(eb.subrange(0, 4) =~= u32_le(k as u32).subrange(0, 4));
    assert(u32_at(s, p) == k);
    assert(s[p + 4] == whole[4]);
    assert(s.subrange(p + 5, p + 9) =~= whole.subrange(5, 9));
    assert(eb.subrange(5, 9) =~= u32_le(v as u32).subrange(0, 4));
    assert(u32_at(s, p + 5) == v);
    assert(s.subrange(p + 9, p + 9 + k) =~= whole.subrange(9, 9 + k));
    assert(s.subrange(p + 9 + k, p + 9 + k + v) =~= whole.subrange(9 + k, 9 + k + v));
    assert(s.subrange(p + 9, p + 9 + k) =~= e.0);
    assert(s.subrange(p + 9 + k, p + 9 + k + v) =~= e.2);
}

/// Reading `n` entries at `p`, where the bytes of `es` lie, gives `es`.
proof fn lemma_block_list(s: Seq<u8>, p: int, es: Seq<RawEntry>)
    requires
        0 <= p,
        valid_entries(es),
        p + entries_bytes(es).len() <= s.len(),
        s.subrange(p, p + entries_bytes(es).len()) == entries_bytes(es),
    ensures
        block_list(s, p, es.len()) == Ok::<EntriesView, EngineError>(decoded_entries(es)),
    decreases es.len(),
{
    if es.len() > 0 {
        let e = es[0];
        let rest = es.drop_first();
        let eb = entry_bytes(e);
        let rb = entries_bytes(rest);
        assert(entries_bytes(es) == eb + rb);
        assert(entry_fits(es[0]));
        let whole = s.subrange(p, p + entries_bytes(es).len());
        assert(whole == eb + rb);
        assert(s.subrange(p, p + eb.len()) =~= whole.subrange(0, eb.len() as int));
        assert(whole.subrange(0, eb.len() as int) =~= eb);
        lemma_parse_entry_at(s, p, e);
        assert(s.subrange(p + eb.len(), p + eb.len() + rb.len()) =~= whole.subrange(
            eb.len() as int,
            (eb.len() + rb.len()) as int,
        ));
        assert(whole.subrange(eb.len() as int, (eb.len() + rb.len()) as int) =~= rb);
        assert forall|i: int| 0 <= i < rest.len() implies #[trigger] entry_fits(rest[i]) && value_of(rest[i].1, rest[i].2) is Some by {
            assert(rest[i] == es[i + 1]);
            assert(entry_fits(es[i + 1]));
        }
        lemma_block_list(s, p + eb.len(), rest);
        assert(decoded_entries(es) =~= seq![(e.0, value_of(e.1, e.2).unwrap())] + decoded_entries(rest));
    } else {
        assert(decoded_entries(es) =~= Seq::<(Seq<u8>, ValueView)>::empty());
    }
}

/// Looking a key up among stored entries in increasing key order gives what
/// the entries hold for the key.
proof fn lemma_block_scan(s: Seq<u8>, p: int, es: Seq<RawEntry>, key: Seq<u8>)
    requires
        0 <= p,
        valid_entries(es),
        sorted_keys(decoded_entries(es)),
        p + entries_bytes(es).len() <= s.len(),
        s.subrange(p, p + entries_bytes(es).len()) == entries_bytes(es),
    ensures
        block_scan(s, p, es.len(), key) == Ok::<Option<ValueView>, EngineError>(lookup(decoded_entries(es), key)),
    decreases es.len(),
{
    let d = decoded_entries(es);
    crate::index::lemma_lookup_sorted(d, key);
    if es.len() > 0 {
        let e = es[0];
        let rest = es.drop_first();
        let eb = entry_bytes(e);
        let rb = entries_bytes(rest);
        assert(entries_bytes(es) == eb + rb);
        assert(entry_fits(es[0]));
        let whole = s.subrange(p, p + entries_bytes(es).len());
        assert(whole == eb + rb);
        assert(s.subrange(p, p + eb.len()) =~= whole.subrange(0, eb.len() as int));
        assert(whole.subrange(0, eb.len() as int) =~= eb);
        lemma_parse_entry_at(s, p, e);
        assert(value_of(es[0].1, es[0].2) is Some);
        if e.0 == key {
            assert(d[0].0 == key);
        } else if bytes_lt(key, e.0) {
            crate::index::lemma_bytes_lt_order();
            assert forall|i: int| 0 <= i < d.len() implies d[i].0 != key by {
                if i > 0 {
                    assert(bytes_lt(d[0].0, d[i].0));
                }
            }
        } else {
            assert(s.subrange(p + eb.len(), p + eb.len() + rb.len()) =~= whole.subrange(
                eb.len() as int,
                (eb.len() + rb.len()) as int,
            ));
            assert(whole.subrange(eb.len() as int, (eb.len() + rb.len()) as int) =~= rb);
            assert forall|i: int| 0 <= i < rest.len() implies #[trigger] entry_fits(rest[i]) && value_of(rest[i].1, rest[i].2) is Some by {
                assert(rest[i] == es[i + 1]);
                assert(entry_fits(es[i + 1]));
            }
            let dr = decoded_entries(rest);
            assert(dr =~= d.drop_first());
            assert forall|i: int, j: int| 0 <= i < j < dr.len() implies bytes_lt(#[trigger] dr[i].0, #[trigger] dr[j].0) by {
                assert(dr[i] == d[i + 1]);
                assert(dr[j] == d[j + 1]);
            }
            lemma_block_scan(s, p + eb.len(), rest, key);
            crate::index::lemma_lookup_sorted(dr, key);
            assert(d[0].0 != key);
            if exists|i: int| 0 <= i < d.len() && (#[trigger] d[i]).0 == key {
                let i = choose|i: int| 0 <= i < d.len() && (#[trigger] d[i]).0 == key;
                assert(i > 0);
                assert(dr[i - 1] == d[i]);
            } else {
                assert forall|i: int| 0 <= i < dr.len() implies (#[trigger] dr[i]).0 != key by {
                    assert(dr[i] == d[i + 1]);
                }
            }
        }
    }
}

/// A block reads back the entries it was built from, and a lookup in it
/// gives what those entries hold for the key, when the entries come in
/// increasing key order.
pub proof fn lemma_block_round_trip(es: Seq<RawEntry>, key: Seq<u8>)
    requires
        valid_entries(es),
        es.len() <= u32::MAX,
    ensures
        block_entries(block_bytes(es)) == Ok::<EntriesView, EngineError>(decoded_entries(es)),
        sorted_keys(decoded_entries(es)) ==> block_get(block_bytes(es), key) == Ok::<Option<ValueView>, EngineError>(
            lookup(decoded_entries(es), key),
        ),
{
    lemma_le_round_trip();
    let s = block_bytes(es);
    let h = u32_le(es.len() as u32);
    let eb = entries_bytes(es);
    assert(s.subrange(0, 4) =~= h.subrange(0, 4));
    assert(u32_at(s, 0) == es.len());
    assert(s.subrange(4, 4 + eb.len() as int) =~= eb);
    lemma_block_list(s, 4, es);
    if sorted_keys(decoded_entries(es)) {
        lemma_block_scan(s, 4, es, key);
    }
}

/// A block of encoded entries.
#[derive(Debug, PartialEq, Eq)]
pub struct Block {
    bytes: Vec<u8>,
}

impl View for Block {
    type V = Seq<u8>;

    closed spec fn view(&self) -> Seq<u8> {
        self.bytes@
    }
}

/// A block and the key of its first entry.
#[derive(Debug, PartialEq, Eq)]
pub struct BuiltBlock {
    pub first_key: Vec<u8>,
    pub block: Block,
}

/// Collects entries into a block of bounded length.
pub struct BlockBuilder {
    first_key: Option<Vec<u8>>,
    bytes: Vec<u8>,
    entry_count: u32,
    max_len: usize,
    entries: Ghost<Seq<RawEntry>>,
}

/// Whether `len` more bytes fit after `used` within `max`, without overflow.
fn fits_within(used: usize, len_a: usize, len_b: usize, max: usize) -> (r: bool)
    ensures
        r == (used + ENTRY_HEADER_LEN + len_a + len_b <= max),
{
    if len_a > max || len_b > max || used > max {
        return false;
    }
    let rest = max - used;
    if ENTRY_HEADER_LEN > rest {
        return false;
    }
    let rest = rest - ENTRY_HEADER_LEN;
    if len_a > rest {
        return false;
    }
    let rest = rest - len_a;
    len_b <= rest
}

impl BlockBuilder {
    /// The entries added so far, in order.
    pub closed spec fn entries(&self) -> Seq<RawEntry> {
        self.entries@
    }

    /// The longest the block may grow.
    pub closed spec fn max_len(&self) -> nat {
        self.max_len as nat
    }

    /// The builder's bytes are a zero count followed by its entries, the
    /// count and first key agree with the entries.
    pub closed spec fn wf(&self) -> bool {
        &&& self.bytes@ == u32_le(0) + entries_bytes(self.entries@)
        &&& self.entry_count == self.entries@.len()
        &&& (self.entries@.len() == 0 <==> self.first_key is None)
        &&& (self.first_key matches Some(k) ==> k@ == self.entries@[0].0)
        &&& valid_entries(self.entries@)
    }

    /// An empty builder with the default block length.
    pub fn new() -> (b: Self)
        ensures
            b.wf(),
            b.entries() == Seq::<RawEntry>::empty(),
            b.max_len() == SSTABLE_DEFAULT_BLOCK_LEN,
    {
        let bytes = vstd::bytes::u32_to_le_bytes(0);
        proof {
            assert(bytes@ =~= u32_le(0) + entries_bytes(Seq::<RawEntry>::empty()));
        }
        BlockBuilder {
            first_key: None,
            bytes,
            entry_count: 0,
            max_len: SSTABLE_DEFAULT_BLOCK_LEN,
            entries: Ghost(Seq::empty()),
        }
    }

    /// Whether an entry for `key` and `value` still fits in the block.
    pub fn can_add(&self, key: &[u8], value: &[u8]) -> (r: bool)
        requires
            self.wf(),
        ensures
            r == (4 + entries_bytes(self.entries()).len() + ENTRY_HEADER_LEN + key@.len() + value@.len() <= self.max_len()),
    {
        proof {
            lemma_le_round_trip();
        }
        fits_within(self.bytes.len(), key.len(), value.len(), self.max_len)
    }

    /// Whether an entry for `key` and a memtable value still fits.
    pub fn can_add_value(&self, key: &[u8], value: &Value) -> (r: bool)
        requires
            self.wf(),
        ensures
            r == (4 + entries_bytes(self.entries()).len() + ENTRY_HEADER_LEN + key@.len() + payload_of(value@).len() <= self.max_len()),
    {
        proof {
            lemma_le_round_trip();
        }
        match value {
            Value::Put(bytes) => fits_within(self.bytes.len(), key.len(), bytes.len(), self.max_len),
            Value::Tombstone => fits_within(self.bytes.len(), key.len(), 0, self.max_len),
        }
    }

    /// Appends an entry for `key` with `value` as a stored value.
    pub fn add(&mut self, key: &[u8], value: &[u8])
        requires
            old(self).wf(),
            key@.len() <= u32::MAX,
            value@.len() <= u32::MAX,
            old(self).entries().len() < u32::MAX,
        ensures
            final(self).wf(),
            final(self).max_len() == old(self).max_len(),
            final(self).entries() == old(self).entries().push((key@, SSTABLE_VALUE_KIND_PUT, value@)),
    {
        self.add_encoded(key, SSTABLE_VALUE_KIND_PUT, value);
    }

    /// Appends an entry for `key` with a memtable value: its bytes, or an
    /// empty tombstone entry.
    pub fn add_value(&mut self, key: &[u8], value: &Value)
        requires
            old(self).wf(),
            key@.len() <= u32::MAX,
            payload_of(value@).len() <= u32::MAX,
            old(self).entries().len() < u32::MAX,
        ensures
            final(self).wf(),
            final(self).max_len() == old(self).max_len(),
            final(self).entries() == old(self).entries().push((key@, kind_of(value@), payload_of(value@))),
    {
        match value {
            Value::Put(bytes) => self.add_encoded(key, SSTABLE_VALUE_KIND_PUT, bytes.as_slice()),
            Value::Tombstone => {
                let empty: [u8; 0] = [];
                assert(empty@ =~= Seq::<u8>::empty());
                self.add_encoded(key, SSTABLE_VALUE_KIND_TOMBSTONE, &empty);
            },
        }
    }

    fn add_encoded(&mut self, key: &[u8], value_kind: u8, value: &[u8])
        requires
            old(self).wf(),
            key@.len() <= u32::MAX,
            value@.len() <= u32::MAX,
            old(self).entries().len() < u32::MAX,
            value_of(value_kind, value@) is Some,
        ensures
            final(self).wf(),
            final(self).max_len() == old(self).max_len(),
            final(self).entries() == old(self).entries().push((key@, value_kind, value@)),
    {
        let ghost e: RawEntry = (key@, value_kind, value@);
        if self.first_key.is_none() {
            self.first_key = Some(copy_bytes(key));
        }
        let key_len = vstd::bytes::u32_to_le_bytes(key.len() as u32);
        push_bytes(&mut self.bytes, key_len.as_slice());
        self.bytes.push(value_kind);
        let value_len = vstd::bytes::u32_to_le_bytes(value.len() as u32);
        push_bytes(&mut self.bytes, value_len.as_slice());
        push_bytes(&mut self.bytes, key);
        push_bytes(&mut self.bytes, value);
        self.entry_count = self.entry_count + 1;
        proof {
            let old_entries = self.entries@;
            lemma_entries_bytes_push(old_entries, e);
            self.entries = Ghost(old_entries.push(e));
            assert(self.bytes@ =~= u32_le(0) + entries_bytes(self.entries@));
            assert(self.entries@[0] == if old_entries.len() == 0 { e } else { old_entries[0] });
            assert forall|i: int| 0 <= i < self.entries@.len() implies #[trigger] entry_fits(self.entries@[i]) && value_of(
                self.entries@[i].1,
                self.entries@[i].2,
            ) is Some by {
                if i < old_entries.len() {
                    assert(self.entries@[i] == old_entries[i]);
                }
            }
        }
    }

    /// The finished block, with its entry count written in front, and its
    /// first key; `None` when no entry was added.
    pub fn build(self) -> (r: Option<BuiltBlock>)
        requires
            self.wf(),
        ensures
            self.entries().len() == 0 ==> r is None,
            self.entries().len() > 0 ==> (r matches Some(b) && b.first_key@ == self.entries()[0].0 && b.block@ == block_bytes(self.entries())),
            valid_entries(self.entries()),
            self.entries().len() <= u32::MAX,
            r matches Some(b) ==> block_entries(b.block@) == Ok::<EntriesView, EngineError>(decoded_entries(self.entries())),
            r matches Some(b) ==> forall|key: Seq<u8>|
                sorted_keys(decoded_entries(self.entries())) ==> #[trigger] block_get(b.block@, key) == Ok::<
                    Option<ValueView>,
                    EngineError,
                >(lookup(decoded_entries(self.entries()), key)),
    {
        proof {
            assert forall|key: Seq<u8>|
                sorted_keys(decoded_entries(self.entries())) implies #[trigger] block_get(block_bytes(self.entries()), key) == Ok::<
                    Option<ValueView>,
                    EngineError,
                >(lookup(decoded_entries(self.entries()), key)) by {
                lemma_block_round_trip(self.entries(), key);
            }
            lemma_block_round_trip(self.entries(), Seq::empty());
        }
        let BlockBuilder { first_key, bytes, entry_count, max_len, entries } = self;
        let first_key = match first_key {
            Some(k) => k,
            None => {
                return None;
            },
        };
        let count = vstd::bytes::u32_to_le_bytes(entry_count);
        let mut out: Vec<u8> = Vec::new();
        push_bytes(&mut out, count.as_slice());
        let mut i: usize = 4;
        proof {
            lemma_le_round_trip();
        }
        while i < bytes.len()
            invariant
                4 <= i <= bytes@.len(),
                bytes@.len() >= 4,
                out@ =~= u32_le(entry_count) + bytes@.subrange(4, i as int),
            decreases bytes@.len() - i,
        {
            out.push(bytes[i]);
            i = i + 1;
        }
        proof {
            assert(bytes@.subrange(4, bytes@.len() as int) =~= entries_bytes(entries@));
        }
        Some(BuiltBlock { first_key, block: Block { bytes: out } })
    }

    /// The length the block has so far, count field included.
    pub fn len(&self) -> (r: usize)
        requires
            self.wf(),
        ensures
            r == 4 + entries_bytes(self.entries()).len(),
    {
        proof {
            lemma_le_round_trip();
        }
        self.bytes.len()
    }

    /// Whether no entry was added.
    pub fn is_empty(&self) -> (r: bool)
        requires
            self.wf(),
        ensures
            r == (self.entries().len() == 0),
    {
        self.entry_count == 0
    }
}

impl Default for BlockBuilder {
    /// An empty builder with the default block length.
    fn default() -> (b: Self)
        ensures
            b.wf(),
            b.entries() == Seq::<RawEntry>::empty(),
            b.max_len() == SSTABLE_DEFAULT_BLOCK_LEN,
    {
        BlockBuilder::new()
    }
}

/// Reads the entry at the decoder's cursor: key, kind, value.
fn read_entry<'a>(decoder: &mut Decoder<'a>) -> (r: Result<(&'a [u8], u8, &'a [u8])>)
    ensures
        final(decoder).data() == old(decoder).data(),
        match parse_entry(old(decoder).data(), old(decoder).pos()) {
            Ok((e, q)) => r matches Ok((k, kind, v)) && k@ == e.0 && kind == e.1 && v@ == e.2 && final(decoder).pos() == q,
            Err(err) => r == Err::<(&'a [u8], u8, &'a [u8]), EngineError>(err),
        },
{
    let ghost s = decoder.data();
    let ghost p = decoder.pos();
    let key_len = decoder.read_u32()? as usize;
    let value_kind = decoder.read_u8()?;
    let value_len = decoder.read_u32()? as usize;
    let key = decoder.read_bytes(key_len)?;
    let value = decoder.read_bytes(value_len)?;
    Ok((key, value_kind, value))
}

/// The memtable value for a stored kind and bytes.
fn make_value(kind: u8, bytes: &[u8]) -> (r: Result<Value>)
    ensures
        match value_of(kind, bytes@) {
            Some(v) => r matches Ok(x) && x@ == v,
            None => r == Err::<Value, EngineError>(EngineError::CorruptFormat("unknown value kind")),
        },
{
    if kind == SSTABLE_VALUE_KIND_PUT {
        Ok(Value::Put(copy_bytes(bytes)))
    } else if kind == SSTABLE_VALUE_KIND_TOMBSTONE {
        Ok(Value::Tombstone)
    } else {
        Err(EngineError::CorruptFormat("unknown value kind"))
    }
}

impl Block {
    /// The block's bytes.
    pub fn as_bytes(&self) -> (r: &[u8])
        ensures
            r@ == self@,
    {
        self.bytes.as_slice()
    }

    /// A block holding `bytes`.
    pub fn from_bytes(bytes: Vec<u8>) -> (b: Self)
        ensures
            b@ == bytes@,
    {
        Block { bytes }
    }

    /// Looks `key` up: the value of the first entry with the key, `None`
    /// once an entry with a greater key or the end is reached.
    pub fn get(&self, key: &Key) -> (r: Result<Option<Value>>)
        ensures
            match block_get(self@, key@) {
                Ok(Some(v)) => r matches Ok(Some(x)) && x@ == v,
                Ok(None) => r matches Ok(None),
                Err(e) => r == Err::<Option<Value>, EngineError>(e),
            },
    {
        let mut decoder = Decoder::new(self.bytes.as_slice());
        let entry_count = decoder.read_u32()?;
        let ghost s = self@;
        let mut i: u32 = 0;
        while i < entry_count
            invariant
                s == self@,
                s.len() >= 4,
                entry_count == u32_at(s, 0),
                decoder.data() == s,
                i <= entry_count,
                block_get(s, key@) == block_scan(s, decoder.pos(), (entry_count - i) as nat, key@),
            decreases entry_count - i,
        {
            let (entry_key, value_kind, value_bytes) = read_entry(&mut decoder)?;
            match compare_bytes(entry_key, key.as_bytes()) {
                ByteOrder::Equal => {
                    let value = make_value(value_kind, value_bytes)?;
                    return Ok(Some(value));
                },
                ByteOrder::Greater => {
                    proof {
                        crate::index::lemma_bytes_lt_total(entry_key@, key@);
                    }
                    return Ok(None);
                },
                ByteOrder::Less => {
                    proof {
                        crate::index::lemma_bytes_lt_total(entry_key@, key@);
                    }
                },
            }
            i = i + 1;
        }
        Ok(None)
    }

    /// All entries of the block, in stored order.
    pub fn entries(&self) -> (r: Result<Vec<(Key, Value)>>)
        ensures
            match block_entries(self@) {
                Ok(es) => r matches Ok(v) && v@.len() == es.len() && forall|i: int|
                    0 <= i < es.len() ==> (#[trigger] v@[i]).0@ == es[i].0 && v@[i].1@ == es[i].1,
                Err(e) => r == Err::<Vec<(Key, Value)>, EngineError>(e),
            },
    {
        let mut decoder = Decoder::new(self.bytes.as_slice());
        let entry_count = decoder.read_u32()?;
        let ghost s = self@;
        let mut out: Vec<(Key, Value)> = Vec::new();
        let ghost mut acc: EntriesView = Seq::empty();
        let mut i: u32 = 0;
        while i < entry_count
            invariant
                s == self@,
                s.len() >= 4,
                entry_count == u32_at(s, 0),
                decoder.data() == s,
                i <= entry_count,
                out@.len() == acc.len(),
                forall|j: int| 0 <= j < acc.len() ==> (#[trigger] out@[j]).0@ == acc[j].0 && out@[j].1@ == acc[j].1,
                block_entries(s) == match block_list(s, decoder.pos(), (entry_count - i) as nat) {
                    Ok(rest) => Ok::<EntriesView, EngineError>(acc + rest),
                    Err(e) => Err(e),
                },
            decreases entry_count - i,
        {
            let (entry_key, value_kind, value_bytes) = read_entry(&mut decoder)?;
            let value = make_value(value_kind, value_bytes)?;
            let key = Key::new(copy_bytes(entry_key));
            proof {
                let e = (entry_key@, value@);
                let ghost next = acc.push(e);
                match block_list(s, decoder.pos(), (entry_count - i - 1) as nat) {
                    Ok(rest) => {
                        assert(seq![e] + rest =~= seq![e] + rest);
                        assert(acc + (seq![e] + rest) =~= next + rest);
                    },
                    Err(_) => {},
                }
                acc = next;
            }
            out.push((key, value));
            i = i + 1;
        }
        proof {
            assert(acc + Seq::<(Seq<u8>, ValueView)>::empty() =~= acc);
        }
        Ok(out)
    }
}

} // verus!
