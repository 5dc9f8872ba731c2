use vstd::prelude::*;

use crate::error::{EngineError, Result};
use crate::format::{
    copy_bytes, lemma_le_round_trip, take_error, u32_at, u32_le, u64_at, u64_le, Decoder, Encoder,
};
use crate::index::Key;

verus! {

/// Where a block lies in an SSTable file.
#[derive(Debug, Clone, Copy, PartialEq, Eq, Structural)]
pub struct BlockHandle {
    pub offset: u64,
    pub len: u64,
}

/// A block's first key and where the block lies.
#[derive(Debug, PartialEq, Eq)]
pub struct BlockIndexEntry {
    pub first_key: Key,
    pub handle: BlockHandle,
}

/// An index entry as plain values: first key and handle.
pub type IndexEntryView = (Seq<u8>, BlockHandle);

/// The blocks of an SSTable in file order, each by its first key.
#[derive(Debug, PartialEq, Eq, Default)]
pub struct BlockIndex {
    entries: Vec<BlockIndexEntry>,
}

impl View for BlockIndex {
    type V = Seq<IndexEntryView>;

    closed spec fn view(&self) -> Seq<IndexEntryView> {
        Seq::new(self.entries@.len(), |i: int| (self.entries@[i].first_key@, self.entries@[i].handle))
    }
}

/// The bytes of one index entry: `u32` key length, key, offset, length.
pub open spec fn index_entry_bytes(e: IndexEntryView) -> Seq<u8> {
    u32_le(e.0.len() as u32) + e.0 + u64_le(e.1.offset) + u64_le(e.1.len)
}

/// The bytes of index entries, one after the other.
pub open spec fn index_entries_bytes(es: Seq<IndexEntryView>) -> Seq<u8>
    decreases es.len(),
{
    if es.len() == 0 {
        Seq::empty()
    } else {
        index_entries_bytes(es.drop_last()) + index_entry_bytes(es.last())
    }
}

/// The bytes of a block index: the number of entries, then the entries.
pub open spec fn index_bytes(es: Seq<IndexEntryView>) -> Seq<u8> {
    u32_le(es.len() as u32) + index_entries_bytes(es)
}

/// The index entry stored at `p` in `s` and where the next one starts, or
/// the fault met while reading it.
pub open spec fn parse_index_entry(s: Seq<u8>, p: int) -> Result<(IndexEntryView, int)> {
    if p + 4 > s.len() {
        Err(take_error(p, 4))
    } else if p + 4 + u32_at(s, p) > s.len() {
        Err(take_error(p + 4, u32_at(s, p) as int))
    } else if p + 4 + u32_at(s, p) + 8 > s.len() {
        Err(take_error(p + 4 + u32_at(s, p), 8))
    } else if p + 4 + u32_at(s, p) + 16 > s.len() {
        Err(take_error(p + 12 + u32_at(s, p), 8))
    } else {
        let k = u32_at(s, p) as int;
        Ok(
            (
                (
                    s.subrange(p + 4, p + 4 + k),
                    BlockHandle { offset: u64_at(s, p + 4 + k), len: u64_at(s, p + 12 + k) },
                ),
                p + 20 + k,
            ),
        )
    }
}

/// The `n` index entries stored from `p` on and where they end, or the
/// first fault.
pub open spec fn parse_index_entries(s: Seq<u8>, p: int, n: nat) -> Result<(Seq<IndexEntryView>, int)>
    decreases n,
{
    if n == 0 {
        Ok((Seq::empty(), p))
    } else {
        match parse_index_entry(s, p) {
            Err(e) => Err(e),
            Ok((e, q)) => match parse_index_entries(s, q, (n - 1) as nat) {
                Ok((rest, end)) => Ok((seq![e] + rest, end)),
                Err(err) => Err(err),
            },
        }
    }
}

/// What decoding a whole block index gives.
pub open spec fn parse_index(s: Seq<u8>) -> Result<Seq<IndexEntryView>> {
    if s.len() < 4 {
        Err(take_error(0, 4))
    } else {
        match parse_index_entries(s, 4, u32_at(s, 0) as nat) {
            Err(e) => Err(e),
            Ok((es, end)) => if end == s.len() {
                Ok(es)
            } else {
                Err(EngineError::CorruptFormat("trailing bytes"))
            },
        }
    }
}

/// Every first key fits its 32-bit length field.
pub open spec fn index_fits(es: Seq<IndexEntryView>) -> bool {
    forall|i: int| 0 <= i < es.len() ==> (#[trigger] es[i]).0.len() <= u32::MAX
}

/// Appending entries front to back gives the bytes of all of them.
proof fn lemma_index_entries_bytes_front(es: Seq<IndexEntryView>)
    requires
        es.len() > 0,
    ensures
        index_entries_bytes(es) == index_entry_bytes(es[0]) + index_entries_bytes(es.drop_first()),
    decreases es.len(),
{
    if es.len() == 1 {
        assert(es.drop_last() =~= Seq::<IndexEntryView>::empty());
        assert(es.drop_first() =~= Seq::<IndexEntryView>::empty());
        assert(index_entries_bytes(es.drop_last()) == Seq::<u8>::empty());
        assert(es.last() == es[0]);
        assert(index_entries_bytes(es) =~= index_entry_bytes(es[0]));
        assert(index_entry_bytes(es[0]) + index_entries_bytes(es.drop_first()) =~= index_entry_bytes(es[0]));
    } else {
        lemma_index_entries_bytes_front(es.drop_last());
        assert(es.drop_last().drop_first() =~= es.drop_first().drop_last());
        assert(es.drop_first().last() == es.last());
        assert(es.drop_last()[0] == es[0]);
        assert(index_entries_bytes(es) =~= index_entry_bytes(es[0]) + index_entries_bytes(es.drop_first()));
    }
}

/// An entry's bytes, found at `p` in `s`, read back as the entry.
proof fn lemma_parse_index_entry_at(s: Seq<u8>, p: int, e: IndexEntryView)
    requires
        0 <= p,
        e.0.len() <= u32::MAX,
        p + index_entry_bytes(e).len() <= s.len(),
        s.subrange(p, p + index_entry_bytes(e).len()) == index_entry_bytes(e),
    ensures
        index_entry_bytes(e).len() == 20 + e.0.len(),
        parse_index_entry(s, p) == Ok::<(IndexEntryView, int), EngineError>((e, p + index_entry_bytes(e).len())),
{
    lemma_le_round_trip();
    let b = index_entry_bytes(e);
    let k = e.0.len() as int;
    let whole = s.subrange(p, p + b.len());
    assert(whole == b);
    assert(s.subrange(p, p + 4) =~= whole.subrange(0, 4));
    assert(b.subrange(0, 4) =~= u32_le(k as u32).subrange(0, 4));
    assert(u32_at(s, p) == k);
    assert(s.subrange(p + 4, p + 4 + k) =~= whole.subrange(4, 4 + k));
    assert(whole.subrange(4, 4 + k) =~= e.0);
    assert(s.subrange(p + 4 + k, p + 12 + k) =~= whole.subrange(4 + k, 12 + k));
    assert(b.subrange(4 + k, 12 + k) =~= u64_le(e.1.offset).subrange(0, 8));
    assert(s.subrange(p + 12 + k, p + 20 + k) =~= whole.subrange(12 + k, 20 + k));
    assert(b.subrange(12 + k, 20 + k) =~= u64_le(e.1.len).subrange(0, 8));
}

/// Reading `n` index entries where the bytes of `es` lie gives `es`.
proof fn lemma_parse_index_entries(s: Seq<u8>, p: int, es: Seq<IndexEntryView>)
    requires
        0 <= p,
        index_fits(es),
        p + index_entries_bytes(es).len() <= s.len(),
        s.subrange(p, p + index_entries_bytes(es).len()) == index_entries_bytes(es),
    ensures
        parse_index_entries(s, p, es.len()) == Ok::<(Seq<IndexEntryView>, int), EngineError>(
            (es, p + index_entries_bytes(es).len()),
        ),
    decreases es.len(),
{
    if es.len() > 0 {
        lemma_index_entries_bytes_front(es);
        let e = es[0];
        let rest = es.drop_first();
        let eb = index_entry_bytes(e);
        let rb = index_entries_bytes(rest);
        let whole = s.subrange(p, p + index_entries_bytes(es).len());
        assert(whole == eb + rb);
        assert(s.subrange(p, p + eb.len()) =~= whole.subrange(0, eb.len() as int));
        assert(whole.subrange(0, eb.len() as int) =~= eb);
        assert(es[0].0.len() <= u32::MAX);
        lemma_parse_index_entry_at(s, p, e);
        assert(s.subrange(p + eb.len(), p + eb.len() + rb.len()) =~= whole.subrange(
            eb.len() as int,
            (eb.len() + rb.len()) as int,
        ));
        assert(whole.subrange(eb.len() as int, (eb.len() + rb.len()) as int) =~= rb);
        assert forall|i: int| 0 <= i < rest.len() implies (#[trigger] rest[i]).0.len() <= u32::MAX by {
            assert(rest[i] == es[i + 1]);
        }
        lemma_parse_index_entries(s, p + eb.len(), rest);
        assert(seq![e] + rest =~= es);
    } else {
        assert(es =~= Seq::<IndexEntryView>::empty());
    }
}

/// A block index decodes back to the entries it was encoded from.
pub proof fn lemma_index_round_trip(es: Seq<IndexEntryView>)
    requires
        index_fits(es),
        es.len() <= u32::MAX,
    ensures
        parse_index(index_bytes(es)) == Ok::<Seq<IndexEntryView>, EngineError>(es),
{
    lemma_le_round_trip();
    let s = index_bytes(es);
    let h = u32_le(es.len() as u32);
    let eb = index_entries_bytes(es);
    assert(s.subrange(0, 4) =~= h.subrange(0, 4));
    assert(u32_at(s, 0) == es.len());
    assert(s.subrange(4, 4 + eb.len() as int) =~= eb);
    lemma_parse_index_entries(s, 4, es);
}

/// Reads the index entry at the decoder's cursor.
fn read_index_entry(decoder: &mut Decoder<'_>) -> (r: Result<BlockIndexEntry>)
    ensures
        final(decoder).data() == old(decoder).data(),
        match parse_index_entry(old(decoder).data(), old(decoder).pos()) {
            Ok((e, q)) => r matches Ok(x) && x.first_key@ == e.0 && x.handle == e.1 && final(decoder).pos() == q,
            Err(err) => r == Err::<BlockIndexEntry, EngineError>(err),
        },
{
    let key = decoder.read_record()?;
    let offset = decoder.read_u64()?;
    let len = decoder.read_u64()?;
    Ok(BlockIndexEntry { first_key: Key::new(copy_bytes(key)), handle: BlockHandle { offset, len } })
}

impl BlockIndex {
    /// An index with no entries.
    pub fn new() -> (b: Self)
        ensures
            b@ == Seq::<IndexEntryView>::empty(),
    {
        let b = BlockIndex { entries: Vec::new() };
        assert(b@ =~= Seq::<IndexEntryView>::empty());
        b
    }

    /// Appends the entry of the next block.
    pub fn push(&mut self, first_key: Key, handle: BlockHandle)
        ensures
            final(self)@ == old(self)@.push((first_key@, handle)),
    {
        self.entries.push(BlockIndexEntry { first_key, handle });
        assert(self@ =~= old(self)@.push((first_key@, handle)));
    }

    /// The entries, in block order.
    pub fn entries(&self) -> (r: &[BlockIndexEntry])
        ensures
            r@.len() == self@.len(),
            forall|i: int| 0 <= i < r@.len() ==> ((#[trigger] r@[i]).first_key@, r@[i].handle) == self@[i],
    {
        self.entries.as_slice()
    }

    /// Whether the index has no entries.
    pub fn is_empty(&self) -> (r: bool)
        ensures
            r == (self@.len() == 0),
    {
        self.entries.len() == 0
    }

    /// The number of entries.
    pub fn len(&self) -> (r: usize)
        ensures
            r == self@.len(),
    {
        self.entries.len()
    }

    /// The index's bytes: the number of entries, then each entry's
    /// length-prefixed first key, offset and length.
    pub fn encode(&self) -> (r: Vec<u8>)
        ensures
            r@ == index_bytes(self@),
    {
        let mut encoder = Encoder::new();
        encoder.write_u32(self.entries.len() as u32);
        let ghost header = encoder@;
        let mut i: usize = 0;
        while i < self.entries.len()
            invariant
                i <= self@.len(),
                self@.len() == self.entries@.len(),
                encoder@ == header + index_entries_bytes(self@.subrange(0, i as int)),
            decreases self.entries@.len() - i,
        {
            let entry = &self.entries[i];
            let key = entry.first_key.as_bytes();
            encoder.write_u32(key.len() as u32);
            encoder.write_bytes(key);
            encoder.write_u64(entry.handle.offset);
            encoder.write_u64(entry.handle.len);
            proof {
                let next = self@.subrange(0, i + 1);
                assert(next.drop_last() =~= self@.subrange(0, i as int));
                assert(next.last() == self@[i as int]);
                assert(encoder@ =~= header + index_entries_bytes(next));
            }
            i = i + 1;
        }
        proof {
            assert(self@.subrange(0, i as int) =~= self@);
        }
        encoder.finish()
    }

    /// Reads an index back from bytes that hold exactly one.
    pub fn decode(bytes: &[u8]) -> (r: Result<Self>)
        ensures
            match parse_index(bytes@) {
                Ok(es) => r matches Ok(b) && b@ == es,
                Err(e) => r == Err::<Self, EngineError>(e),
            },
    {
        let ghost s = bytes@;
        let mut decoder = Decoder::new(bytes);
        let count = decoder.read_u32()?;
        let mut entries: Vec<BlockIndexEntry> = Vec::new();
        let ghost mut acc: Seq<IndexEntryView> = Seq::empty();
        let mut i: u32 = 0;
        while i < count
            invariant
                s == bytes@,
                s.len() >= 4,
                count == u32_at(s, 0),
                decoder.data() == s,
                i <= count,
                entries@.len() == acc.len(),
                forall|j: int| 0 <= j < acc.len() ==> ((#[trigger] entries@[j]).first_key@, entries@[j].handle) == acc[j],
                parse_index_entries(s, 4, count as nat) == match parse_index_entries(s, decoder.pos(), (count - i) as nat) {
                    Ok((rest, end)) => Ok::<(Seq<IndexEntryView>, int), EngineError>((acc + rest, end)),
                    Err(e) => Err(e),
                },
            decreases count - i,
        {
            let entry = read_index_entry(&mut decoder)?;
            proof {
                let e = (entry.first_key@, entry.handle);
                let next = acc.push(e);
                match parse_index_entries(s, decoder.pos(), (count - i - 1) as nat) {
                    Ok((rest, end)) => {
                        assert(acc + (seq![e] + rest) =~= next + rest);
                    },
                    Err(_) => {},
                }
                acc = next;
            }
            entries.push(entry);
            i = i + 1;
        }
        proof {
            assert(acc + Seq::<IndexEntryView>::empty() =~= acc);
        }
        if !decoder.is_finished() {
            return Err(EngineError::CorruptFormat("trailing bytes"));
        }
        let b = BlockIndex { entries };
        assert(b@ =~= acc);
        Ok(b)
    }
}

} // verus!
