use vstd::prelude::*;
use vstd::slice::slice_subrange;

use crate::error::{EngineError, Result};
use crate::format::copy_bytes;
use crate::index::{bytes_lt, compare_bytes, ByteOrder, Key, Value, ValueView};
use crate::storage::bloom::{parse_bloom, BloomFilter};
use crate::storage::sstable::block::{block_get, Block};
use crate::storage::sstable::block_index::{parse_index, BlockIndex, IndexEntryView};
use crate::storage::sstable::footer::{parse_footer, Footer, FOOTER_LEN};

verus! {

/// The last index entry whose first key does not come after `key`: the
/// block that holds `key` if any does.
pub open spec fn last_not_after(idx: Seq<IndexEntryView>, key: Seq<u8>) -> Option<int>
    decreases idx.len(),
{
    if idx.len() == 0 {
        None
    } else if !bytes_lt(key, idx.last().0) {
        Some(idx.len() - 1)
    } else {
        last_not_after(idx.drop_last(), key)
    }
}

/// The bytes of `s` from `offset` on, `len` of them.
pub open spec fn region(s: Seq<u8>, offset: u64, len: u64) -> Seq<u8> {
    s.subrange(offset as int, offset + len)
}

/// Looking `key` up in the blocks that `idx` locates within the first
/// `body` bytes of `s`.
pub open spec fn search_blocks(s: Seq<u8>, body: int, idx: Seq<IndexEntryView>, key: Seq<u8>) -> Result<Option<ValueView>> {
    match last_not_after(idx, key) {
        None => Ok(None),
        Some(i) => if idx[i].1.offset + idx[i].1.len > body {
            Err(EngineError::CorruptFormat("block out of bounds"))
        } else {
            block_get(region(s, idx[i].1.offset, idx[i].1.len), key)
        },
    }
}

/// What looking `key` up in the SSTable file `s` gives: the footer at the
/// end locates the Bloom filter and the block index; a key the filter
/// rules out is absent; otherwise the last block whose first key does not
/// come after the key is searched.
pub open spec fn sstable_get(s: Seq<u8>, key: Seq<u8>) -> Result<Option<ValueView>> {
    if s.len() < FOOTER_LEN {
        Err(EngineError::CorruptFormat("truncated sstable"))
    } else {
        let body = s.len() - FOOTER_LEN;
        match parse_footer(s.subrange(body, s.len() as int)) {
            Err(e) => Err(e),
            Ok(f) => if f.bloom_offset + f.bloom_len > body {
                Err(EngineError::CorruptFormat("bloom filter out of bounds"))
            } else {
                match parse_bloom(region(s, f.bloom_offset, f.bloom_len)) {
                    Err(e) => Err(e),
                    Ok(b) => if !b.contains(key) {
                        Ok(None)
                    } else if f.block_index_offset + f.block_index_len > body {
                        Err(EngineError::CorruptFormat("block index out of bounds"))
                    } else {
                        match parse_index(region(s, f.block_index_offset, f.block_index_len)) {
                            Err(e) => Err(e),
                            Ok(idx) => search_blocks(s, body, idx, key),
                        }
                    },
                }
            },
        }
    }
}

/// `last_not_after` names the last entry whose first key does not come
/// after the key.
pub proof fn lemma_last_not_after(idx: Seq<IndexEntryView>, key: Seq<u8>)
    ensures
        match last_not_after(idx, key) {
            Some(i) => 0 <= i < idx.len() && !bytes_lt(key, idx[i].0) && forall|j: int|
                i < j < idx.len() ==> bytes_lt(key, #[trigger] idx[j].0),
            None => forall|j: int| 0 <= j < idx.len() ==> bytes_lt(key, #[trigger] idx[j].0),
        },
    decreases idx.len(),
{
    if idx.len() > 0 && bytes_lt(key, idx.last().0) {
        let t = idx.drop_last();
        lemma_last_not_after(t, key);
        match last_not_after(t, key) {
            Some(i) => {
                assert(idx[i] == t[i]);
                assert forall|j: int| i < j < idx.len() implies bytes_lt(key, #[trigger] idx[j].0) by {
                    if j < t.len() {
                        assert(idx[j] == t[j]);
                    }
                }
            },
            None => {
                assert forall|j: int| 0 <= j < idx.len() implies bytes_lt(key, #[trigger] idx[j].0) by {
                    if j < t.len() {
                        assert(idx[j] == t[j]);
                    }
                }
            },
        }
    }
}

/// Bytes `offset..offset + len` of `s`, when they lie within `limit`.
fn take_region<'a>(s: &'a [u8], offset: u64, len: u64, limit: usize) -> (r: Option<&'a [u8]>)
    requires
        limit <= s@.len(),
    ensures
        offset + len <= limit ==> (r matches Some(x) && x@ == region(s@, offset, len)),
        offset + len > limit ==> r is None,
{
    let end = match offset.checked_add(len) {
        Some(end) => end,
        None => {
            return None;
        },
    };
    if end > limit as u64 {
        return None;
    }
    Some(slice_subrange(s, offset as usize, end as usize))
}

/// Reads an SSTable file, given its bytes, by the path it was opened from.
#[derive(Debug)]
pub struct SsTableReader {
    path: String,
}

impl SsTableReader {
    /// A reader for the file at `path`.
    pub fn new(path: &str) -> (r: Self)
        ensures
            r.path_spec() == path@,
    {
        SsTableReader { path: String::from_str(path) }
    }

    /// The file's path.
    pub closed spec fn path_spec(&self) -> Seq<char> {
        self.path@
    }

    /// The file's path.
    pub fn path(&self) -> (r: &str)
        ensures
            r@ == self.path_spec(),
    {
        self.path.as_str()
    }

    /// Looks `key` up in the file whose bytes are `image`.
    pub fn get(&self, image: &[u8], key: &Key) -> (r: Result<Option<Value>>)
        ensures
            match sstable_get(image@, key@) {
                Ok(Some(v)) => r matches Ok(Some(x)) && x@ == v,
                Ok(None) => r matches Ok(None),
                Err(e) => r == Err::<Option<Value>, EngineError>(e),
            },
    {
        let n = image.len();
        if n < FOOTER_LEN {
            return Err(EngineError::CorruptFormat("truncated sstable"));
        }
        let body = n - FOOTER_LEN;
        let footer = Footer::decode(slice_subrange(image, body, n))?;
        let filter_bytes = match take_region(image, footer.bloom_offset, footer.bloom_len, body) {
            Some(b) => b,
            None => {
                return Err(EngineError::CorruptFormat("bloom filter out of bounds"));
            },
        };
        let filter = BloomFilter::decode(filter_bytes)?;
        if !filter.contains(key.as_bytes()) {
            return Ok(None);
        }
        let index_bytes = match take_region(image, footer.block_index_offset, footer.block_index_len, body) {
            Some(b) => b,
            None => {
                return Err(EngineError::CorruptFormat("block index out of bounds"));
            },
        };
        let index = BlockIndex::decode(index_bytes)?;
        let entries = index.entries();
        let ghost idx = index@;
        proof {
            lemma_last_not_after(idx, key@);
            assert(idx.take(idx.len() as int) =~= idx);
        }
        let mut i = entries.len();
        while i > 0
            invariant
                body <= image@.len(),
                sstable_get(image@, key@) == search_blocks(image@, body as int, idx, key@),
                i <= entries@.len(),
                entries@.len() == idx.len(),
                forall|j: int| 0 <= j < entries@.len() ==> ((#[trigger] entries@[j]).first_key@, entries@[j].handle) == idx[j],
                forall|j: int| i <= j < idx.len() ==> bytes_lt(key@, #[trigger] idx[j].0),
                last_not_after(idx, key@) == last_not_after(idx.take(i as int), key@),
            decreases i,
        {
            let c = compare_bytes(key.as_bytes(), entries[i - 1].first_key.as_bytes());
            proof {
                assert(entries@[i - 1].first_key@ == idx[i - 1].0);
                assert(idx.take(i as int).last() == idx[i - 1]);
            }
            if c != ByteOrder::Less {
                let handle = entries[i - 1].handle;
                proof {
                    assert(last_not_after(idx.take(i as int), key@) == Some(i - 1));
                }
                let block_bytes = match take_region(image, handle.offset, handle.len, body) {
                    Some(b) => b,
                    None => {
                        return Err(EngineError::CorruptFormat("block out of bounds"));
                    },
                };
                let block = Block::from_bytes(copy_bytes(block_bytes));
                return block.get(key);
            }
            proof {
                assert(idx.take(i as int).drop_last() =~= idx.take(i - 1));
            }
            i = i - 1;
        }
        proof {
            assert(idx.take(0) =~= Seq::<IndexEntryView>::empty());
        }
        Ok(None)
    }
}

} // verus!
