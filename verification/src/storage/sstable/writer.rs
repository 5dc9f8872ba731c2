use vstd::prelude::*;

use crate::constants::{SSTABLE_DEFAULT_BLOCK_LEN, SSTABLE_MAGIC};
use crate::format::{copy_bytes, push_bytes};
use crate::index::{EntriesView, Key, Value};
use crate::storage::bloom::{bloom_bytes, lemma_bloom_no_false_negatives, BloomFilter, BloomView};
use crate::storage::sstable::block::{
    block_bytes, entries_bytes, entry_fits, kind_of, lemma_entries_bytes_push, lemma_entry_bytes_len,
    payload_of, BlockBuilder, RawEntry,
};
use crate::storage::sstable::block_index::{index_bytes, BlockHandle, BlockIndex, IndexEntryView};
use crate::storage::sstable::footer::{footer_bytes, Footer};
use crate::storage::sstable::meta::{SSTableMeta, SSTableMetaView};
use crate::storage::sstable::SsTable;

verus! {

/// Length of the stored entry `e`.
pub open spec fn entry_len_spec(e: RawEntry) -> nat {
    9 + e.0.len() + e.2.len()
}

/// The blocks finished and the block being filled after packing `es` in
/// order: an entry starts a new block when the current one holds entries
/// and the entry would push it past `max` bytes.
pub open spec fn pack_state(es: Seq<RawEntry>, max: nat) -> (Seq<Seq<RawEntry>>, Seq<RawEntry>)
    decreases es.len(),
{
    if es.len() == 0 {
        (Seq::empty(), Seq::empty())
    } else {
        let (done, cur) = pack_state(es.drop_last(), max);
        let e = es.last();
        if cur.len() > 0 && 4 + entries_bytes(cur).len() + entry_len_spec(e) > max {
            (done.push(cur), seq![e])
        } else {
            (done, cur.push(e))
        }
    }
}

/// The blocks that packing `es` into blocks of at most `max` bytes gives.
pub open spec fn pack(es: Seq<RawEntry>, max: nat) -> Seq<Seq<RawEntry>> {
    let (done, cur) = pack_state(es, max);
    if cur.len() > 0 {
        done.push(cur)
    } else {
        done
    }
}

/// The bytes of blocks, one after the other.
pub open spec fn blocks_bytes(blocks: Seq<Seq<RawEntry>>) -> Seq<u8>
    decreases blocks.len(),
{
    if blocks.len() == 0 {
        Seq::empty()
    } else {
        blocks_bytes(blocks.drop_last()) + block_bytes(blocks.last())
    }
}

/// The index entries of blocks laid out one after the other from offset 0:
/// each block's first key, offset and length.
pub open spec fn block_handles(blocks: Seq<Seq<RawEntry>>) -> Seq<IndexEntryView> {
    Seq::new(
        blocks.len(),
        |i: int|
            (
                blocks[i][0].0,
                BlockHandle {
                    offset: blocks_bytes(blocks.take(i)).len() as u64,
                    len: block_bytes(blocks[i]).len() as u64,
                },
            ),
    )
}

/// The footer of a file whose data, block index and Bloom filter take
/// `data`, `index` and `bloom` bytes.
pub open spec fn layout_footer(data: nat, index: nat, bloom: nat) -> Footer {
    Footer {
        magic: SSTABLE_MAGIC,
        block_index_offset: data as u64,
        block_index_len: index as u64,
        bloom_offset: (data + index) as u64,
        bloom_len: bloom as u64,
    }
}

/// The bytes of an SSTable file: the blocks, the block index, the Bloom
/// filter and the footer that locates the last two.
pub open spec fn sstable_bytes(blocks: Seq<Seq<RawEntry>>, bloom: BloomView) -> Seq<u8> {
    let data = blocks_bytes(blocks);
    let index = index_bytes(block_handles(blocks));
    let filter = bloom_bytes(bloom);
    data + index + filter + footer_bytes(layout_footer(data.len(), index.len(), filter.len()))
}

/// The entries as blocks store them.
pub open spec fn raw_entries(es: EntriesView) -> Seq<RawEntry> {
    Seq::new(es.len(), |i: int| (es[i].0, kind_of(es[i].1), payload_of(es[i].1)))
}

/// Every key and value fits the 32-bit length fields of a block.
pub open spec fn entries_fit(es: EntriesView) -> bool {
    forall|i: int| 0 <= i < es.len() ==> #[trigger] es[i].0.len() <= u32::MAX && payload_of(es[i].1).len() <= u32::MAX
}

/// An entry's bytes are at least as long as its header.
proof fn lemma_entries_bytes_min(es: Seq<RawEntry>)
    ensures
        entries_bytes(es).len() >= 9 * es.len(),
    decreases es.len(),
{
    if es.len() > 0 {
        lemma_entries_bytes_min(es.drop_first());
        lemma_entry_bytes_len(es[0]);
    }
}

/// Writes a sorted run of entries as an SSTable file image: data blocks,
/// block index, Bloom filter of the keys, footer.
pub struct SsTableWriter {
    id: u64,
    path: String,
    image: Vec<u8>,
    current_block: BlockBuilder,
    block_index: BlockIndex,
    bloom_filter: BloomFilter,
    written: Ghost<Seq<RawEntry>>,
}

impl SsTableWriter {
    /// The entries added so far.
    pub closed spec fn written(&self) -> Seq<RawEntry> {
        self.written@
    }

    /// The writer's id.
    pub closed spec fn id_spec(&self) -> u64 {
        self.id
    }

    /// The path of the file being written.
    pub closed spec fn path_spec(&self) -> Seq<char> {
        self.path@
    }

    /// The finished blocks are in the image and the index, the current
    /// block holds the rest, and the Bloom filter holds every key.
    pub closed spec fn wf(&self) -> bool {
        let (done, cur) = pack_state(self.written@, SSTABLE_DEFAULT_BLOCK_LEN as nat);
        &&& self.current_block.wf()
        &&& self.current_block.max_len() == SSTABLE_DEFAULT_BLOCK_LEN
        &&& self.current_block.entries() == cur
        &&& cur.len() <= 1 || 4 + entries_bytes(cur).len() <= SSTABLE_DEFAULT_BLOCK_LEN
        &&& forall|i: int| 0 <= i < done.len() ==> (#[trigger] done[i]).len() > 0
        &&& self.image@ == blocks_bytes(done)
        &&& self.block_index@ == block_handles(done)
        &&& self.bloom_filter@.wf()
        &&& self.bloom_filter@.size == 256
        &&& self.bloom_filter@.seeds.len() == 4
        &&& forall|j: int| 0 <= j < 4 ==> #[trigger] self.bloom_filter@.seeds[j] == self.bloom_filter@.seeds[0]
        &&& forall|i: int| 0 <= i < self.written@.len() ==> self.bloom_filter@.contains(#[trigger] self.written@[i].0)
    }

    /// A writer for table `id` at `path`, with nothing written.
    pub fn create(id: u64, path: &str) -> (w: Self)
        ensures
            w.wf(),
            w.written() == Seq::<RawEntry>::empty(),
            w.id_spec() == id,
            w.path_spec() == path@,
    {
        let w = SsTableWriter {
            id,
            path: String::from_str(path),
            image: Vec::new(),
            current_block: BlockBuilder::new(),
            block_index: BlockIndex::new(),
            bloom_filter: BloomFilter::default(),
            written: Ghost(Seq::empty()),
        };
        proof {
            assert(blocks_bytes(Seq::<Seq<RawEntry>>::empty()) == Seq::<u8>::empty());
            assert(w.image@ =~= blocks_bytes(Seq::<Seq<RawEntry>>::empty()));
            assert(w.block_index@ =~= block_handles(Seq::<Seq<RawEntry>>::empty()));
        }
        w
    }

    /// The path of the file being written.
    pub fn path(&self) -> (r: &str)
        ensures
            r@ == self.path_spec(),
    {
        self.path.as_str()
    }

    /// Writes `entries` in order and finishes the file: the table, with
    /// its footer, block index, Bloom filter and, when there were entries,
    /// its metadata (level 0, the first and last keys, the file's length),
    /// and the bytes of the file.
    pub fn write_from(self, entries: &[(Key, Value)]) -> (r: (SsTable, Vec<u8>))
        requires
            self.wf(),
            self.written() == Seq::<RawEntry>::empty(),
            entries_fit(Seq::new(entries@.len(), |i: int| (entries@[i].0@, entries@[i].1@))),
        ensures
            ({
                let es = Seq::new(entries@.len(), |i: int| (entries@[i].0@, entries@[i].1@));
                let blocks = pack(raw_entries(es), SSTABLE_DEFAULT_BLOCK_LEN as nat);
                let t = r.0@;
                &&& t.id == self.id_spec()
                &&& t.path == self.path_spec()
                &&& t.entries == Seq::<(Seq<u8>, crate::index::ValueView)>::empty()
                &&& t.block_index == Some(block_handles(blocks))
                &&& t.bloom matches Some(b) && {
                    &&& b.wf()
                    &&& b.size == 256
                    &&& b.seeds.len() == 4
                    &&& forall|j: int| 0 <= j < 4 ==> #[trigger] b.seeds[j] == b.seeds[0]
                    &&& forall|i: int| 0 <= i < es.len() ==> b.contains(#[trigger] es[i].0)
                    &&& r.1@ == sstable_bytes(blocks, b)
                    &&& t.footer == Some(
                        layout_footer(
                            blocks_bytes(blocks).len(),
                            index_bytes(block_handles(blocks)).len(),
                            bloom_bytes(b).len(),
                        ),
                    )
                }
                &&& es.len() == 0 ==> t.meta is None
                &&& es.len() > 0 ==> t.meta == Some(
                    SSTableMetaView {
                        file_id: self.id_spec(),
                        level: 0,
                        smallest_key: es[0].0,
                        largest_key: es.last().0,
                        file_size: r.1@.len() as u64,
                    },
                )
                &&& forall|i: int| 0 <= i < blocks.len() ==> (#[trigger] blocks[i]).len() > 0
            }),
    {
        let ghost es = Seq::new(entries@.len(), |i: int| (entries@[i].0@, entries@[i].1@));
        let mut w = self;
        let mut i: usize = 0;
        while i < entries.len()
            invariant
                es == Seq::new(entries@.len(), |i: int| (entries@[i].0@, entries@[i].1@)),
                entries_fit(es),
                i <= entries@.len(),
                w.wf(),
                w.id_spec() == self.id_spec(),
                w.path_spec() == self.path_spec(),
                w.written() == raw_entries(es).take(i as int),
            decreases entries@.len() - i,
        {
            let (key, value) = &entries[i];
            proof {
                assert(es[i as int].0.len() <= u32::MAX);
            }
            w.add_entry(key, value);
            proof {
                assert(raw_entries(es).take(i + 1) =~= raw_entries(es).take(i as int).push(
                    (key@, kind_of(value@), payload_of(value@)),
                ));
            }
            i = i + 1;
        }
        proof {
            assert(raw_entries(es).take(i as int) =~= raw_entries(es));
            assert forall|j: int| 0 <= j < es.len() implies w.bloom_filter@.contains(#[trigger] es[j].0) by {
                assert(w.written@[j].0 == es[j].0);
            }
        }
        let smallest = if entries.len() > 0 {
            Some(copy_bytes(entries[0].0.as_bytes()))
        } else {
            None
        };
        let largest = if entries.len() > 0 {
            Some(copy_bytes(entries[entries.len() - 1].0.as_bytes()))
        } else {
            None
        };
        w.finish(smallest, largest)
    }

    fn add_entry(&mut self, key: &Key, value: &Value)
        requires
            old(self).wf(),
            key@.len() <= u32::MAX,
            payload_of(value@).len() <= u32::MAX,
        ensures
            final(self).wf(),
            final(self).id_spec() == old(self).id_spec(),
            final(self).path_spec() == old(self).path_spec(),
            final(self).written() == old(self).written().push((key@, kind_of(value@), payload_of(value@))),
    {
        let ghost e: RawEntry = (key@, kind_of(value@), payload_of(value@));
        let ghost before = self.written@;
        let ghost (done0, cur0) = pack_state(before, SSTABLE_DEFAULT_BLOCK_LEN as nat);
        proof {
            lemma_entry_bytes_len(e);
        }
        let full = !self.current_block.can_add_value(key.as_bytes(), value) && !self.current_block.is_empty();
        if full {
            self.flush_current_block();
        }
        proof {
            if full {
                assert(done0.push(cur0).drop_last() =~= done0);
                assert(self.image@ == blocks_bytes(done0.push(cur0)));
            }
        }
        let ghost bloom_before = self.bloom_filter@;
        self.bloom_filter.add(key.as_bytes());
        proof {
            assert forall|i: int| 0 <= i < before.len() implies self.bloom_filter@.contains(#[trigger] before[i].0) by {
                lemma_bloom_no_false_negatives(bloom_before, self.bloom_filter@, key@, before[i].0);
            }
            lemma_bloom_no_false_negatives(bloom_before, self.bloom_filter@, key@, key@);
            lemma_entries_bytes_min(self.current_block.entries());
        }
        self.current_block.add_value(key.as_bytes(), value);
        proof {
            let after = before.push(e);
            assert(after.drop_last() =~= before);
            self.written = Ghost(after);
            lemma_entries_bytes_push(cur0, e);
            assert forall|i: int| 0 <= i < after.len() implies self.bloom_filter@.contains(#[trigger] after[i].0) by {
                if i < before.len() {
                    assert(after[i] == before[i]);
                }
            }
            let (done1, cur1) = pack_state(after, SSTABLE_DEFAULT_BLOCK_LEN as nat);
            assert(full == (cur0.len() > 0 && 4 + entries_bytes(cur0).len() + entry_len_spec(e) > SSTABLE_DEFAULT_BLOCK_LEN));
            if full {
                assert(seq![e] =~= Seq::<RawEntry>::empty().push(e));
                lemma_entries_bytes_push(Seq::<RawEntry>::empty(), e);
                assert(done1 == done0.push(cur0));
                assert(cur1 == seq![e]);
            } else {
                assert(done1 == done0);
                assert(cur1 == cur0.push(e));
            }
            assert(self.current_block.entries() == cur1);
            assert(cur1.len() <= 1 || 4 + entries_bytes(cur1).len() <= SSTABLE_DEFAULT_BLOCK_LEN);
            assert(forall|i: int| 0 <= i < done1.len() ==> (#[trigger] done1[i]).len() > 0);
            assert(self.image@ == blocks_bytes(done1));
            assert(self.block_index@ == block_handles(done1));
        }
    }

    fn flush_current_block(&mut self)
        requires
            old(self).wf(),
            old(self).current_block.entries().len() > 0,
        ensures
            final(self).current_block.wf(),
            final(self).current_block.entries() == Seq::<RawEntry>::empty(),
            final(self).current_block.max_len() == SSTABLE_DEFAULT_BLOCK_LEN,
            final(self).image@ == old(self).image@ + block_bytes(old(self).current_block.entries()),
            ({
                let (done, cur) = pack_state(old(self).written@, SSTABLE_DEFAULT_BLOCK_LEN as nat);
                final(self).block_index@ == block_handles(done.push(cur))
            }),
            final(self).bloom_filter == old(self).bloom_filter,
            final(self).written == old(self).written,
            final(self).id == old(self).id,
            final(self).path == old(self).path,
    {
        let ghost (done, cur) = pack_state(self.written@, SSTABLE_DEFAULT_BLOCK_LEN as nat);
        let mut builder = BlockBuilder::new();
        std::mem::swap(&mut builder, &mut self.current_block);
        let built = builder.build();
        match built {
            Some(built) => {
                let offset = self.image.len() as u64;
                let bytes = built.block.as_bytes();
                push_bytes(&mut self.image, bytes);
                let len = bytes.len() as u64;
                self.block_index.push(Key::new(built.first_key), BlockHandle { offset, len });
                proof {
                    let next = done.push(cur);
                    assert(next.drop_last() =~= done);
                    assert(next.take(done.len() as int) =~= done);
                    assert(blocks_bytes(next) == blocks_bytes(done) + block_bytes(cur));
                    assert forall|j: int| 0 <= j < done.len() implies #[trigger] next.take(j) =~= done.take(j) by {}
                    assert(self.block_index@ =~= block_handles(next));
                }
            },
            None => {},
        }
    }

    fn finish(self, smallest: Option<Vec<u8>>, largest: Option<Vec<u8>>) -> (r: (SsTable, Vec<u8>))
        requires
            self.wf(),
            smallest is Some <==> self.written().len() > 0,
            largest is Some <==> self.written().len() > 0,
        ensures
            ({
                let blocks = pack(self.written(), SSTABLE_DEFAULT_BLOCK_LEN as nat);
                let t = r.0@;
                &&& t.id == self.id_spec()
                &&& t.path == self.path_spec()
                &&& t.entries == Seq::<(Seq<u8>, crate::index::ValueView)>::empty()
                &&& t.block_index == Some(block_handles(blocks))
                &&& t.bloom == Some(self.bloom_filter@)
                &&& r.1@ == sstable_bytes(blocks, self.bloom_filter@)
                &&& t.footer == Some(
                    layout_footer(
                        blocks_bytes(blocks).len(),
                        index_bytes(block_handles(blocks)).len(),
                        bloom_bytes(self.bloom_filter@).len(),
                    ),
                )
                &&& smallest is None ==> t.meta is None
                &&& smallest matches Some(s) ==> largest matches Some(l) && t.meta == Some(
                    SSTableMetaView {
                        file_id: self.id_spec(),
                        level: 0,
                        smallest_key: s@,
                        largest_key: l@,
                        file_size: r.1@.len() as u64,
                    },
                )
                &&& forall|i: int| 0 <= i < blocks.len() ==> (#[trigger] blocks[i]).len() > 0
            }),
    {
        let ghost (done, cur) = pack_state(self.written@, SSTABLE_DEFAULT_BLOCK_LEN as nat);
        let ghost blocks = pack(self.written@, SSTABLE_DEFAULT_BLOCK_LEN as nat);
        let ghost bloom = self.bloom_filter@;
        let ghost original = self;
        let mut w = self;
        if !w.current_block.is_empty() {
            w.flush_current_block();
        }
        proof {
            if cur.len() > 0 {
                let next = done.push(cur);
                assert(next.drop_last() =~= done);
                assert(blocks_bytes(next) == blocks_bytes(done) + block_bytes(cur));
                assert forall|i: int| 0 <= i < blocks.len() implies (#[trigger] blocks[i]).len() > 0 by {
                    if i < done.len() {
                        assert(blocks[i] == done[i]);
                    }
                }
            }
            assert(w.image@ == blocks_bytes(blocks));
            assert(w.block_index@ == block_handles(blocks));
        }
        let block_index_offset = w.image.len() as u64;
        let index = w.block_index.encode();
        push_bytes(&mut w.image, index.as_slice());
        let bloom_offset = w.image.len() as u64;
        let filter = w.bloom_filter.encode();
        push_bytes(&mut w.image, filter.as_slice());
        let footer = Footer::new(block_index_offset, index.len() as u64, bloom_offset, filter.len() as u64);
        let footer_encoded = footer.encode();
        push_bytes(&mut w.image, footer_encoded.as_slice());
        proof {
            assert(footer == layout_footer(
                blocks_bytes(blocks).len(),
                index_bytes(block_handles(blocks)).len(),
                bloom_bytes(bloom).len(),
            ));
            assert(w.image@ =~= sstable_bytes(blocks, bloom));
        }
        let SsTableWriter { id, path, image, current_block, block_index, bloom_filter, written } = w;
        let table = match (smallest, largest) {
            (Some(s), Some(l)) => {
                let meta = SSTableMeta::new(id, 0, s, l, image.len() as u64);
                SsTable::from_parts_with_meta(id, path.as_str(), footer, block_index, bloom_filter, meta)
            },
            _ => SsTable::from_parts(id, path.as_str(), footer, block_index, bloom_filter),
        };
        (table, image)
    }
}

} // verus!
