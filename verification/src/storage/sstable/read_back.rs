use vstd::prelude::*;

use crate::constants::{SSTABLE_DEFAULT_BLOCK_LEN, SSTABLE_MAGIC};
use crate::error::EngineError;
use crate::index::{bytes_lt, lookup, sorted_keys, EntriesView, ValueView};
use crate::storage::bloom::{bloom_bytes, lemma_bloom_round_trip, BloomView};
use crate::storage::sstable::block::{block_bytes, decoded_entries, entry_fits, lemma_block_round_trip, valid_entries, RawEntry};
use crate::storage::sstable::block_index::{index_bytes, index_fits, lemma_index_round_trip, IndexEntryView};
use crate::storage::sstable::footer::{footer_bytes, lemma_footer_round_trip, FOOTER_LEN};
use crate::storage::sstable::manager::written_table;
use crate::storage::sstable::reader::{lemma_last_not_after, last_not_after, region, search_blocks, sstable_get};
use crate::storage::sstable::writer::{
    block_handles, blocks_bytes, entries_fit, layout_footer, pack, pack_state, raw_entries, sstable_bytes,
};

verus! {

/// The entries of blocks, one block after the other.
pub open spec fn flatten(blocks: Seq<Seq<RawEntry>>) -> Seq<RawEntry>
    decreases blocks.len(),
{
    if blocks.len() == 0 {
        Seq::empty()
    } else {
        flatten(blocks.drop_last()) + blocks.last()
    }
}

/// Packing keeps the entries in order, in non-empty blocks.
proof fn lemma_pack_state(rs: Seq<RawEntry>, max: nat)
    ensures
        flatten(pack_state(rs, max).0) + pack_state(rs, max).1 == rs,
        forall|i: int| 0 <= i < pack_state(rs, max).0.len() ==> (#[trigger] pack_state(rs, max).0[i]).len() > 0,
        pack_state(rs, max).0.len() <= flatten(pack_state(rs, max).0).len(),
    decreases rs.len(),
{
    if rs.len() > 0 {
        lemma_pack_state(rs.drop_last(), max);
        let (done, cur) = pack_state(rs.drop_last(), max);
        let e = rs.last();
        if cur.len() > 0 && 4 + crate::storage::sstable::block::entries_bytes(cur).len() + crate::storage::sstable::writer::entry_len_spec(e) > max {
            let next = done.push(cur);
            assert(next.drop_last() =~= done);
            assert(flatten(next) == flatten(done) + cur);
            assert(rs =~= rs.drop_last().push(e));
            assert(flatten(next) + seq![e] =~= rs);
            assert forall|i: int| 0 <= i < next.len() implies (#[trigger] next[i]).len() > 0 by {
                if i < done.len() {
                    assert(next[i] == done[i]);
                }
            }
        } else {
            assert(flatten(done) + cur.push(e) =~= (flatten(done) + cur).push(e));
            assert(rs =~= rs.drop_last().push(e));
        }
    } else {
        assert(flatten(Seq::<Seq<RawEntry>>::empty()) + Seq::<RawEntry>::empty() =~= rs);
    }
}

/// Packing keeps the entries in order, in non-empty blocks, no more blocks
/// than entries.
pub proof fn lemma_pack(rs: Seq<RawEntry>, max: nat)
    ensures
        flatten(pack(rs, max)) == rs,
        forall|i: int| 0 <= i < pack(rs, max).len() ==> (#[trigger] pack(rs, max)[i]).len() > 0,
        pack(rs, max).len() <= rs.len(),
{
    lemma_pack_state(rs, max);
    let (done, cur) = pack_state(rs, max);
    if cur.len() > 0 {
        let next = done.push(cur);
        assert(next.drop_last() =~= done);
        assert forall|i: int| 0 <= i < next.len() implies (#[trigger] next[i]).len() > 0 by {
            if i < done.len() {
                assert(next[i] == done[i]);
            }
        }
    } else {
        assert(flatten(done) + cur =~= flatten(done));
    }
}

/// The first `i + 1` blocks are the first `i` and block `i`.
proof fn lemma_take_step(blocks: Seq<Seq<RawEntry>>, i: int)
    requires
        0 <= i < blocks.len(),
    ensures
        flatten(blocks.take(i + 1)) == flatten(blocks.take(i)) + blocks[i],
        blocks_bytes(blocks.take(i + 1)) == blocks_bytes(blocks.take(i)) + block_bytes(blocks[i]),
{
    assert(blocks.take(i + 1).drop_last() =~= blocks.take(i));
    assert(blocks.take(i + 1).last() == blocks[i]);
}

/// The entries and bytes of the first `j` blocks begin those of the first
/// `k`.
proof fn lemma_take_prefix(blocks: Seq<Seq<RawEntry>>, j: int, k: int)
    requires
        0 <= j <= k <= blocks.len(),
    ensures
        flatten(blocks.take(j)).len() <= flatten(blocks.take(k)).len(),
        flatten(blocks.take(k)).subrange(0, flatten(blocks.take(j)).len() as int) == flatten(blocks.take(j)),
        blocks_bytes(blocks.take(j)).len() <= blocks_bytes(blocks.take(k)).len(),
        blocks_bytes(blocks.take(k)).subrange(0, blocks_bytes(blocks.take(j)).len() as int) == blocks_bytes(
            blocks.take(j),
        ),
    decreases k - j,
{
    if j < k {
        lemma_take_prefix(blocks, j, k - 1);
        lemma_take_step(blocks, k - 1);
        let fj = flatten(blocks.take(j));
        let fk1 = flatten(blocks.take(k - 1));
        assert((fk1 + blocks[k - 1]).subrange(0, fj.len() as int) =~= fk1.subrange(0, fj.len() as int));
        let bj = blocks_bytes(blocks.take(j));
        let bk1 = blocks_bytes(blocks.take(k - 1));
        assert((bk1 + block_bytes(blocks[k - 1])).subrange(0, bj.len() as int) =~= bk1.subrange(0, bj.len() as int));
    } else {
        assert(flatten(blocks.take(k)).subrange(0, flatten(blocks.take(j)).len() as int) =~= flatten(blocks.take(j)));
        assert(blocks_bytes(blocks.take(k)).subrange(0, blocks_bytes(blocks.take(j)).len() as int) =~= blocks_bytes(
            blocks.take(j),
        ));
    }
}

/// Where block `i`'s entries start among all entries.
pub open spec fn block_start(blocks: Seq<Seq<RawEntry>>, i: int) -> int {
    flatten(blocks.take(i)).len() as int
}

/// Block `i` holds the entries from its start to the next block's start,
/// and its bytes lie at its offset.
proof fn lemma_block_at(blocks: Seq<Seq<RawEntry>>, i: int)
    requires
        0 <= i < blocks.len(),
    ensures
        block_start(blocks, i + 1) == block_start(blocks, i) + blocks[i].len(),
        block_start(blocks, i + 1) <= flatten(blocks).len(),
        flatten(blocks).subrange(block_start(blocks, i), block_start(blocks, i + 1)) == blocks[i],
        blocks_bytes(blocks.take(i)).len() + block_bytes(blocks[i]).len() <= blocks_bytes(blocks).len(),
        blocks_bytes(blocks).subrange(
            blocks_bytes(blocks.take(i)).len() as int,
            (blocks_bytes(blocks.take(i)).len() + block_bytes(blocks[i]).len()) as int,
        ) == block_bytes(blocks[i]),
{
    lemma_take_step(blocks, i);
    lemma_take_prefix(blocks, i + 1, blocks.len() as int);
    assert(blocks.take(blocks.len() as int) =~= blocks);
    let f = flatten(blocks);
    let fi = flatten(blocks.take(i));
    let fi1 = flatten(blocks.take(i + 1));
    assert(f.subrange(fi.len() as int, fi1.len() as int) =~= fi1.subrange(fi.len() as int, fi1.len() as int));
    assert(fi1.subrange(fi.len() as int, fi1.len() as int) =~= blocks[i]);
    let b = blocks_bytes(blocks);
    let bi = blocks_bytes(blocks.take(i));
    let bi1 = blocks_bytes(blocks.take(i + 1));
    assert(b.subrange(bi.len() as int, bi1.len() as int) =~= bi1.subrange(bi.len() as int, bi1.len() as int));
    assert(bi1.subrange(bi.len() as int, bi1.len() as int) =~= block_bytes(blocks[i]));
}

/// Block `i` of the packed entries starts with the entry at its start, and
/// holds exactly the entries up to the next block's start.
proof fn lemma_block_entries(es: EntriesView, blocks: Seq<Seq<RawEntry>>, i: int)
    requires
        flatten(blocks) == raw_entries(es),
        forall|j: int| 0 <= j < blocks.len() ==> (#[trigger] blocks[j]).len() > 0,
        0 <= i < blocks.len(),
    ensures
        0 <= block_start(blocks, i) < block_start(blocks, i + 1) <= es.len(),
        blocks[i][0].0 == es[block_start(blocks, i)].0,
        decoded_entries(blocks[i]) == es.subrange(block_start(blocks, i), block_start(blocks, i + 1)),
        i + 1 == blocks.len() ==> block_start(blocks, i + 1) == es.len(),
        entry_fits(blocks[i][0]) ==> blocks[i][0].0.len() <= u32::MAX,
{
    lemma_block_at(blocks, i);
    let a = block_start(blocks, i);
    let b = block_start(blocks, i + 1);
    let rs = raw_entries(es);
    assert(blocks[i][0] == rs.subrange(a, b)[0]);
    assert(decoded_entries(blocks[i]) =~= es.subrange(a, b)) by {
        assert forall|k: int| 0 <= k < b - a implies #[trigger] decoded_entries(blocks[i])[k] == es.subrange(a, b)[k] by {
            assert(blocks[i][k] == rs[a + k]);
        }
    }
    if i + 1 == blocks.len() {
        assert(blocks.take(i + 1) =~= blocks);
    }
}

/// Entries of a sorted run between two positions are sorted.
proof fn lemma_sorted_subrange(es: EntriesView, a: int, b: int)
    requires
        sorted_keys(es),
        0 <= a <= b <= es.len(),
    ensures
        sorted_keys(es.subrange(a, b)),
{
    let t = es.subrange(a, b);
    assert forall|i: int, j: int| 0 <= i < j < t.len() implies bytes_lt(#[trigger] t[i].0, #[trigger] t[j].0) by {
        assert(t[i] == es[a + i] && t[j] == es[a + j]);
    }
}

/// Looking a key up in the block that must hold it, the last block whose
/// first key does not come after the key, gives what all the entries hold
/// for the key.
proof fn lemma_block_lookup(es: EntriesView, blocks: Seq<Seq<RawEntry>>, i: int, key: Seq<u8>)
    requires
        sorted_keys(es),
        flatten(blocks) == raw_entries(es),
        forall|j: int| 0 <= j < blocks.len() ==> (#[trigger] blocks[j]).len() > 0,
        0 <= i < blocks.len(),
        !bytes_lt(key, blocks[i][0].0),
        i + 1 < blocks.len() ==> bytes_lt(key, blocks[i + 1][0].0),
    ensures
        sorted_keys(decoded_entries(blocks[i])),
        lookup(decoded_entries(blocks[i]), key) == lookup(es, key),
{
    crate::index::lemma_bytes_lt_order();
    lemma_block_entries(es, blocks, i);
    let a = block_start(blocks, i);
    let b = block_start(blocks, i + 1);
    let sub = es.subrange(a, b);
    lemma_sorted_subrange(es, a, b);
    crate::index::lemma_lookup_sorted(sub, key);
    crate::index::lemma_lookup_sorted(es, key);
    if i + 1 < blocks.len() {
        lemma_block_entries(es, blocks, i + 1);
    }
    if exists|j: int| 0 <= j < es.len() && (#[trigger] es[j]).0 == key {
        let j = choose|j: int| 0 <= j < es.len() && (#[trigger] es[j]).0 == key;
        if j < a {
            assert(bytes_lt(es[j].0, es[a].0));
        }
        if j >= b {
            assert(i + 1 < blocks.len());
            if j > b {
                assert(bytes_lt(es[b].0, es[j].0));
            }
        }
        assert(sub[j - a] == es[j]);
    } else {
        assert forall|k: int| 0 <= k < sub.len() implies (#[trigger] sub[k]).0 != key by {
            assert(sub[k] == es[a + k]);
        }
    }
}

/// What an SSTable file reads back: looking a key up in the file laid out
/// from sorted entries gives what the entries hold for the key.
pub proof fn lemma_sstable_read_back(es: EntriesView, b: BloomView, key: Seq<u8>)
    requires
        sorted_keys(es),
        entries_fit(es),
        es.len() <= u32::MAX,
        b.wf(),
        b.size > 0,
        0 < b.seeds.len() <= u32::MAX,
        forall|i: int| 0 <= i < es.len() ==> b.contains(#[trigger] es[i].0),
        sstable_bytes(pack(raw_entries(es), SSTABLE_DEFAULT_BLOCK_LEN as nat), b).len() <= u64::MAX,
    ensures
        sstable_get(sstable_bytes(pack(raw_entries(es), SSTABLE_DEFAULT_BLOCK_LEN as nat), b), key) == Ok::<
            Option<ValueView>,
            EngineError,
        >(lookup(es, key)),
{
    crate::index::lemma_bytes_lt_order();
    crate::index::lemma_lookup_sorted(es, key);
    let rs = raw_entries(es);
    let blocks = pack(rs, SSTABLE_DEFAULT_BLOCK_LEN as nat);
    lemma_pack(rs, SSTABLE_DEFAULT_BLOCK_LEN as nat);
    let data = blocks_bytes(blocks);
    let handles = block_handles(blocks);
    let idx = index_bytes(handles);
    let filter = bloom_bytes(b);
    let f = layout_footer(data.len(), idx.len(), filter.len());
    let s = sstable_bytes(blocks, b);
    lemma_footer_round_trip(f);
    assert(s == data + idx + filter + footer_bytes(f));
    let n = s.len() as int;
    let body = n - FOOTER_LEN;
    assert(body == data.len() + idx.len() + filter.len());
    assert(s.subrange(body, n) =~= footer_bytes(f));
    assert(f.bloom_offset == data.len() + idx.len());
    assert(f.bloom_len == filter.len());
    assert(f.block_index_offset == data.len());
    assert(f.block_index_len == idx.len());
    assert(region(s, f.bloom_offset, f.bloom_len) =~= filter);
    lemma_bloom_round_trip(b);
    if !b.contains(key) {
        assert forall|i: int| 0 <= i < es.len() implies (#[trigger] es[i]).0 != key by {
            assert(b.contains(es[i].0));
        }
    } else {
        assert(region(s, f.block_index_offset, f.block_index_len) =~= idx);
        assert forall|i: int| 0 <= i < handles.len() implies (#[trigger] handles[i]).0.len() <= u32::MAX by {
            lemma_block_entries(es, blocks, i);
            assert(es[block_start(blocks, i)].0.len() <= u32::MAX);
        }
        lemma_index_round_trip(handles);
        lemma_last_not_after(handles, key);
        assert(sstable_get(s, key) == search_blocks(s, body, handles, key));
        match last_not_after(handles, key) {
            None => {
                if es.len() > 0 {
                    lemma_block_entries(es, blocks, 0);
                    assert(blocks.take(0) =~= Seq::<Seq<RawEntry>>::empty());
                    assert(block_start(blocks, 0) == 0);
                    assert(bytes_lt(key, handles[0].0));
                    assert forall|j: int| 0 <= j < es.len() implies (#[trigger] es[j]).0 != key by {
                        if j > 0 {
                            assert(bytes_lt(es[0].0, es[j].0));
                        }
                    }
                }
            },
            Some(i) => {
                lemma_block_at(blocks, i);
                assert(handles[i].1.offset == blocks_bytes(blocks.take(i)).len());
                assert(handles[i].1.len == block_bytes(blocks[i]).len());
                assert(region(s, handles[i].1.offset, handles[i].1.len) =~= data.subrange(
                    blocks_bytes(blocks.take(i)).len() as int,
                    (blocks_bytes(blocks.take(i)).len() + block_bytes(blocks[i]).len()) as int,
                ));
                if i + 1 < blocks.len() {
                    assert(bytes_lt(key, handles[i + 1].0));
                }
                lemma_block_lookup(es, blocks, i, key);
                lemma_block_entries(es, blocks, i);
                assert(valid_entries(blocks[i])) by {
                    let a = block_start(blocks, i);
                    assert forall|k: int| 0 <= k < blocks[i].len() implies #[trigger] entry_fits(blocks[i][k])
                        && crate::storage::sstable::block::value_of(blocks[i][k].1, blocks[i][k].2) is Some by {
                        lemma_block_at(blocks, i);
                        assert(blocks[i][k] == rs[a + k]);
                        assert(es[a + k].0.len() <= u32::MAX);
                    }
                }
                lemma_block_round_trip(blocks[i], key);
            },
        }
    }
}

/// A table laid out by the manager reads back what it was laid out from:
/// whatever Bloom seeds were drawn, looking a key up in its bytes gives
/// what the sorted entries hold for the key.
pub proof fn lemma_written_table_reads_back(
    es: EntriesView,
    file_id: u64,
    bytes: Seq<u8>,
    meta: Option<crate::storage::sstable::meta::SSTableMetaView>,
    key: Seq<u8>,
)
    requires
        written_table(es, file_id, bytes, meta),
        sorted_keys(es),
        entries_fit(es),
        es.len() <= u32::MAX,
        bytes.len() <= u64::MAX,
    ensures
        sstable_get(bytes, key) == Ok::<Option<ValueView>, EngineError>(lookup(es, key)),
{
    let blocks = pack(raw_entries(es), SSTABLE_DEFAULT_BLOCK_LEN as nat);
    let b = choose|b: BloomView|
        {
            &&& b.wf()
            &&& b.size == 256
            &&& b.seeds.len() == 4
            &&& forall|j: int| 0 <= j < 4 ==> #[trigger] b.seeds[j] == b.seeds[0]
            &&& forall|i: int| 0 <= i < es.len() ==> b.contains(#[trigger] es[i].0)
            &&& bytes == #[trigger] sstable_bytes(blocks, b)
        };
    lemma_sstable_read_back(es, b, key);
}

/// `bytes` are the file of SSTable `id` laid out from `es`, with some
/// Bloom filter and metadata.
pub open spec fn laid_out(es: EntriesView, id: u64, bytes: Seq<u8>) -> bool {
    exists|meta: Option<crate::storage::sstable::meta::SSTableMetaView>| #[trigger] written_table(es, id, bytes, meta)
}

/// SSTables read in turn answer a key as the newest of them that holds
/// it. For files each laid out from sorted, fitting entries, looking `key`
/// up across them, oldest first, gives what the newest of those entry
/// lists that holds the key holds for it, and nothing when none does.
pub proof fn lemma_tables_read_back(tables: Seq<Seq<u8>>, es: Seq<EntriesView>, ids: Seq<u64>, key: Seq<u8>)
    requires
        tables.len() == es.len(),
        ids.len() == es.len(),
        forall|i: int| 0 <= i < es.len() ==> #[trigger] laid_out(es[i], ids[i], tables[i]),
        forall|i: int|
            0 <= i < es.len() ==> sorted_keys(#[trigger] es[i]) && entries_fit(es[i]) && es[i].len() <= u32::MAX
                && tables[i].len() <= u64::MAX,
    ensures
        crate::storage::sstable::manager::tables_get(tables, key) == Ok::<Option<ValueView>, EngineError>(
            crate::index::memtable_manager::lookup_newest(es, key),
        ),
    decreases es.len(),
{
    if es.len() > 0 {
        let n = es.len() - 1;
        assert(laid_out(es[n], ids[n], tables[n]));
        let meta = choose|meta: Option<crate::storage::sstable::meta::SSTableMetaView>|
            #[trigger] written_table(es[n], ids[n], tables[n], meta);
        assert(sorted_keys(es[n]));
        lemma_written_table_reads_back(es[n], ids[n], tables[n], meta, key);
        assert(tables.last() == tables[n]);
        assert(es.last() == es[n]);
        let (t0, e0, i0) = (tables.drop_last(), es.drop_last(), ids.drop_last());
        assert forall|i: int| 0 <= i < e0.len() implies #[trigger] laid_out(e0[i], i0[i], t0[i]) by {
            assert(e0[i] == es[i] && i0[i] == ids[i] && t0[i] == tables[i]);
        }
        assert forall|i: int| 0 <= i < e0.len() implies sorted_keys(#[trigger] e0[i]) && entries_fit(e0[i]) && e0[i].len()
            <= u32::MAX && t0[i].len() <= u64::MAX by {
            assert(e0[i] == es[i] && t0[i] == tables[i]);
        }
        lemma_tables_read_back(t0, e0, i0, key);
    }
}

} // verus!
