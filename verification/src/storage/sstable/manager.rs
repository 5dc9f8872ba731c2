use vstd::prelude::*;

use crate::constants::SSTABLE_DEFAULT_BLOCK_LEN;
use crate::error::{EngineError, Result};
use crate::index::{EntriesView, Key, MemTable, Value, ValueView};
use crate::storage::bloom::BloomView;
use crate::storage::sstable::meta::{SSTableMeta, SSTableMetaView};
use crate::storage::sstable::reader::{sstable_get, SsTableReader};
use crate::storage::sstable::writer::{entries_fit, pack, raw_entries, sstable_bytes, SsTableWriter};
use crate::text::{ascii_chars, decimal_padded, digits_to_string, lemma_decimal, u64_to_decimal_padded};

verus! {

/// The file name of SSTable `file_id`: its id in twenty digits, `.sst`.
pub open spec fn sstable_file_name(file_id: u64) -> Seq<char> {
    ascii_chars(decimal_padded(file_id as nat, 20)) + ".sst"@
}

/// What looking `key` up in SSTable files gives, newest last: the newest
/// file that holds the key decides; a fault stops the search.
pub open spec fn tables_get(tables: Seq<Seq<u8>>, key: Seq<u8>) -> Result<Option<ValueView>>
    decreases tables.len(),
{
    if tables.len() == 0 {
        Ok(None)
    } else {
        match sstable_get(tables.last(), key) {
            Err(e) => Err(e),
            Ok(Some(v)) => Ok(Some(v)),
            Ok(None) => tables_get(tables.drop_last(), key),
        }
    }
}

/// Where SSTable `file_id` lives in `data_dir`.
pub(crate) fn sstable_path_in(data_dir: &str, file_id: u64) -> (r: String)
    ensures
        r@ == data_dir@ + "/"@ + sstable_file_name(file_id),
{
    let digits = u64_to_decimal_padded(file_id, 20);
    proof {
        lemma_decimal(file_id as nat);
    }
    let name = digits_to_string(digits.as_slice());
    let mut path = String::from_str(data_dir);
    path.append("/");
    path.append(name.as_str());
    path.append(".sst");
    proof {
        assert(path@ =~= data_dir@ + "/"@ + sstable_file_name(file_id));
    }
    path
}

/// An SSTable ready to be stored: where, its bytes, and its metadata when
/// it holds entries.
pub struct PendingSSTable {
    pub path: String,
    pub bytes: Vec<u8>,
    pub meta: Option<SSTableMeta>,
}

/// Assigns SSTable ids and paths, lays out new SSTables and looks keys up
/// across them.
#[derive(Debug)]
pub struct SSTableManager {
    data_dir: String,
    next_sstable_id: u64,
}

impl SSTableManager {
    /// The directory that holds the SSTables.
    pub closed spec fn data_dir_spec(&self) -> Seq<char> {
        self.data_dir@
    }

    /// The id the next SSTable gets.
    pub closed spec fn next_id_spec(&self) -> u64 {
        self.next_sstable_id
    }

    /// A manager for `data_dir` whose next SSTable gets `next_sstable_id`.
    pub fn new(data_dir: &str, next_sstable_id: u64) -> (m: Self)
        ensures
            m.data_dir_spec() == data_dir@,
            m.next_id_spec() == next_sstable_id,
    {
        SSTableManager { data_dir: String::from_str(data_dir), next_sstable_id }
    }

    /// The directory that holds the SSTables.
    pub fn data_dir(&self) -> (r: &str)
        ensures
            r@ == self.data_dir_spec(),
    {
        self.data_dir.as_str()
    }

    /// The id the next SSTable gets.
    pub fn next_sstable_id(&self) -> (r: u64)
        ensures
            r == self.next_id_spec(),
    {
        self.next_sstable_id
    }

    /// Where SSTable `file_id` lives: in the data directory, named by its id
    /// in twenty digits.
    pub fn sstable_path(&self, file_id: u64) -> (r: String)
        ensures
            r@ == self.data_dir_spec() + "/"@ + sstable_file_name(file_id),
    {
        sstable_path_in(self.data_dir.as_str(), file_id)
    }

    /// Lays out the next SSTable from `entries`, in their order, and
    /// advances the next id.
    pub fn write_from(&mut self, entries: &[(Key, Value)]) -> (r: PendingSSTable)
        requires
            old(self).next_id_spec() < u64::MAX,
            entries_fit(Seq::new(entries@.len(), |i: int| (entries@[i].0@, entries@[i].1@))),
        ensures
            final(self).next_id_spec() == old(self).next_id_spec() + 1,
            final(self).data_dir_spec() == old(self).data_dir_spec(),
            r.path@ == old(self).data_dir_spec() + "/"@ + sstable_file_name(old(self).next_id_spec()),
            written_table(
                Seq::new(entries@.len(), |i: int| (entries@[i].0@, entries@[i].1@)),
                old(self).next_id_spec(),
                r.bytes@,
                match r.meta {
                    Some(m) => Some(m@),
                    None => None,
                },
            ),
    {
        let file_id = self.next_sstable_id;
        let path = self.sstable_path(file_id);
        let writer = SsTableWriter::create(file_id, path.as_str());
        let (table, bytes) = writer.write_from(entries);
        self.next_sstable_id = self.next_sstable_id + 1;
        let meta = match table.meta() {
            Some(m) => Some(m.duplicate()),
            None => None,
        };
        PendingSSTable { path, bytes, meta }
    }

    /// Lays out the next SSTable from a memtable's entries.
    pub fn write_memtable<T: MemTable>(&mut self, memtable: &T) -> (r: PendingSSTable)
        requires
            memtable.inv(),
            old(self).next_id_spec() < u64::MAX,
            entries_fit(memtable.entries()),
        ensures
            final(self).next_id_spec() == old(self).next_id_spec() + 1,
            final(self).data_dir_spec() == old(self).data_dir_spec(),
            r.path@ == old(self).data_dir_spec() + "/"@ + sstable_file_name(old(self).next_id_spec()),
            written_table(
                memtable.entries(),
                old(self).next_id_spec(),
                r.bytes@,
                match r.meta {
                    Some(m) => Some(m@),
                    None => None,
                },
            ),
    {
        let entries = memtable.iter();
        proof {
            assert(Seq::new(entries@.len(), |i: int| (entries@[i].0@, entries@[i].1@)) =~= memtable.entries());
        }
        self.write_from(entries.as_slice())
    }

    /// Looks `key` up in the SSTables `sstables`, oldest first, whose files
    /// hold `tables`: the newest one that holds the key decides.
    pub fn get(&self, key: &Key, sstables: &[SSTableMeta], tables: &[Vec<u8>]) -> (r: Result<Option<Value>>)
        requires
            sstables@.len() == tables@.len(),
        ensures
            match tables_get(Seq::new(tables@.len(), |i: int| tables@[i]@), key@) {
                Ok(Some(v)) => r matches Ok(Some(x)) && x@ == v,
                Ok(None) => r matches Ok(None),
                Err(e) => r == Err::<Option<Value>, EngineError>(e),
            },
    {
        let ghost all = Seq::new(tables@.len(), |i: int| tables@[i]@);
        let mut i = tables.len();
        assert(all.take(i as int) =~= all);
        while i > 0
            invariant
                sstables@.len() == tables@.len(),
                i <= tables@.len(),
                all == Seq::new(tables@.len(), |i: int| tables@[i]@),
                tables_get(all, key@) == tables_get(all.take(i as int), key@),
            decreases i,
        {
            let path = self.sstable_path(sstables[i - 1].file_id());
            let reader = SsTableReader::new(path.as_str());
            let found = reader.get(tables[i - 1].as_slice(), key)?;
            proof {
                let t = all.take(i as int);
                assert(t.last() == tables@[i - 1]@);
                assert(t.drop_last() =~= all.take(i - 1));
            }
            match found {
                Some(v) => {
                    return Ok(Some(v));
                },
                None => {},
            }
            i = i - 1;
        }
        Ok(None)
    }
}

/// `bytes` and `meta` are what laying out table `file_id` from `es` gives:
/// the entries packed into blocks, a Bloom filter with one seed repeated in
/// its four hash functions that holds every key, and
/// metadata with the first and last keys when there are entries.
pub open spec fn written_table(es: EntriesView, file_id: u64, bytes: Seq<u8>, meta: Option<SSTableMetaView>) -> bool {
    let blocks = pack(raw_entries(es), SSTABLE_DEFAULT_BLOCK_LEN as nat);
    &&& exists|b: BloomView|
        {
            &&& b.wf()
            &&& b.size == 256
            &&& b.seeds.len() == 4
            &&& forall|j: int| 0 <= j < 4 ==> #[trigger] b.seeds[j] == b.seeds[0]
            &&& forall|i: int| 0 <= i < es.len() ==> b.contains(#[trigger] es[i].0)
            &&& bytes == #[trigger] sstable_bytes(blocks, b)
        }
    &&& es.len() == 0 ==> meta is None
    &&& es.len() > 0 ==> meta == Some(
        SSTableMetaView {
            file_id,
            level: 0,
            smallest_key: es[0].0,
            largest_key: es.last().0,
            file_size: bytes.len() as u64,
        },
    )
}

} // verus!
