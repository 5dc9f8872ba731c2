use pocket_lsm::index::{Key, Value};
use pocket_lsm::storage::sstable::block::{Block, BlockBuilder};
use pocket_lsm::storage::sstable::block_index::{BlockHandle, BlockIndex};
use pocket_lsm::storage::sstable::footer::Footer;
use pocket_lsm::storage::sstable::manager::SSTableManager;
use pocket_lsm::storage::sstable::reader::SsTableReader;
use pocket_lsm::storage::sstable::writer::SsTableWriter;
use pocket_lsm::storage::sstable::SsTable;
use pocket_lsm::EngineError;

fn put(k: &str, v: &str) -> (Key, Value) {
    (Key::new(k.as_bytes().to_vec()), Value::put(v.as_bytes().to_vec()))
}

#[test]
fn encode_decode_round_trip() {
    let footer = Footer::new(10, 20, 30, 40);

    assert_eq!(Footer::decode(&footer.encode()).unwrap(), footer);
}

#[test]
fn footer_checks_length_and_magic() {
    let bytes = Footer::new(1, 2, 3, 4).encode();
    assert_eq!(bytes.len(), 40);
    assert_eq!(Footer::decode(&bytes[..39]), Err(EngineError::CorruptFormat("invalid footer length")));
    let mut bad = bytes.clone();
    bad[0] ^= 1;
    assert_eq!(Footer::decode(&bad), Err(EngineError::CorruptFormat("invalid footer magic")));
}

#[test]
fn block_reads_back_its_entries() {
    let mut builder = BlockBuilder::new();
    assert!(builder.is_empty());
    assert_eq!(builder.len(), 4);
    assert!(builder.can_add(b"a", b"1"));
    builder.add(b"a", b"1");
    builder.add_value(b"b", &Value::Tombstone);
    builder.add_value(b"c", &Value::put(b"33".to_vec()));
    assert_eq!(builder.len(), 4 + (9 + 2) + (9 + 1) + (9 + 3));
    let built = builder.build().unwrap();
    assert_eq!(built.first_key, b"a".to_vec());
    let block = built.block;
    assert_eq!(&block.as_bytes()[..4], &3u32.to_le_bytes());
    assert_eq!(block.get(&Key::new(b"a".to_vec())).unwrap(), Some(Value::put(b"1".to_vec())));
    assert_eq!(block.get(&Key::new(b"b".to_vec())).unwrap(), Some(Value::Tombstone));
    assert_eq!(block.get(&Key::new(b"bb".to_vec())).unwrap(), None);
    assert_eq!(block.get(&Key::new(b"z".to_vec())).unwrap(), None);
    let entries = block.entries().unwrap();
    assert_eq!(entries.len(), 3);
    assert_eq!(entries[2], (Key::new(b"c".to_vec()), Value::put(b"33".to_vec())));
    assert!(BlockBuilder::new().build().is_none());
}

#[test]
fn block_builder_respects_its_length_limit() {
    let builder = BlockBuilder::new();
    let big = vec![7u8; 4096 - 4 - 9 - 1];
    assert!(builder.can_add(b"k", &big));
    let bigger = vec![7u8; 4096 - 4 - 9];
    assert!(!builder.can_add(b"k", &bigger));
    assert!(!builder.can_add_value(b"k", &Value::put(bigger)));
}

#[test]
fn block_rejects_unknown_kind_and_truncation() {
    let mut builder = BlockBuilder::new();
    builder.add(b"a", b"1");
    let mut bytes = builder.build().unwrap().block.as_bytes().to_vec();
    bytes[8] = 5;
    let block = Block::from_bytes(bytes.clone());
    assert_eq!(block.get(&Key::new(b"a".to_vec())), Err(EngineError::CorruptFormat("unknown value kind")));
    assert_eq!(block.entries(), Err(EngineError::CorruptFormat("unknown value kind")));
    let short = Block::from_bytes(bytes[..bytes.len() - 1].to_vec());
    assert_eq!(short.entries(), Err(EngineError::CorruptFormat("truncated bytes")));
}

#[test]
fn block_index_round_trips() {
    let mut index = BlockIndex::new();
    assert!(index.is_empty());
    index.push(Key::new(b"a".to_vec()), BlockHandle { offset: 0, len: 30 });
    index.push(Key::new(b"m".to_vec()), BlockHandle { offset: 30, len: 12 });
    assert_eq!(index.len(), 2);
    let bytes = index.encode();
    assert_eq!(bytes.len(), 4 + (4 + 1 + 16) * 2);
    let decoded = BlockIndex::decode(&bytes).unwrap();
    assert_eq!(decoded, index);
    assert_eq!(decoded.entries()[1].handle, BlockHandle { offset: 30, len: 12 });
    let mut long = bytes.clone();
    long.push(1);
    assert_eq!(BlockIndex::decode(&long), Err(EngineError::CorruptFormat("trailing bytes")));
}

#[test]
fn writes_sorted_entries_to_file() {
    let entries = vec![put("a", "1"), put("b", "2"), (Key::new(b"c".to_vec()), Value::Tombstone)];

    let (table, bytes) = SsTableWriter::create(7, "data/00000000000000000007.sst").write_from(&entries);

    assert_eq!(table.id(), 7);
    assert_eq!(table.path(), "data/00000000000000000007.sst");
    assert!(bytes.len() > 0);
    let meta = table.meta().unwrap();
    assert_eq!(meta.smallest_key(), b"a");
    assert_eq!(meta.largest_key(), b"c");
    assert_eq!(meta.file_size(), bytes.len() as u64);
    assert_eq!(meta.level(), 0);
    let footer = table.footer().unwrap();
    assert_eq!(Footer::decode(&bytes[bytes.len() - 40..]).unwrap(), *footer);
    assert_eq!(table.block_index().unwrap().len(), 1);

    let reader = SsTableReader::new(table.path());
    assert_eq!(reader.get(&bytes, &Key::new(b"a".to_vec())).unwrap(), Some(Value::put(b"1".to_vec())));
    assert_eq!(reader.get(&bytes, &Key::new(b"c".to_vec())).unwrap(), Some(Value::Tombstone));
    assert_eq!(reader.get(&bytes, &Key::new(b"d".to_vec())).unwrap(), None);
}

#[test]
fn large_tables_span_blocks_and_read_back() {
    let entries: Vec<(Key, Value)> = (0..300u32)
        .map(|i| (Key::new(format!("key-{i:05}").into_bytes()), Value::put(vec![b'v'; 40])))
        .collect();
    let (table, bytes) = SsTableWriter::create(1, "t.sst").write_from(&entries);
    assert!(table.block_index().unwrap().len() > 1);
    let reader = SsTableReader::new("t.sst");
    for i in [0u32, 1, 97, 150, 299] {
        let key = Key::new(format!("key-{i:05}").into_bytes());
        assert_eq!(reader.get(&bytes, &key).unwrap(), Some(Value::put(vec![b'v'; 40])));
    }
    assert_eq!(reader.get(&bytes, &Key::new(b"key-00300".to_vec())).unwrap(), None);
    assert_eq!(reader.get(&bytes, &Key::new(b"a".to_vec())).unwrap(), None);
}

#[test]
fn empty_table_has_no_metadata_and_finds_nothing() {
    let (table, bytes) = SsTableWriter::create(2, "e.sst").write_from(&[]);
    assert!(table.meta().is_none());
    assert_eq!(table.block_index().unwrap().len(), 0);
    assert_eq!(SsTableReader::new("e.sst").get(&bytes, &Key::new(b"a".to_vec())).unwrap(), None);
}

#[test]
fn reader_reports_damaged_files() {
    let reader = SsTableReader::new("x.sst");
    assert_eq!(reader.get(&[0u8; 10], &Key::new(b"a".to_vec())), Err(EngineError::CorruptFormat("truncated sstable")));
    let (_, bytes) = SsTableWriter::create(3, "x.sst").write_from(&[put("a", "1")]);
    let mut bad = bytes.clone();
    let n = bad.len();
    bad[n - 40] ^= 1;
    assert_eq!(reader.get(&bad, &Key::new(b"a".to_vec())), Err(EngineError::CorruptFormat("invalid footer magic")));
    let mut far = bytes.clone();
    let n = far.len();
    far[n - 16..n - 8].copy_from_slice(&u64::MAX.to_le_bytes());
    assert_eq!(reader.get(&far, &Key::new(b"a".to_vec())), Err(EngineError::CorruptFormat("bloom filter out of bounds")));
}

#[test]
fn writes_sstable_and_advances_next_id() {
    let mut manager = SSTableManager::new("data", 7);
    let entries = vec![put("a", "1")];

    let pending = manager.write_from(&entries);
    let meta = pending.meta.unwrap();

    assert_eq!(meta.file_id(), 7);
    assert_eq!(manager.next_sstable_id(), 8);
    assert_eq!(pending.path, "data/00000000000000000007.sst");
    assert_eq!(manager.sstable_path(7), "data/00000000000000000007.sst");
    assert_eq!(manager.data_dir(), "data");
}

#[test]
fn reads_newest_value_from_manifest_ordered_sstables() {
    let mut manager = SSTableManager::new("data", 0);

    let old = manager.write_from(&[put("alpha", "one")]);
    let new = manager.write_from(&[put("alpha", "two")]);
    let metas = vec![old.meta.unwrap(), new.meta.unwrap()];

    assert_eq!(
        manager.get(&Key::new(b"alpha".to_vec()), &metas, &[old.bytes.clone(), new.bytes.clone()]).unwrap(),
        Some(Value::put(b"two".to_vec()))
    );
    assert_eq!(manager.get(&Key::new(b"beta".to_vec()), &metas, &[old.bytes, new.bytes]).unwrap(), None);
}

#[test]
fn in_memory_table_sorts_and_finds_entries() {
    let table = SsTable::from_entries(4, "m.sst", vec![put("c", "3"), put("a", "1"), put("b", "2"), put("a", "x")]);
    let keys: Vec<Vec<u8>> = table.iter().iter().map(|(k, _)| k.as_bytes().to_vec()).collect();
    assert_eq!(keys, vec![b"a".to_vec(), b"a".to_vec(), b"b".to_vec(), b"c".to_vec()]);
    assert_eq!(table.get(&Key::new(b"a".to_vec())), Some(&Value::put(b"1".to_vec())));
    assert_eq!(table.get(&Key::new(b"c".to_vec())), Some(&Value::put(b"3".to_vec())));
    assert_eq!(table.get(&Key::new(b"d".to_vec())), None);
    assert_eq!(table.len(), 4);
    assert!(!table.is_empty());
    assert!(SsTable::new(1, "n.sst").is_empty());
    assert!(table.footer().is_none() && table.bloom_filter().is_none() && table.meta().is_none());
}
