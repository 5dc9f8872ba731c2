use pocket_lsm::index::btree::BTree;
use pocket_lsm::index::memtable_manager::MemTableManager;
use pocket_lsm::index::skip_list::SkipList;
use pocket_lsm::index::{Key, MemTable, Value};
use pocket_lsm::wal::record::WalRecord;

#[test]
fn rotates_when_active_memtable_crosses_threshold() {
    let mut manager = MemTableManager::new(2, 4);

    let outcome = manager.put(b"a".to_vec(), b"1".to_vec());

    assert!(outcome.rotated);
    assert!(!outcome.should_flush);
    assert_eq!(manager.active_size(), 0);
    assert_eq!(manager.immutable_count(), 1);
}

#[test]
fn reads_newest_value_across_active_and_immutable_memtables() {
    let mut manager = MemTableManager::new(8, 4);

    manager.put(b"alpha".to_vec(), b"one".to_vec());
    manager.put(b"alpha".to_vec(), b"two".to_vec());

    assert_eq!(
        manager.get(&Key::new(b"alpha".to_vec())).and_then(Value::as_bytes),
        Some(b"two".as_slice())
    );
}

#[test]
fn stores_and_reads_values_by_key() {
    let mut list = SkipList::default();
    list.put(Key::new(b"hello".to_vec()), Value::put(b"world".to_vec()));

    assert_eq!(
        list.get(&Key::new(b"hello".to_vec())).and_then(Value::as_bytes),
        Some(b"world".as_slice())
    );
    assert_eq!(list.get(&Key::new(b"missing".to_vec())), None);
}

#[test]
fn iterates_in_key_order() {
    let mut list = SkipList::default();
    list.put(Key::new(b"b".to_vec()), Value::put(b"2".to_vec()));
    list.put(Key::new(b"a".to_vec()), Value::put(b"1".to_vec()));
    list.put(Key::new(b"c".to_vec()), Value::put(b"3".to_vec()));

    let entries = list.iter();
    let keys: Vec<&[u8]> = entries.iter().map(|(key, _)| key.as_bytes()).collect();
    assert_eq!(keys, vec![b"a".as_slice(), b"b".as_slice(), b"c".as_slice()]);
}

#[test]
fn overwrites_existing_value_and_keeps_size_current() {
    let mut list = SkipList::default();
    list.put(Key::new(b"a".to_vec()), Value::put(b"1".to_vec()));
    let first_size = list.approximate_size();

    list.put(Key::new(b"a".to_vec()), Value::put(b"longer".to_vec()));

    assert!(list.approximate_size() > first_size);
    assert_eq!(
        list.get(&Key::new(b"a".to_vec())).and_then(Value::as_bytes),
        Some(b"longer".as_slice())
    );
    assert_eq!(list.iter().len(), 1);
}

#[test]
fn delete_writes_tombstone() {
    let mut list = SkipList::default();
    list.put(Key::new(b"a".to_vec()), Value::put(b"1".to_vec()));
    list.delete(Key::new(b"a".to_vec()));

    assert_eq!(list.get(&Key::new(b"a".to_vec())), Some(&Value::Tombstone));
}

#[test]
fn skip_list_size_counts_key_kind_and_value_bytes() {
    let mut list = SkipList::new();
    assert!(list.is_empty());
    list.put(Key::new(b"ab".to_vec()), Value::put(b"xyz".to_vec()));
    assert_eq!(list.approximate_size(), 2 + 1 + 3);
    list.delete(Key::new(b"ab".to_vec()));
    assert_eq!(list.approximate_size(), 2 + 1);
    list.put(Key::new(b"c".to_vec()), Value::put(Vec::new()));
    assert_eq!(list.approximate_size(), 3 + 2);
}

#[test]
fn btree_reads_back_writes_in_key_order() {
    let mut tree = BTree::new();
    tree.put(Key::new(b"m".to_vec()), Value::put(b"1".to_vec()));
    tree.put(Key::new(b"a".to_vec()), Value::put(b"2".to_vec()));
    tree.put(Key::new(b"m".to_vec()), Value::put(b"3".to_vec()));
    tree.delete(Key::new(b"z".to_vec()));
    assert_eq!(tree.get(&Key::new(b"m".to_vec())).and_then(Value::as_bytes), Some(b"3".as_slice()));
    assert_eq!(tree.get(&Key::new(b"z".to_vec())), Some(&Value::Tombstone));
    assert_eq!(tree.get(&Key::new(b"q".to_vec())), None);
    let keys: Vec<Vec<u8>> = tree.iter().iter().map(|(k, _)| k.as_bytes().to_vec()).collect();
    assert_eq!(keys, vec![b"a".to_vec(), b"m".to_vec(), b"z".to_vec()]);
    assert_eq!(tree.approximate_size(), (1 + 2) + (1 + 2) + (1 + 1));
}

#[test]
fn write_leaves_other_keys_unchanged() {
    let mut manager = MemTableManager::new(1024, 4);
    manager.put(b"a".to_vec(), b"1".to_vec());
    manager.put(b"b".to_vec(), b"2".to_vec());
    manager.delete(b"a".to_vec());
    assert_eq!(manager.get(&Key::new(b"a".to_vec())), Some(&Value::Tombstone));
    assert_eq!(manager.get(&Key::new(b"b".to_vec())).and_then(Value::as_bytes), Some(b"2".as_slice()));
    assert_eq!(manager.get(&Key::new(b"c".to_vec())), None);
}

#[test]
fn flush_is_due_when_immutable_queue_exceeds_maximum() {
    let mut manager = MemTableManager::new(1, 0);
    let outcome = manager.put(b"k".to_vec(), b"v".to_vec());
    assert!(outcome.rotated);
    assert!(outcome.should_flush);
    let flushed = manager.pop_flushable().unwrap();
    assert_eq!(flushed.get(&Key::new(b"k".to_vec())).and_then(Value::as_bytes), Some(b"v".as_slice()));
    assert!(manager.pop_flushable().is_none());
    assert_eq!(manager.get(&Key::new(b"k".to_vec())), None);
}

#[test]
fn replayed_segment_reads_the_last_record_of_each_key() {
    let mut manager = MemTableManager::new(1024, 4);
    manager.recover_immutable_segment(vec![
        WalRecord::Put { sequence_id: 1, key: b"old".to_vec(), value: b"kept".to_vec() },
        WalRecord::Put { sequence_id: 2, key: b"gone".to_vec(), value: b"dropped".to_vec() },
    ]);
    manager.put(b"stale".to_vec(), b"x".to_vec());
    manager.recover_active_segment(vec![
        WalRecord::Put { sequence_id: 3, key: b"gone".to_vec(), value: b"v1".to_vec() },
        WalRecord::Put { sequence_id: 4, key: b"a".to_vec(), value: b"1".to_vec() },
        WalRecord::Delete { sequence_id: 5, key: b"gone".to_vec() },
        WalRecord::Put { sequence_id: 6, key: b"a".to_vec(), value: b"2".to_vec() },
    ]);

    assert_eq!(manager.immutable_count(), 1);
    assert_eq!(
        manager.get(&Key::new(b"a".to_vec())).and_then(Value::as_bytes),
        Some(b"2".as_slice())
    );
    assert!(matches!(manager.get(&Key::new(b"gone".to_vec())), Some(Value::Tombstone)));
    assert_eq!(
        manager.get(&Key::new(b"old".to_vec())).and_then(Value::as_bytes),
        Some(b"kept".as_slice())
    );
    assert!(manager.get(&Key::new(b"stale".to_vec())).is_none());
}

#[test]
fn recovering_a_record_writes_as_put_and_delete_do() {
    let mut by_recover = MemTableManager::new(12, 4);
    let mut by_write = MemTableManager::new(12, 4);
    let first = by_recover.recover(WalRecord::Put { sequence_id: 9, key: b"key".to_vec(), value: b"v".to_vec() });
    let second = by_write.put(b"key".to_vec(), b"v".to_vec());
    assert_eq!(first, second);
    let third = by_recover.recover(WalRecord::Delete { sequence_id: 10, key: b"other".to_vec() });
    let fourth = by_write.delete(b"other".to_vec());
    assert_eq!(third, fourth);
    assert_eq!(by_recover.active_size(), by_write.active_size());
    assert_eq!(by_recover.immutable_count(), by_write.immutable_count());
    assert!(matches!(by_recover.get(&Key::new(b"other".to_vec())), Some(Value::Tombstone)));
}
