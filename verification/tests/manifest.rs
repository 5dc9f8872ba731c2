use pocket_lsm::storage::manifest::record::{replay_records, ManifestRecord};
use pocket_lsm::storage::manifest::{apply_records, is_manifest_name, manifest_id, manifest_names, next_manifest_id, ManifestManager};
use pocket_lsm::storage::sstable::meta::SSTableMeta;
use pocket_lsm::EngineError;

fn meta(file_id: u64) -> SSTableMeta {
    SSTableMeta::new(
        file_id,
        0,
        format!("key-{file_id}-a").into_bytes(),
        format!("key-{file_id}-z").into_bytes(),
        4096,
    )
}

#[test]
fn add_sstable_round_trips() {
    let record = ManifestRecord::AddSSTable(SSTableMeta::new(7, 2, b"alpha".to_vec(), b"omega".to_vec(), 4096));

    assert_eq!(ManifestRecord::decode(&record.encode()).unwrap(), record);
}

#[test]
fn remove_sstable_round_trips() {
    let record = ManifestRecord::RemoveSSTable { file_id: 42 };

    assert_eq!(ManifestRecord::decode(&record.encode()).unwrap(), record);
}

#[test]
fn manifest_record_errors() {
    let record = ManifestRecord::RemoveSSTable { file_id: 42 };
    let mut bytes = record.encode();
    bytes.push(0);
    assert_eq!(ManifestRecord::decode(&bytes), Err(EngineError::CorruptFormat("trailing bytes")));
    let mut bad = record.encode();
    bad[0] ^= 1;
    assert_eq!(ManifestRecord::decode(&bad), Err(EngineError::CorruptFormat("invalid manifest record magic")));
    let mut kind = record.encode();
    kind[8] = 9;
    assert_eq!(ManifestRecord::decode(&kind), Err(EngineError::CorruptFormat("unknown manifest record type")));
}

#[test]
fn appends_and_replays_records() {
    let manager = ManifestManager::open_with_next_manifest_id("data", 0);
    let mut file = manager.add_sstable(meta(1));
    file.extend(manager.remove_sstable(1));

    assert_eq!(
        manager.replay(&[file]).unwrap(),
        vec![ManifestRecord::AddSSTable(meta(1)), ManifestRecord::RemoveSSTable { file_id: 1 }]
    );
}

#[test]
fn load_sstables_applies_adds_and_removes() {
    let manager = ManifestManager::open_with_next_manifest_id("data", 0);
    let mut file = manager.add_sstable(meta(1));
    file.extend(manager.add_sstable(meta(2)));
    file.extend(manager.remove_sstable(1));

    assert_eq!(manager.load_sstables(&[file]).unwrap(), vec![meta(2)]);
}

#[test]
fn rotate_writes_to_new_manifest_file() {
    let names: Vec<Vec<u8>> = Vec::new();
    let mut manager = ManifestManager::open("data", &names);

    assert_eq!(manager.current_manifest_id(), 0);
    assert_eq!(manager.next_manifest_id(), 1);
    let first = manager.add_sstable(meta(1));
    manager.rotate();
    assert_eq!(manager.current_manifest_id(), 1);
    assert_eq!(manager.next_manifest_id(), 2);
    assert_eq!(manager.current_manifest_path(), "data/manifest/00000000000000000001.manifest");
    let second = manager.add_sstable(meta(2));

    assert_eq!(
        manager.replay(&[first, second]).unwrap(),
        vec![ManifestRecord::AddSSTable(meta(1)), ManifestRecord::AddSSTable(meta(2))]
    );
}

#[test]
fn compact_keeps_live_sstables_and_removes_old_files() {
    let mut manager = ManifestManager::open_with_next_manifest_id("data", 0);
    let first = manager.add_sstable(meta(1));
    manager.rotate();
    let mut second = manager.add_sstable(meta(2));
    second.extend(manager.remove_sstable(1));
    let compacted = manager.compact(&[first, second]).unwrap();

    assert_eq!(manager.load_sstables(&[compacted]).unwrap(), vec![meta(2)]);
    let names = vec![
        b"00000000000000000000.manifest".to_vec(),
        b"00000000000000000001.manifest".to_vec(),
        b"00000000000000000002.manifest".to_vec(),
    ];
    assert_eq!(manager.older_manifests(&names), vec![names[0].clone(), names[1].clone()]);
}

#[test]
fn compacted_manifest_remains_appendable() {
    let mut manager = ManifestManager::open_with_next_manifest_id("data", 0);
    let first = manager.add_sstable(meta(1));
    let mut compacted = manager.compact(&[first]).unwrap();
    compacted.extend(manager.add_sstable(meta(2)));

    assert_eq!(manager.load_sstables(&[compacted]).unwrap(), vec![meta(1), meta(2)]);
}

#[test]
fn next_sstable_id_advances_from_manifest_state() {
    let manager = ManifestManager::open_with_next_manifest_id("data", 0);

    assert_eq!(manager.next_sstable_id(&[]).unwrap(), 0);
    let mut file = manager.add_sstable(meta(7));
    file.extend(manager.add_sstable(meta(3)));

    assert_eq!(manager.next_sstable_id(&[file]).unwrap(), 8);
}

#[test]
fn next_manifest_id_advances_after_compaction() {
    let mut manager = ManifestManager::open_with_next_manifest_id("data", 0);
    let first = manager.add_sstable(meta(1));
    manager.compact(&[first]).unwrap();

    assert_eq!(manager.current_manifest_id(), 1);
    assert_eq!(manager.next_manifest_id(), 2);
}

#[test]
fn apply_records_keeps_latest_metadata_by_file_id() {
    let records = vec![
        ManifestRecord::AddSSTable(meta(5)),
        ManifestRecord::AddSSTable(meta(2)),
        ManifestRecord::AddSSTable(SSTableMeta::new(5, 1, b"x".to_vec(), b"y".to_vec(), 9)),
        ManifestRecord::RemoveSSTable { file_id: 8 },
    ];
    assert_eq!(
        apply_records(records),
        vec![meta(2), SSTableMeta::new(5, 1, b"x".to_vec(), b"y".to_vec(), 9)]
    );
}

#[test]
fn manifest_names_and_ids() {
    assert_eq!(manifest_id(b"00000000000000000012.manifest"), Some(12));
    assert_eq!(manifest_id(b"notes.txt"), None);
    assert_eq!(manifest_id(b"7"), Some(7));
    assert!(is_manifest_name(b"00000000000000000012.manifest"));
    assert!(!is_manifest_name(b".manifest"));
    assert!(!is_manifest_name(b"12.manifests"));
    let names = vec![b"3.manifest".to_vec(), b"CURRENT".to_vec(), b"1.manifest".to_vec(), b"x.manifest".to_vec()];
    assert_eq!(manifest_names(&names), vec![b"1.manifest".to_vec(), b"3.manifest".to_vec(), b"x.manifest".to_vec()]);
    assert_eq!(next_manifest_id(&names), 4);
    assert_eq!(next_manifest_id(&[]), 0);
}

#[test]
fn replaying_a_damaged_file_reports_the_fault() {
    let manager = ManifestManager::open_with_next_manifest_id("data", 0);
    let mut file = manager.add_sstable(meta(1));
    file.truncate(file.len() - 1);
    assert_eq!(manager.replay(&[file.clone()]).err(), Some(EngineError::CorruptFormat("truncated bytes")));
    assert_eq!(replay_records(&file).err(), Some(EngineError::CorruptFormat("truncated bytes")));
}

#[test]
fn apply_records_lists_live_tables_by_increasing_id() {
    let records = vec![
        ManifestRecord::AddSSTable(meta(9)),
        ManifestRecord::AddSSTable(meta(3)),
        ManifestRecord::AddSSTable(meta(7)),
        ManifestRecord::RemoveSSTable { file_id: 3 },
    ];
    assert_eq!(apply_records(records), vec![meta(7), meta(9)]);
    assert_eq!(apply_records(Vec::new()), Vec::<SSTableMeta>::new());
}
