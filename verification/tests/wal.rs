use pocket_lsm::wal::log::WriteAheadLog;
use pocket_lsm::wal::logger::WriteAheadLogger;
use pocket_lsm::wal::manager::{wal_file_id, wal_segment_ids, WalManager};
use pocket_lsm::wal::record::WalRecord;
use pocket_lsm::EngineError;

#[test]
fn record_encode_decode_round_trip() {
    let mut wal = WriteAheadLog::new("/tmp/wal-round-trip.wal");
    let mut file = Vec::new();

    file.extend(wal.append(WalRecord::put(1, b"a".to_vec(), b"one".to_vec())).unwrap());
    file.extend(wal.append(WalRecord::delete(2, b"b".to_vec())).unwrap());

    let records = WriteAheadLog::replay(&file).unwrap();

    assert_eq!(records, wal.records());
}

#[test]
fn truncate_removes_records_and_file_contents() {
    let mut wal = WriteAheadLog::new("/tmp/wal-truncate.wal");
    wal.append(WalRecord::put(1, b"a".to_vec(), b"one".to_vec())).unwrap();

    wal.truncate();

    assert!(wal.records().is_empty());
    assert_eq!(wal.path(), Some("/tmp/wal-truncate.wal"));
}

#[test]
fn replay_rejects_checksum_mismatch() {
    let mut wal = WriteAheadLog::new("/tmp/wal-checksum.wal");
    let mut bytes = wal.append(WalRecord::put(1, b"a".to_vec(), b"one".to_vec())).unwrap();

    let last = bytes.len() - 1;
    bytes[last] ^= 0xff;

    assert!(WriteAheadLog::replay(&bytes).is_err());
}

#[test]
fn logger_uses_queue_for_segments() {
    let mut logger = WriteAheadLogger::new("/tmp/wal-queue");

    assert!(logger.current_mut().is_some());
    logger.new_wal();
    assert_eq!(logger.len(), 2);
    assert!(logger.pop_oldest().is_some());
    assert_eq!(logger.len(), 1);
}

#[test]
fn logger_names_segments_by_running_id() {
    let mut logger = WriteAheadLogger::new("/tmp/wal-names");
    logger.new_wal();
    let first = logger.pop_oldest().unwrap();
    assert_eq!(first.path(), Some("/tmp/wal-names/wal_0.log"));
    let current = logger.current_mut().unwrap();
    assert_eq!(current.path(), Some("/tmp/wal-names/wal_1.log"));
    current.append(WalRecord::delete(9, b"k".to_vec())).unwrap();
    assert_eq!(logger.current_mut().unwrap().records().len(), 1);
    assert!(!logger.is_empty());
    logger.pop_oldest();
    assert!(logger.is_empty());
    assert!(logger.current_mut().is_none());
}

#[test]
fn sequence_numbers_follow_the_largest_appended() {
    let mut wal = WriteAheadLog::default();
    assert_eq!(wal.path(), None);
    assert_eq!(wal.append(WalRecord::put(5, b"a".to_vec(), b"1".to_vec())), None);
    assert_eq!(wal.next_sequence(), 6);
    wal.append(WalRecord::put(2, b"b".to_vec(), b"2".to_vec()));
    assert_eq!(wal.next_sequence(), 7);
}

#[test]
fn replay_of_nothing_is_empty() {
    assert_eq!(WriteAheadLog::replay(&[]).unwrap(), Vec::<WalRecord>::new());
    assert_eq!(WriteAheadLog::replay(&[1, 0]), Err(EngineError::CorruptFormat("truncated bytes")));
}

#[test]
fn manager_appends_to_newest_segment_and_rotates() {
    let mut wal = WalManager::open("/tmp/wal-manager", 3, 10);
    assert_eq!(wal.next_wal_id(), 4);
    assert_eq!(wal.next_sequence_id(), 10);
    assert_eq!(wal.next_sequence(), 10);
    let (path, bytes) = wal.append(WalRecord::put(10, b"k".to_vec(), b"v".to_vec()));
    assert_eq!(path, "/tmp/wal-manager/wal_3.log");
    assert_eq!(bytes, WalRecord::put(10, b"k".to_vec(), b"v".to_vec()).encode());
    wal.rotate();
    assert_eq!(wal.len(), 2);
    let (path, _) = wal.append(WalRecord::delete(11, b"k".to_vec()));
    assert_eq!(path, "/tmp/wal-manager/wal_4.log");
    assert_eq!(wal.next_wal_id(), 5);
    let oldest = wal.pop_oldest().unwrap();
    assert_eq!(oldest.path(), Some("/tmp/wal-manager/wal_3.log"));
    assert_eq!(wal.segment_path(7), "/tmp/wal-manager/wal_7.log");
}

#[test]
fn manager_replays_a_segment_file() {
    let wal = WalManager::open("/tmp/wal-replay", 0, 0);
    let mut bytes = WalRecord::put(1, b"a".to_vec(), b"one".to_vec()).encode();
    bytes.extend(WalRecord::delete(2, b"a".to_vec()).encode());
    let segment = wal.replay_segment(4, &bytes).unwrap();
    assert_eq!(segment.wal_id, 4);
    assert_eq!(segment.records.len(), 2);
    assert_eq!(segment.records[1], WalRecord::delete(2, b"a".to_vec()));
}

#[test]
fn wal_file_names_give_their_ids_in_order() {
    assert_eq!(wal_file_id(b"wal_12.log"), Some(12));
    assert_eq!(wal_file_id(b"wal_.log"), None);
    assert_eq!(wal_file_id(b"wal_1x.log"), None);
    assert_eq!(wal_file_id(b"other.log"), None);
    let names = vec![b"wal_10.log".to_vec(), b"notes".to_vec(), b"wal_2.log".to_vec(), b"wal_7.log".to_vec()];
    assert_eq!(wal_segment_ids(&names), vec![2, 7, 10]);
}

#[test]
fn manager_current_segment_takes_appends() {
    let mut wal = WalManager::open("/tmp/wal-current", 2, 1);
    let current = wal.current_mut().unwrap();
    assert_eq!(current.path(), Some("/tmp/wal-current/wal_2.log"));
    current.append(WalRecord::put(1, b"k".to_vec(), b"v".to_vec()));
    assert_eq!(wal.current_mut().unwrap().records().len(), 1);
    wal.pop_oldest();
    assert!(wal.current_mut().is_none());
    assert!(wal.is_empty());
}

#[test]
fn removing_a_segment_names_its_file() {
    let wal = WriteAheadLog::new("/tmp/wal-remove.wal");
    match wal.remove_file() {
        Some(pocket_lsm::engine::FileOp::Remove { path }) => assert_eq!(path, "/tmp/wal-remove.wal"),
        _ => panic!("expected the segment's file to be removed"),
    }
    assert!(WriteAheadLog::default().remove_file().is_none());
}
