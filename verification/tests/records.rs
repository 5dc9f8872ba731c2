use pocket_lsm::current::{current_path, CurrentFile, CurrentState};
use pocket_lsm::wal::{replay_bytes, WalRecord};
use pocket_lsm::EngineError;

#[test]
fn wal_records_replay_in_order() {
    let mut bytes = WalRecord::put(1, b"a".to_vec(), b"one".to_vec()).encode();
    bytes.extend(WalRecord::delete(2, b"b".to_vec()).encode());
    let records = replay_bytes(&bytes).unwrap();
    assert_eq!(records, vec![WalRecord::put(1, b"a".to_vec(), b"one".to_vec()), WalRecord::delete(2, b"b".to_vec())]);
    assert_eq!(records[1].sequence_id(), 2);
    assert_eq!(records[0].key(), b"a");
}

#[test]
fn wal_replay_rejects_checksum_mismatch() {
    let mut bytes = WalRecord::put(1, b"a".to_vec(), b"one".to_vec()).encode();
    let last = bytes.len() - 1;
    bytes[last] ^= 0xff;
    assert_eq!(replay_bytes(&bytes), Err(EngineError::CorruptWal("checksum mismatch")));
}

#[test]
fn current_state_round_trips_through_text() {
    let state = CurrentState { next_sstable_id: 7, next_wal_id: 3, next_manifest_id: 2, next_sequence_id: 11 };
    let text = state.encode();
    assert_eq!(
        String::from_utf8(text.clone()).unwrap(),
        "next_sstable_id=7\nnext_wal_id=3\nnext_manifest_id=2\nnext_sequence_id=11\n"
    );
    assert_eq!(CurrentState::decode(&text).unwrap(), state);
    assert_eq!(CurrentState::decode(b"").unwrap(), CurrentState::default());
}

#[test]
fn current_state_rejects_bad_lines() {
    assert_eq!(CurrentState::decode(b"next_wal_id"), Err(EngineError::CorruptFormat("invalid CURRENT line")));
    assert_eq!(CurrentState::decode(b"next_wal_id=x"), Err(EngineError::CorruptFormat("invalid CURRENT value")));
    assert_eq!(CurrentState::decode(b"other=1"), Err(EngineError::CorruptFormat("unknown CURRENT key")));
}

#[test]
fn current_file_holds_path_and_state() {
    let path = current_path("data");
    assert_eq!(path, "data/CURRENT");
    let mut file = CurrentFile::new(path, CurrentState::default());
    file.state_mut().next_wal_id = 4;
    assert_eq!(file.state().next_wal_id, 4);
    assert_eq!(file.path(), "data/CURRENT");
}

#[test]
fn persisting_current_rewrites_the_file_with_its_state() {
    let mut file = CurrentFile::new(current_path("db"), CurrentState::default());
    file.state_mut().next_sstable_id = 9;
    match file.persist() {
        pocket_lsm::engine::FileOp::Write { path, bytes } => {
            assert_eq!(path, "db/CURRENT");
            assert_eq!(bytes, b"next_sstable_id=9\nnext_wal_id=0\nnext_manifest_id=0\nnext_sequence_id=1\n".to_vec());
        }
        _ => panic!("expected CURRENT to be written"),
    }
}

#[test]
fn persists_and_loads_current_state() {
    let mut current = CurrentFile::open("current-file", None).unwrap();
    current.state_mut().next_sstable_id = 7;
    current.state_mut().next_wal_id = 3;
    current.state_mut().next_manifest_id = 2;
    current.state_mut().next_sequence_id = 11;
    let bytes = match current.persist() {
        pocket_lsm::engine::FileOp::Write { path, bytes } => {
            assert_eq!(path, "current-file/CURRENT");
            bytes
        }
        _ => panic!("expected CURRENT to be written"),
    };

    let loaded = CurrentFile::open("current-file", Some(&bytes)).unwrap();

    assert_eq!(
        loaded.state(),
        &CurrentState { next_sstable_id: 7, next_wal_id: 3, next_manifest_id: 2, next_sequence_id: 11 }
    );
    assert!(CurrentFile::open("current-file", Some(b"bogus")).is_err());
}

#[test]
fn a_refused_line_refuses_the_whole_text() {
    assert_eq!(
        CurrentState::decode(b"next_wal_id=3\nnext_sstable_id=4\nbroken"),
        Err(EngineError::CorruptFormat("invalid CURRENT line"))
    );
    assert_eq!(
        CurrentState::decode(b"next_wal_id=3\r\nunknown=1\nnext_sstable_id=4\n"),
        Err(EngineError::CorruptFormat("unknown CURRENT key"))
    );
}
