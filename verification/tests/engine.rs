use std::collections::BTreeMap;

use pocket_lsm::current::CurrentState;
use pocket_lsm::engine::{Engine, FileOp};
use pocket_lsm::storage::manifest::manifest_names;
use pocket_lsm::storage::sstable::meta::SSTableMeta;
use pocket_lsm::wal::manager::wal_segment_ids;
use pocket_lsm::{EngineConfig, Result};

/// A data directory held in memory: file paths and their bytes.
#[derive(Default)]
struct Disk {
    files: BTreeMap<String, Vec<u8>>,
}

impl Disk {
    fn apply(&mut self, ops: Vec<FileOp>) {
        for op in ops {
            match op {
                FileOp::Append { path, bytes } => self.files.entry(path).or_default().extend(bytes),
                FileOp::Write { path, bytes } => {
                    self.files.insert(path, bytes);
                }
                FileOp::Remove { path } => {
                    self.files.remove(&path);
                }
            }
        }
    }

    fn names_in(&self, dir: &str) -> Vec<Vec<u8>> {
        let prefix = format!("{dir}/");
        self.files
            .keys()
            .filter_map(|p| p.strip_prefix(&prefix))
            .filter(|rest| !rest.contains('/'))
            .map(|rest| rest.as_bytes().to_vec())
            .collect()
    }

    fn manifest_files(&self, data_dir: &str) -> (Vec<Vec<u8>>, Vec<Vec<u8>>) {
        let dir = format!("{data_dir}/manifest");
        let names = self.names_in(&dir);
        let sorted = manifest_names(&names);
        let files = sorted
            .iter()
            .map(|n| self.files[&format!("{dir}/{}", String::from_utf8(n.clone()).unwrap())].clone())
            .collect();
        (names, files)
    }

    fn current_state(&self, data_dir: &str) -> CurrentState {
        CurrentState::decode(&self.files[&format!("{data_dir}/CURRENT")]).unwrap()
    }
}

fn open(disk: &mut Disk, config: &EngineConfig) -> Engine {
    let data_dir = config.data_dir.clone();
    let current = disk.files.get(&format!("{data_dir}/CURRENT")).cloned();
    let (names, manifests) = disk.manifest_files(&data_dir);
    let wal_dir = format!("{data_dir}/wal");
    let ids = wal_segment_ids(&disk.names_in(&wal_dir));
    let wal_files: Vec<(u64, Vec<u8>)> =
        ids.iter().map(|id| (*id, disk.files[&format!("{wal_dir}/wal_{id}.log")].clone())).collect();
    let (engine, ops) = Engine::new(config, current.as_deref(), &names, &manifests, &wal_files).unwrap();
    disk.apply(ops);
    engine
}

fn put(engine: &mut Engine, disk: &mut Disk, key: &[u8], value: &[u8]) {
    assert!(engine.can_write(key.len(), value.len()));
    let ops = engine.put(key.to_vec(), value.to_vec());
    disk.apply(ops);
}

fn delete(engine: &mut Engine, disk: &mut Disk, key: &[u8]) {
    assert!(engine.can_write(key.len(), 0));
    let ops = engine.delete(key.to_vec());
    disk.apply(ops);
}

fn sstables(engine: &Engine, disk: &Disk) -> Vec<SSTableMeta> {
    let (_, files) = disk.manifest_files(engine.data_dir());
    engine.manifest_sstables(&files).unwrap()
}

fn sstable_count(engine: &Engine, disk: &Disk) -> usize {
    let (_, files) = disk.manifest_files(engine.data_dir());
    engine.sstable_count(&files).unwrap()
}

fn get(engine: &Engine, disk: &Disk, key: &[u8]) -> Result<Option<Vec<u8>>> {
    if let Some(answer) = engine.memtable_get(key) {
        return Ok(answer);
    }
    let metas = sstables(engine, disk);
    let tables: Vec<Vec<u8>> =
        metas.iter().map(|m| disk.files[&engine.sstable_path(m.file_id())].clone()).collect();
    engine.get(key, &metas, &tables)
}

fn isolated_config(name: &str) -> EngineConfig {
    let mut config = EngineConfig::new(&format!("/tmp/{name}"));
    config.memtable_threshold = 8;
    config.maximum_memtables = 0;
    config
}

fn config() -> EngineConfig {
    isolated_config("storage-engine-tests")
}

fn config_with_immutable_queue() -> EngineConfig {
    let mut config = isolated_config("storage-engine-immutable-tests");
    config.memtable_threshold = 8;
    config.maximum_memtables = 4;
    config
}

#[test]
fn put_and_get_from_active_memtable() {
    let mut disk = Disk::default();
    let mut engine = open(&mut disk, &config());
    put(&mut engine, &mut disk, b"a", b"1");

    assert_eq!(get(&engine, &disk, b"a").unwrap(), Some(b"1".to_vec()));
}

#[test]
fn flushes_filled_memtable_to_sstable_and_reads_from_it() {
    let mut disk = Disk::default();
    let mut engine = open(&mut disk, &config());
    put(&mut engine, &mut disk, b"alpha", b"one");

    assert_eq!(sstable_count(&engine, &disk), 1);
    assert_eq!(engine.memtable_size(), 0);
    assert_eq!(get(&engine, &disk, b"alpha").unwrap(), Some(b"one".to_vec()));
}

#[test]
fn newest_value_wins_across_sstables() {
    let mut disk = Disk::default();
    let mut engine = open(&mut disk, &config());
    put(&mut engine, &mut disk, b"alpha", b"one");
    put(&mut engine, &mut disk, b"alpha", b"two");

    assert_eq!(sstable_count(&engine, &disk), 2);
    assert_eq!(get(&engine, &disk, b"alpha").unwrap(), Some(b"two".to_vec()));
}

#[test]
fn delete_hides_older_values() {
    let mut disk = Disk::default();
    let mut engine = open(&mut disk, &config());
    put(&mut engine, &mut disk, b"alpha", b"one");
    delete(&mut engine, &mut disk, b"alpha");

    assert_eq!(get(&engine, &disk, b"alpha").unwrap(), None);
}

#[test]
fn reads_from_immutable_memtable_before_flush() {
    let mut disk = Disk::default();
    let mut engine = open(&mut disk, &config_with_immutable_queue());
    put(&mut engine, &mut disk, b"alpha", b"one");

    assert_eq!(sstable_count(&engine, &disk), 0);
    assert_eq!(engine.immutable_memtable_count(), 1);
    assert_eq!(get(&engine, &disk, b"alpha").unwrap(), Some(b"one".to_vec()));
}

#[test]
fn flush_records_sstable_in_manifest() {
    let config = isolated_config("storage-engine-manifest");
    let mut disk = Disk::default();
    let mut engine = open(&mut disk, &config);

    put(&mut engine, &mut disk, b"alpha", b"one");

    let metas = sstables(&engine, &disk);
    assert_eq!(metas.len(), 1);
    assert_eq!(metas[0].file_id(), 0);
    assert_eq!(metas[0].smallest_key(), b"alpha");
    assert_eq!(metas[0].largest_key(), b"alpha");
}

#[test]
fn reopened_engine_reads_sstables_from_manifest() {
    let config = isolated_config("storage-engine-reopen-manifest");
    let mut disk = Disk::default();
    let mut engine = open(&mut disk, &config);

    put(&mut engine, &mut disk, b"alpha", b"one");
    drop(engine);

    let mut reopened = open(&mut disk, &config);

    assert_eq!(get(&reopened, &disk, b"alpha").unwrap(), Some(b"one".to_vec()));
    put(&mut reopened, &mut disk, b"beta", b"two");
    let metas = sstables(&reopened, &disk);
    assert_eq!(metas.len(), 2);
    assert_eq!(metas[0].file_id(), 0);
    assert_eq!(metas[1].file_id(), 1);
}

#[test]
fn current_file_tracks_recovery_ids() {
    let config = isolated_config("storage-engine-current");
    let data_dir = config.data_dir.clone();
    let mut disk = Disk::default();
    let mut engine = open(&mut disk, &config);

    put(&mut engine, &mut disk, b"alpha", b"one");

    let current = disk.current_state(&data_dir);
    assert_eq!(current.next_sstable_id, 1);
    assert_eq!(current.next_wal_id, 2);
    assert_eq!(current.next_manifest_id, 1);
    assert_eq!(current.next_sequence_id, 2);
}

#[test]
fn reopened_engine_uses_current_file_for_next_ids() {
    let config = isolated_config("storage-engine-current-reopen");
    let data_dir = config.data_dir.clone();
    let mut disk = Disk::default();
    let mut engine = open(&mut disk, &config);

    put(&mut engine, &mut disk, b"alpha", b"one");
    drop(engine);

    let mut reopened = open(&mut disk, &config);
    put(&mut reopened, &mut disk, b"beta", b"two");

    let current = disk.current_state(&data_dir);
    let metas = sstables(&reopened, &disk);
    assert_eq!(metas.iter().map(|meta| meta.file_id()).collect::<Vec<_>>(), vec![0, 1]);
    assert_eq!(current.next_sstable_id, 2);
    assert_eq!(current.next_wal_id, 4);
    assert!(disk.files.contains_key(&format!("{data_dir}/CURRENT")));
}

#[test]
fn recovers_unflushed_put_from_wal() {
    let mut config = isolated_config("storage-engine-recover-put");
    config.memtable_threshold = 4096;
    let mut disk = Disk::default();
    let mut engine = open(&mut disk, &config);

    put(&mut engine, &mut disk, b"alpha", b"one");
    drop(engine);

    let recovered = open(&mut disk, &config);

    assert_eq!(get(&recovered, &disk, b"alpha").unwrap(), Some(b"one".to_vec()));
    assert_eq!(sstable_count(&recovered, &disk), 0);
}

#[test]
fn recovers_pre_crash_active_wal_as_active_memtable() {
    let mut config = isolated_config("storage-engine-recover-active-wal");
    config.memtable_threshold = 4096;
    let mut disk = Disk::default();
    let mut engine = open(&mut disk, &config);

    put(&mut engine, &mut disk, b"alpha", b"one");
    drop(engine);

    let recovered = open(&mut disk, &config);

    assert_eq!(get(&recovered, &disk, b"alpha").unwrap(), Some(b"one".to_vec()));
    assert!(recovered.memtable_size() > 0);
    assert_eq!(recovered.immutable_memtable_count(), 0);
}

#[test]
fn recovers_rotated_wal_as_immutable_memtable() {
    let mut config = isolated_config("storage-engine-recover-immutable-wal");
    config.memtable_threshold = 8;
    config.maximum_memtables = 4;
    let mut disk = Disk::default();
    let mut engine = open(&mut disk, &config);

    put(&mut engine, &mut disk, b"alpha", b"one");
    drop(engine);

    let recovered = open(&mut disk, &config);

    assert_eq!(get(&recovered, &disk, b"alpha").unwrap(), Some(b"one".to_vec()));
    assert_eq!(recovered.memtable_size(), 0);
    assert_eq!(recovered.immutable_memtable_count(), 1);
    assert_eq!(sstable_count(&recovered, &disk), 0);
}

#[test]
fn recovers_unflushed_delete_from_wal() {
    let config = isolated_config("storage-engine-recover-delete");
    let mut disk = Disk::default();
    let mut engine = open(&mut disk, &config);

    put(&mut engine, &mut disk, b"alpha", b"one");
    delete(&mut engine, &mut disk, b"alpha");
    drop(engine);

    let recovered = open(&mut disk, &config);

    assert_eq!(get(&recovered, &disk, b"alpha").unwrap(), None);
    assert_eq!(sstable_count(&recovered, &disk), 1);
}

#[test]
fn recovered_wal_advances_next_sequence_id() {
    let mut config = isolated_config("storage-engine-recover-sequence");
    config.memtable_threshold = 4096;
    let data_dir = config.data_dir.clone();
    let mut disk = Disk::default();
    let mut engine = open(&mut disk, &config);

    put(&mut engine, &mut disk, b"alpha", b"one");
    drop(engine);

    let mut recovered = open(&mut disk, &config);
    put(&mut recovered, &mut disk, b"beta", b"two");

    let current = disk.current_state(&data_dir);
    assert_eq!(current.next_sequence_id, 3);
}

#[test]
fn recover_lists_manifest_and_current_changes() {
    let config = isolated_config("storage-engine-recover-ops");
    let (engine, ops) = Engine::new(&config, None, &[], &[], &[]).unwrap();
    assert_eq!(ops.len(), 2);
    match &ops[0] {
        FileOp::Append { path, bytes } => {
            assert_eq!(path, "/tmp/storage-engine-recover-ops/manifest/00000000000000000000.manifest");
            assert!(bytes.is_empty());
        }
        _ => panic!("expected the manifest file to be created"),
    }
    match &ops[1] {
        FileOp::Write { path, bytes } => {
            assert_eq!(path, "/tmp/storage-engine-recover-ops/CURRENT");
            assert_eq!(CurrentState::decode(bytes).unwrap(), engine.current_state());
        }
        _ => panic!("expected CURRENT to be written"),
    }
    assert_eq!(engine.current_state().next_wal_id, 1);
    assert_eq!(engine.current_state().next_sequence_id, 1);
}

#[test]
fn recover_rejects_corrupt_current() {
    let config = isolated_config("storage-engine-corrupt-current");
    assert!(Engine::new(&config, Some(b"next_wal_id=x\n"), &[], &[], &[]).is_err());
}

#[test]
fn recover_rejects_corrupt_wal_segment() {
    let config = isolated_config("storage-engine-corrupt-wal");
    let wal = vec![(0u64, vec![1u8, 2, 3])];
    assert!(Engine::new(&config, None, &[], &[], &wal).is_err());
}

#[test]
fn write_lists_wal_append_then_current() {
    let mut config = isolated_config("storage-engine-write-ops");
    config.memtable_threshold = 4096;
    let mut disk = Disk::default();
    let mut engine = open(&mut disk, &config);
    let ops = engine.put(b"k".to_vec(), b"v".to_vec());
    assert_eq!(ops.len(), 2);
    match &ops[0] {
        FileOp::Append { path, .. } => assert_eq!(path, "/tmp/storage-engine-write-ops/wal/wal_0.log"),
        _ => panic!("expected a WAL append"),
    }
    match &ops[1] {
        FileOp::Write { path, .. } => assert_eq!(path, "/tmp/storage-engine-write-ops/CURRENT"),
        _ => panic!("expected CURRENT to be written"),
    }
    disk.apply(ops);
    assert_eq!(engine.memtable_size(), 3);
    assert_eq!(engine.data_dir(), "/tmp/storage-engine-write-ops");
}

#[test]
fn flush_without_immutable_memtable_lists_nothing() {
    let mut config = isolated_config("storage-engine-flush-nothing");
    config.memtable_threshold = 4096;
    let mut disk = Disk::default();
    let mut engine = open(&mut disk, &config);
    assert!(engine.flush_memtable().is_empty());
}

#[test]
fn write_that_fills_memtable_reads_back_from_sstable() {
    // the write that fills the memtable is flushed at once and read back
    // from the SSTable it laid out
    let mut disk = Disk::default();
    let mut engine = open(&mut disk, &config());
    put(&mut engine, &mut disk, b"key", b"value");
    assert_eq!(engine.memtable_get(b"key"), None);
    assert_eq!(get(&engine, &disk, b"key").unwrap(), Some(b"value".to_vec()));
    assert_eq!(get(&engine, &disk, b"other").unwrap(), None);
}

#[test]
fn wal_segment_file_holds_the_log_of_its_records() {
    let mut config = isolated_config("storage-engine-wal-file");
    config.memtable_threshold = 4096;
    let mut disk = Disk::default();
    let mut engine = open(&mut disk, &config);
    put(&mut engine, &mut disk, b"a", b"1");
    delete(&mut engine, &mut disk, b"b");
    let mut expected = pocket_lsm::wal::WalRecord::put(1, b"a".to_vec(), b"1".to_vec()).encode();
    expected.extend(pocket_lsm::wal::WalRecord::delete(2, b"b".to_vec()).encode());
    assert_eq!(disk.files["/tmp/storage-engine-wal-file/wal/wal_0.log"], expected);
    drop(engine);
    let reopened = open(&mut disk, &config);
    assert_eq!(get(&reopened, &disk, b"a").unwrap(), Some(b"1".to_vec()));
    assert_eq!(reopened.memtable_get(b"b"), Some(None));
    assert_eq!(reopened.current_state().next_sequence_id, 3);
}
