use vstd::prelude::*;

use crate::config::EngineConfig;
use crate::disk::{
    apply_op, apply_ops, file_of, lemma_apply_ops_concat, lemma_apply_ops_push, lemma_current_not_wal, lemma_manifest_not_wal,
    lemma_sstable_not_wal, lemma_wal_on_disk_append, lemma_wal_on_disk_other, lemma_wal_on_disk_pop,
    lemma_wal_on_disk_rotate, op_path, wal_file_path, wal_on_disk,
};
use crate::current::{current_bytes, parse_current, CurrentFile, CurrentState};
use crate::error::{EngineError, Result};
use crate::index::memtable_manager::{record_value, records_size, replay_entries, MemTableManager, MemTableWriteOutcome};
use crate::index::{insert_entry, lookup, total_size, EntriesView, Key, Value, ValueView, VALUE_KIND_SIZE};
use crate::storage::manifest::record::{manifest_record_bytes, parse_manifest_log, ManifestRecordView};
use crate::storage::manifest::{
    apply_records_spec, files_view, lists_by_id, manifest_dir_of, manifest_file_name, max_manifest_id, max_manifest_id_of,
    metas_view, replay_files, ManifestManager,
};
use crate::storage::sstable::meta::SSTableMetaView;
use crate::storage::sstable::block::payload_of;
use crate::storage::sstable::manager::{tables_get, written_table, SSTableManager};
use crate::storage::sstable::meta::SSTableMeta;
use crate::storage::sstable::writer::entries_fit;
use crate::wal::manager::{fresh_segment, wal_file_name, WalManager, WalManagerView};
use crate::wal::log::WalView;
use crate::wal::record::{lemma_log_round_trip, lemma_parsed_log, log_bytes, parse_wal_log, wal_frame, wal_log, WalRecord, WalRecordView};

verus! {

/// A change to a file that the engine asks for, in the order asked.
pub enum FileOp {
    /// Append `bytes` to the file at `path`, creating it, and sync it.
    Append { path: String, bytes: Vec<u8> },
    /// Make the file at `path` hold exactly `bytes`, and sync it.
    Write { path: String, bytes: Vec<u8> },
    /// Remove the file at `path`, if it exists.
    Remove { path: String },
}

/// The contents of a `FileOp`.
pub enum FileOpView {
    Append { path: Seq<char>, bytes: Seq<u8> },
    Write { path: Seq<char>, bytes: Seq<u8> },
    Remove { path: Seq<char> },
}

impl View for FileOp {
    type V = FileOpView;

    open spec fn view(&self) -> FileOpView {
        match self {
            FileOp::Append { path, bytes } => FileOpView::Append { path: path@, bytes: bytes@ },
            FileOp::Write { path, bytes } => FileOpView::Write { path: path@, bytes: bytes@ },
            FileOp::Remove { path } => FileOpView::Remove { path: path@ },
        }
    }
}

/// The contents of a list of file operations.
pub open spec fn ops_view(ops: Seq<FileOp>) -> Seq<FileOpView> {
    Seq::new(ops.len(), |i: int| ops[i]@)
}

/// Every entry of the memtables fits the 32-bit length fields of an SSTable
/// block.
pub open spec fn layers_fit(active: EntriesView, imms: Seq<EntriesView>) -> bool {
    &&& entries_fit(active)
    &&& forall|i: int| 0 <= i < imms.len() ==> entries_fit(#[trigger] imms[i])
}

/// Records whose keys and values fit 32-bit length fields.
pub open spec fn records_fit(rs: Seq<WalRecordView>) -> bool {
    forall|i: int| 0 <= i < rs.len() ==> (#[trigger] rs[i]).key().len() <= u32::MAX && rs[i].value_len() <= u32::MAX
}

/// Binding a fitting key to a fitting value keeps entries fitting.
proof fn lemma_insert_fits(s: EntriesView, k: Seq<u8>, v: ValueView)
    requires
        entries_fit(s),
        k.len() <= u32::MAX,
        payload_of(v).len() <= u32::MAX,
    ensures
        entries_fit(insert_entry(s, k, v)),
{
    let t = insert_entry(s, k, v);
    let p = crate::index::lower_bound(s, k) as int;
    lemma_lower_bound_le(s, k);
    assert forall|i: int| 0 <= i < t.len() implies #[trigger] t[i].0.len() <= u32::MAX && payload_of(t[i].1).len() <= u32::MAX by {
        if p < s.len() && s[p].0 == k {
            if i != p {
                assert(t[i] == s[i]);
            }
        } else {
            if i < p {
                assert(t[i] == s[i]);
            } else if i > p {
                assert(t[i] == s[i - 1]);
            }
        }
    }
}

/// The position of a key is within the entries.
proof fn lemma_lower_bound_le(s: EntriesView, k: Seq<u8>)
    ensures
        crate::index::lower_bound(s, k) <= s.len(),
    decreases s.len(),
{
    if s.len() > 0 {
        lemma_lower_bound_le(s.drop_first(), k);
    }
}

/// Replaying fitting records gives fitting entries.
proof fn lemma_replay_fits(rs: Seq<WalRecordView>)
    requires
        records_fit(rs),
    ensures
        entries_fit(replay_entries(rs)),
    decreases rs.len(),
{
    if rs.len() > 0 {
        let init = rs.drop_last();
        assert forall|i: int| 0 <= i < init.len() implies (#[trigger] init[i]).key().len() <= u32::MAX && init[i].value_len() <= u32::MAX by {
            assert(init[i] == rs[i]);
        }
        lemma_replay_fits(init);
        let r = rs.last();
        assert(r.key().len() <= u32::MAX && r.value_len() <= u32::MAX);
        lemma_insert_fits(replay_entries(init), r.key(), record_value(r));
    }
}

/// Appending a record adds its bytes to the total.
proof fn lemma_log_bytes_push(rs: Seq<WalRecordView>, r: WalRecordView)
    ensures
        log_bytes(rs.push(r)) == log_bytes(rs) + r.key().len() + r.value_len() + 1,
    decreases rs.len(),
{
    if rs.len() == 0 {
        assert(rs.push(r).drop_first() =~= Seq::<WalRecordView>::empty());
        assert(log_bytes(rs.push(r).drop_first()) == 0);
        assert(rs.push(r)[0] == r);
    } else {
        lemma_log_bytes_push(rs.drop_first(), r);
        assert(rs.push(r).drop_first() =~= rs.drop_first().push(r));
    }
}

/// The size records add to a memtable is the size of their keys and
/// values, a byte more each.
proof fn lemma_records_size(rs: Seq<WalRecordView>)
    ensures
        records_size(rs) == log_bytes(rs),
    decreases rs.len(),
{
    if rs.len() > 0 {
        lemma_records_size(rs.drop_last());
        lemma_log_bytes_push(rs.drop_last(), rs.last());
        assert(rs.drop_last().push(rs.last()) =~= rs);
    }
}

/// The storage engine's state: the `CURRENT` file, the write-ahead log, the
/// memtables, the manifest and the SSTables. Each operation changes the
/// state and lists the file changes that make it durable.
pub struct Engine {
    current: CurrentFile,
    wal: WalManager,
    memtables: MemTableManager,
    manifest_manager: ManifestManager,
    sstables: SSTableManager,
}

impl Engine {
    /// The ids recorded in the `CURRENT` file.
    pub closed spec fn state(&self) -> CurrentState {
        self.current.state_view()
    }

    /// The entries of the active memtable.
    pub closed spec fn active(&self) -> EntriesView {
        self.memtables.active_entries()
    }

    /// The entries of the immutable memtables, oldest first.
    pub closed spec fn immutables(&self) -> Seq<EntriesView> {
        self.memtables.immutable_entries()
    }

    /// Size at which the active memtable becomes immutable.
    pub closed spec fn threshold(&self) -> usize {
        self.memtables.threshold()
    }

    /// Number of immutable memtables above which the oldest is flushed.
    pub closed spec fn maximum(&self) -> usize {
        self.memtables.maximum()
    }

    /// The write-ahead log.
    pub closed spec fn wal_view(&self) -> WalManagerView {
        self.wal@
    }

    /// The id the next SSTable gets.
    pub closed spec fn next_sstable_id_spec(&self) -> u64 {
        self.sstables.next_id_spec()
    }

    /// The id of the manifest file appended to.
    pub closed spec fn manifest_id_spec(&self) -> u64 {
        self.manifest_manager.current_id_spec()
    }

    /// The data directory.
    pub closed spec fn data_dir_spec(&self) -> Seq<char> {
        self.sstables.data_dir_spec()
    }

    /// The manifest file that SSTable records are appended to.
    pub open spec fn manifest_path(&self) -> Seq<char> {
        manifest_dir_of(self.data_dir_spec()) + "/"@ + manifest_file_name(self.manifest_id_spec())
    }

    /// What the memtables hold for `k`, newest first.
    pub open spec fn lookup(&self, k: Seq<u8>) -> Option<ValueView> {
        crate::index::memtable_manager::lookup_layers(self.active(), self.immutables(), k)
    }

    /// The memtables are well formed and their entries fit an SSTable
    /// block; every WAL segment has a file; the managers share the data
    /// directory.
    pub closed spec fn wf(&self) -> bool {
        &&& self.memtables.wf()
        &&& layers_fit(self.memtables.active_entries(), self.memtables.immutable_entries())
        &&& forall|i: int| 0 <= i < self.wal@.segments.len() ==> (#[trigger] self.wal@.segments[i]).path is Some
        &&& self.manifest_manager.data_dir_spec() == self.sstables.data_dir_spec()
        &&& self.manifest_manager.manifest_dir_spec() == manifest_dir_of(self.sstables.data_dir_spec())
        &&& self.current.path_view() == self.sstables.data_dir_spec() + "/CURRENT"@
        &&& self.wal@.sequence < u64::MAX
    }

    /// Another write can be numbered and stored: sequence numbers, the ids
    /// of the WAL segments it may start, and SSTable ids are not exhausted.
    pub closed spec fn ids_available(&self) -> bool {
        &&& self.wal@.sequence + 1 < u64::MAX
        &&& self.wal@.next_wal_id + 1 < u64::MAX
        &&& self.sstables.next_id_spec() < u64::MAX
    }
}

/// The memtables after replaying WAL segments in order, starting from
/// none: a segment older than `active_id` becomes the newest immutable
/// memtable, any other replaces the active memtable.
pub open spec fn recovered_layers(segs: Seq<(u64, Seq<WalRecordView>)>, active_id: u64) -> (EntriesView, Seq<EntriesView>)
    decreases segs.len(),
{
    if segs.len() == 0 {
        (Seq::empty(), Seq::empty())
    } else {
        let (a, imms) = recovered_layers(segs.drop_last(), active_id);
        let (id, rs) = segs.last();
        if id < active_id {
            (a, imms.push(replay_entries(rs)))
        } else {
            (replay_entries(rs), imms)
        }
    }
}

/// The sequence number to resume at after replaying records: one past the
/// largest sequence number seen, and no less than `start`.
pub open spec fn resumed_sequence(start: int, rs: Seq<WalRecordView>) -> int
    decreases rs.len(),
{
    if rs.len() == 0 {
        start
    } else {
        let m = resumed_sequence(start, rs.drop_last());
        let n = rs.last().sequence_id() + 1;
        if m >= n {
            m
        } else {
            n
        }
    }
}

/// The WAL files, each with the records it holds, when all of them parse.
pub open spec fn parsed_segments(files: Seq<(u64, Seq<u8>)>) -> Option<Seq<(u64, Seq<WalRecordView>)>>
    decreases files.len(),
{
    if files.len() == 0 {
        Some(Seq::empty())
    } else {
        match parsed_segments(files.drop_last()) {
            None => None,
            Some(segs) => match parse_wal_log(files.last().1, 0) {
                Ok(rs) => Some(segs.push((files.last().0, rs))),
                Err(_) => None,
            },
        }
    }
}

/// The byte views of WAL files.
pub open spec fn wal_files_view(files: Seq<(u64, Vec<u8>)>) -> Seq<(u64, Seq<u8>)> {
    Seq::new(files.len(), |i: int| (files[i].0, files[i].1@))
}

/// The records of segments, one segment after the other.
pub open spec fn all_records(segs: Seq<(u64, Seq<WalRecordView>)>) -> Seq<WalRecordView>
    decreases segs.len(),
{
    if segs.len() == 0 {
        Seq::empty()
    } else {
        all_records(segs.drop_last()) + segs.last().1
    }
}

/// The out-of-range error that recovery reports for an id that would
/// overflow.
pub open spec fn out_of_range() -> EngineError {
    EngineError::CorruptFormat("recovered id out of range")
}

/// The first fault in WAL files read in order: a file that does not parse,
/// or a record whose sequence number leaves no next one.
pub open spec fn wal_fault(files: Seq<(u64, Seq<u8>)>) -> Option<EngineError>
    decreases files.len(),
{
    if files.len() == 0 {
        None
    } else {
        match wal_fault(files.drop_last()) {
            Some(e) => Some(e),
            None => match parse_wal_log(files.last().1, 0) {
                Err(e) => Some(e),
                Ok(rs) => if exists|j: int| 0 <= j < rs.len() && (#[trigger] rs[j]).sequence_id() == u64::MAX {
                    Some(out_of_range())
                } else {
                    None
                },
            },
        }
    }
}

/// Why recovery refuses its inputs, by the first check that fails: a
/// `CURRENT` text that does not parse; a manifest id, SSTable id or WAL id
/// that leaves no next one; manifest files that do not replay; a WAL fault.
/// `None` when recovery succeeds.
pub open spec fn recover_fault(
    current: Option<Seq<u8>>,
    names: Seq<Seq<u8>>,
    files: Seq<Seq<u8>>,
    wal: Seq<(u64, Seq<u8>)>,
) -> Option<EngineError> {
    let parsed = match current {
        Some(c) => parse_current(c),
        None => Ok(crate::current::default_state()),
    };
    match parsed {
        Err(e) => Some(e),
        Ok(st) => if current is Some && st.next_manifest_id == u64::MAX {
            Some(out_of_range())
        } else if current is None && max_manifest_id(names) is Some && max_manifest_id(names).unwrap() >= u64::MAX
            - 1 {
            Some(out_of_range())
        } else {
            match replay_files(files) {
                Err(e) => Some(e),
                Ok(rs) => if apply_records_spec(rs).contains_key(u64::MAX) {
                    Some(out_of_range())
                } else if st.next_wal_id == u64::MAX {
                    Some(out_of_range())
                } else {
                    wal_fault(wal)
                },
            }
        },
    }
}

/// A fault in a prefix of the files is the first fault of all of them.
proof fn lemma_wal_fault_prefix(files: Seq<(u64, Seq<u8>)>, j: int)
    requires
        0 <= j <= files.len(),
        wal_fault(files.take(j)) is Some,
    ensures
        wal_fault(files) == wal_fault(files.take(j)),
    decreases files.len() - j,
{
    if j < files.len() {
        assert(files.take(j + 1).drop_last() =~= files.take(j));
        lemma_wal_fault_prefix(files, j + 1);
    } else {
        assert(files.take(j) =~= files);
    }
}

impl Engine {
    /// Recovers the engine of `config.data_dir` from its files: the text of
    /// `CURRENT`, if it exists; the names of the manifest directory and the
    /// manifest files in name order; the WAL segment files with their ids,
    /// in increasing id order. Returns the engine and the file changes that
    /// record the resumed ids: creating the current manifest file and
    /// rewriting `CURRENT`.
    pub fn new(
        config: &EngineConfig,
        current: Option<&[u8]>,
        manifest_names: &[Vec<u8>],
        manifest_files: &[Vec<u8>],
        wal_files: &[(u64, Vec<u8>)],
    ) -> (r: Result<(Engine, Vec<FileOp>)>)
        ensures
            r matches Ok((e, ops)) ==> {
                &&& e.wf()
                &&& e.threshold() == config.memtable_threshold
                &&& e.maximum() == config.maximum_memtables
                &&& e.data_dir_spec() == config.data_dir@
                &&& parsed_segments(wal_files_view(wal_files@)) matches Some(segs) && {
                    let st = match current {
                        Some(c) => parse_current(c@).unwrap(),
                        None => crate::current::default_state(),
                    };
                    let active_id = if st.next_wal_id == 0 {
                        0
                    } else {
                        (st.next_wal_id - 1) as u64
                    };
                    &&& (e.active(), e.immutables()) == recovered_layers(segs, active_id)
                    &&& e.state().next_sequence_id == resumed_sequence(
                        (if st.next_sequence_id == 0 {
                            1
                        } else {
                            st.next_sequence_id as int
                        }),
                        all_records(segs),
                    )
                    &&& e.state().next_wal_id == st.next_wal_id + 1
                    &&& e.wal_view().dir == config.data_dir@ + "/wal"@
                    &&& e.wal_view().segments == seq![
                        fresh_segment(config.data_dir@ + "/wal"@ + "/"@ + wal_file_name(st.next_wal_id)),
                    ]
                    &&& e.manifest_id_spec() == (if current is Some {
                        st.next_manifest_id
                    } else {
                        crate::storage::manifest::next_after(
                            max_manifest_id(Seq::new(manifest_names@.len(), |i: int| manifest_names@[i]@)),
                        ) as u64
                    })
                    &&& e.state().next_manifest_id == e.manifest_id_spec() + 1
                    &&& replay_files(files_view(manifest_files@)) matches Ok(rs) && exists|n: u64|
                        #[trigger] crate::storage::manifest::is_next_id(apply_records_spec(rs), n)
                            && e.state().next_sstable_id == (if st.next_sstable_id >= n {
                            st.next_sstable_id
                        } else {
                            n
                        })
                    &&& e.next_sstable_id_spec() == e.state().next_sstable_id
                    &&& forall|disk: Map<Seq<char>, Seq<u8>>|
                        #[trigger] no_wal_files_from(disk, config.data_dir@, (e.state().next_wal_id - 1) as u64)
                            ==> e.disk_holds_wal(
                            apply_ops(disk, ops_view(ops@)),
                        )
                }
                &&& ops_view(ops@) == seq![
                    FileOpView::Append {
                        path: config.data_dir@ + "/manifest"@ + "/"@ + crate::storage::manifest::manifest_file_name(e.manifest_id_spec()),
                        bytes: Seq::empty(),
                    },
                    FileOpView::Write { path: config.data_dir@ + "/CURRENT"@, bytes: current_bytes(e.state()) },
                ]
            },
            wal_files@.len() == 0 ==> (r matches Ok((e, _)) ==> e.mirrors_wal()),
            match recover_fault(
                match current {
                    Some(c) => Some(c@),
                    None => None,
                },
                Seq::new(manifest_names@.len(), |i: int| manifest_names@[i]@),
                files_view(manifest_files@),
                wal_files_view(wal_files@),
            ) {
                Some(e) => r matches Err(x) && x == e,
                None => r is Ok,
            },
    {
        let data_dir = config.data_dir.as_str();
        let exists = current.is_some();
        let current_file = CurrentFile::open(data_dir, current)?;
        let state = *current_file.state();
        let manifest_manager = if exists {
            if state.next_manifest_id == u64::MAX {
                return Err(EngineError::CorruptFormat("recovered id out of range"));
            }
            ManifestManager::open_with_next_manifest_id(data_dir, state.next_manifest_id)
        } else {
            match max_manifest_id_of(manifest_names) {
                Some(m) => {
                    if m >= u64::MAX - 1 {
                        return Err(EngineError::CorruptFormat("recovered id out of range"));
                    }
                    ManifestManager::open_with_next_manifest_id(data_dir, m + 1)
                },
                None => ManifestManager::open_with_next_manifest_id(data_dir, 0),
            }
        };
        let live = manifest_manager.load_sstables(manifest_files)?;
        proof {
            let rs = replay_files(files_view(manifest_files@)).unwrap();
            crate::storage::manifest::lemma_lists_by_id_max(metas_view(live@), apply_records_spec(rs));
        }
        let ghost m = apply_records_spec(replay_files(files_view(manifest_files@)).unwrap());
        let ghost v = metas_view(live@);
        let manifest_next_sstable_id = if live.len() == 0 {
            0
        } else {
            let last = live[live.len() - 1].file_id();
            if last == u64::MAX {
                return Err(EngineError::CorruptFormat("recovered id out of range"));
            }
            last + 1
        };
        proof {
            let n = v.len();
            if n == 0 {
                assert forall|id: u64| !m.contains_key(id) by {
                    if m.contains_key(id) {
                        let i = choose|i: int| 0 <= i < v.len() && (#[trigger] v[i]).file_id == id;
                    }
                }
            } else {
                assert(m.contains_key(v[n - 1].file_id));
                assert forall|id: u64| #[trigger] m.contains_key(id) implies id < manifest_next_sstable_id by {
                    let i = choose|i: int| 0 <= i < v.len() && (#[trigger] v[i]).file_id == id;
                    if i < n - 1 {
                        assert(v[i].file_id < v[n - 1].file_id);
                    }
                }
            }
            assert(crate::storage::manifest::is_next_id(m, manifest_next_sstable_id));
        }
        let next_sstable_id = if state.next_sstable_id >= manifest_next_sstable_id {
            state.next_sstable_id
        } else {
            manifest_next_sstable_id
        };
        let sstables = SSTableManager::new(data_dir, next_sstable_id);
        let recovered_active_wal_id = state.next_wal_id.saturating_sub(1);
        if state.next_wal_id == u64::MAX {
            return Err(EngineError::CorruptFormat("recovered id out of range"));
        }
        let mut wal_dir = String::from_str(data_dir);
        wal_dir.append("/wal");
        let mut wal = WalManager::open(wal_dir.as_str(), state.next_wal_id, state.next_sequence_id);
        let mut memtables = MemTableManager::new(config.memtable_threshold, config.maximum_memtables);
        let start = wal.next_sequence_id();
        let next_sequence_id = replay_wal(&mut memtables, &wal, wal_files, recovered_active_wal_id, start)?;
        wal.set_next_sequence_id(next_sequence_id);
        let mut current_file = current_file;
        let st = current_file.state_mut();
        st.next_sstable_id = next_sstable_id;
        st.next_wal_id = wal.next_wal_id();
        st.next_manifest_id = manifest_manager.next_manifest_id();
        st.next_sequence_id = next_sequence_id;
        let mut ops: Vec<FileOp> = Vec::new();
        ops.push(FileOp::Append { path: manifest_manager.current_manifest_path(), bytes: Vec::new() });
        ops.push(FileOp::Write { path: String::from_str(current_file.path()), bytes: current_file.state().encode() });
        let engine = Engine { current: current_file, wal, memtables, manifest_manager, sstables };
        proof {
            assert(ops_view(ops@) =~= seq![
                FileOpView::Append {
                    path: config.data_dir@ + "/manifest"@ + "/"@ + crate::storage::manifest::manifest_file_name(engine.manifest_id_spec()),
                    bytes: Seq::empty(),
                },
                FileOpView::Write { path: config.data_dir@ + "/CURRENT"@, bytes: current_bytes(engine.state()) },
            ]);
            let d = config.data_dir@;
            let w = engine.wal_view();
            let ov = ops_view(ops@);
            assert forall|i: int, id: u64| 0 <= i < ov.len() implies op_path(#[trigger] ov[i]) != #[trigger] wal_file_path(
                d,
                id,
            ) by {
                if i == 0 {
                    lemma_manifest_not_wal(d, crate::storage::manifest::manifest_file_name(engine.manifest_id_spec()), id);
                } else {
                    lemma_current_not_wal(d, id);
                }
            }
            assert forall|disk: Map<Seq<char>, Seq<u8>>| #[trigger] no_wal_files_from(disk, d, (engine.state().next_wal_id - 1) as u64)
                implies engine.disk_holds_wal(apply_ops(disk, ov)) by {
                assert(wal_file_name(state.next_wal_id) == wal_file_name((w.next_wal_id - 1 + 0) as u64));
                assert(wal_on_disk(w, d, disk)) by {
                    assert(wal_log(Seq::<WalRecordView>::empty()) =~= Seq::<u8>::empty());
                }
                lemma_ops_keep_wal(w, w, d, disk, ov, ov.len() as int);
            }
        }
        Ok((engine, ops))
    }
}

/// Replays the WAL files into the memtables, in order: segments older than
/// `active_id` become immutable memtables, others the active one. Returns
/// the sequence number to resume at.
fn replay_wal(
    memtables: &mut MemTableManager,
    wal: &WalManager,
    wal_files: &[(u64, Vec<u8>)],
    active_id: u64,
    start: u64,
) -> (r: Result<u64>)
    requires
        old(memtables).wf(),
        old(memtables).active_entries() == Seq::<(Seq<u8>, ValueView)>::empty(),
        old(memtables).immutable_entries() == Seq::<EntriesView>::empty(),
    ensures
        final(memtables).wf(),
        final(memtables).threshold() == old(memtables).threshold(),
        final(memtables).maximum() == old(memtables).maximum(),
        r matches Ok(n) ==> parsed_segments(wal_files_view(wal_files@)) matches Some(segs) && {
            &&& (final(memtables).active_entries(), final(memtables).immutable_entries()) == recovered_layers(segs, active_id)
            &&& n == resumed_sequence(start as int, all_records(segs))
            &&& layers_fit(final(memtables).active_entries(), final(memtables).immutable_entries())
        },
        match wal_fault(wal_files_view(wal_files@)) {
            Some(e) => r == Err::<u64, EngineError>(e),
            None => r is Ok,
        },
{
    let ghost files = wal_files_view(wal_files@);
    let mut next = start;
    let mut k: usize = 0;
    let ghost mut segs: Seq<(u64, Seq<WalRecordView>)> = Seq::empty();
    proof {
        assert(files.take(0) =~= Seq::<(u64, Seq<u8>)>::empty());
        assert(Seq::<EntriesView>::empty() =~= Seq::<EntriesView>::empty());
    }
    while k < wal_files.len()
        invariant
            k <= wal_files@.len(),
            files == wal_files_view(wal_files@),
            memtables.wf(),
            memtables.threshold() == old(memtables).threshold(),
            memtables.maximum() == old(memtables).maximum(),
            parsed_segments(files.take(k as int)) == Some(segs),
            wal_fault(files.take(k as int)) is None,
            (memtables.active_entries(), memtables.immutable_entries()) == recovered_layers(segs, active_id),
            next == resumed_sequence(start as int, all_records(segs)),
            layers_fit(memtables.active_entries(), memtables.immutable_entries()),
        decreases wal_files@.len() - k,
    {
        let (wal_id, bytes) = &wal_files[k];
        let n = bytes.len();
        proof {
            assert(files.take(k + 1).drop_last() =~= files.take(k as int));
            assert(files.take(k + 1).last() == (*wal_id, bytes@));
        }
        let segment = match wal.replay_segment(*wal_id, bytes.as_slice()) {
            Ok(segment) => segment,
            Err(e) => {
                proof {
                    assert(wal_fault(files.take(k + 1)) == Some(e));
                    lemma_wal_fault_prefix(files, k + 1);
                }
                return Err(e);
            },
        };
        let ghost rs = parse_wal_log(bytes@, 0).unwrap();
        proof {
            lemma_parsed_log(bytes@, 0);
            lemma_records_size(rs);
            assert(segment.records@.map_values(|r: WalRecord| r@) =~= rs);
        }
        next = match resume_after(&segment.records, next) {
            Some(n) => n,
            None => {
                proof {
                    let j = choose|j: int| 0 <= j < rs.len() && (#[trigger] rs[j]).sequence_id() == u64::MAX;
                    assert(segment.records@[j]@ == rs[j]);
                    assert(wal_fault(files.take(k + 1)) == Some(out_of_range()));
                    lemma_wal_fault_prefix(files, k + 1);
                }
                return Err(EngineError::CorruptFormat("recovered id out of range"));
            },
        };
        proof {
            assert forall|j: int| 0 <= j < rs.len() implies (#[trigger] rs[j]).sequence_id() != u64::MAX by {
                assert(segment.records@[j]@ == rs[j]);
            }
        }
        if *wal_id < active_id {
            memtables.recover_immutable_segment(segment.records);
        } else {
            memtables.recover_active_segment(segment.records);
        }
        proof {
            assert(wal_fault(files.take(k + 1)) is None);
            lemma_replay_fits(rs);
            let next_segs = segs.push((*wal_id, rs));
            assert(next_segs.drop_last() =~= segs);
            lemma_resumed_append(start as int, all_records(segs), rs);
            assert(all_records(next_segs) == all_records(segs) + rs);
            segs = next_segs;
        }
        k = k + 1;
    }
    proof {
        assert(files.take(k as int) =~= files);
    }
    Ok(next)
}

/// The sequence number to resume at after `records`, starting from
/// `start`; `None` when a record's sequence number leaves no next one.
fn resume_after(records: &Vec<WalRecord>, start: u64) -> (r: Option<u64>)
    ensures
        (r is None) == exists|j: int| 0 <= j < records@.len() && (#[trigger] records@[j])@.sequence_id() == u64::MAX,
        r matches Some(n) ==> n == resumed_sequence(start as int, records@.map_values(|x: WalRecord| x@)),
{
    let ghost rs = records@.map_values(|x: WalRecord| x@);
    let mut next = start;
    let mut i: usize = 0;
    while i < records.len()
        invariant
            i <= records@.len(),
            rs == records@.map_values(|x: WalRecord| x@),
            next == resumed_sequence(start as int, rs.take(i as int)),
            forall|j: int| 0 <= j < i ==> (#[trigger] records@[j])@.sequence_id() != u64::MAX,
        decreases records@.len() - i,
    {
        let id = records[i].sequence_id();
        proof {
            assert(rs.take(i + 1).drop_last() =~= rs.take(i as int));
            assert(rs.take(i + 1).last() == records@[i as int]@);
        }
        if id == u64::MAX {
            return None;
        }
        if id + 1 > next {
            next = id + 1;
        }
        i = i + 1;
    }
    assert(rs.take(rs.len() as int) =~= rs);
    Some(next)
}

/// Resuming after two runs of records resumes after the second, starting
/// from where the first left off.
proof fn lemma_resumed_append(start: int, a: Seq<WalRecordView>, b: Seq<WalRecordView>)
    ensures
        resumed_sequence(start, a + b) == resumed_sequence(resumed_sequence(start, a), b),
    decreases b.len(),
{
    if b.len() == 0 {
        assert(a + b =~= a);
    } else {
        lemma_resumed_append(start, a, b.drop_last());
        assert((a + b).drop_last() =~= a + b.drop_last());
        assert((a + b).last() == b.last());
    }
}

/// The memtables after binding `k` to `v`: the active memtable with the
/// binding, made immutable when it reached `threshold`; then whether it was
/// made immutable and whether more than `maximum` memtables wait to be
/// flushed.
pub open spec fn after_write(
    active: EntriesView,
    imms: Seq<EntriesView>,
    threshold: usize,
    maximum: usize,
    k: Seq<u8>,
    v: ValueView,
) -> (EntriesView, Seq<EntriesView>, bool, bool) {
    let a = insert_entry(active, k, v);
    if total_size(a) < threshold {
        (a, imms, false, false)
    } else {
        (Seq::empty(), imms.push(a), true, imms.len() + 1 > maximum)
    }
}

/// `bytes` are the file of SSTable `id` laid out from `entries`.
pub open spec fn sstable_file(bytes: Seq<u8>, id: u64, entries: EntriesView) -> bool {
    crate::storage::sstable::read_back::laid_out(entries, id, bytes)
}

/// `op` writes SSTable `id` of `dir`, laid out from `entries`.
pub open spec fn sstable_write(op: FileOpView, dir: Seq<char>, id: u64, entries: EntriesView) -> bool {
    &&& op matches FileOpView::Write { path, bytes }
    &&& path == dir + "/"@ + crate::storage::sstable::manager::sstable_file_name(id)
    &&& sstable_file(bytes, id, entries)
}

/// The state with `next_sequence_id` replaced.
pub open spec fn with_sequence(st: CurrentState, n: u64) -> CurrentState {
    CurrentState { next_sequence_id: n, ..st }
}

/// The state with `next_wal_id` replaced.
pub open spec fn with_wal_id(st: CurrentState, n: u64) -> CurrentState {
    CurrentState { next_wal_id: n, ..st }
}

/// The state with `next_sstable_id` replaced.
pub open spec fn with_sstable_id(st: CurrentState, n: u64) -> CurrentState {
    CurrentState { next_sstable_id: n, ..st }
}

/// The file a record is appended to: the newest segment's, or the first
/// segment's when there is none yet.
pub open spec fn appended_wal_path(w: WalManagerView) -> Seq<char> {
    if w.segments.len() == 0 {
        w.dir + "/"@ + wal_file_name(w.next_wal_id)
    } else {
        w.segments.last().path.unwrap()
    }
}

/// The file of the oldest segment once a record was appended.
pub open spec fn oldest_after_append(w: WalManagerView) -> Option<Seq<char>> {
    if w.segments.len() == 0 {
        Some(appended_wal_path(w))
    } else {
        w.segments[0].path
    }
}

/// The file of the oldest WAL segment, when there is a segment with one.
pub open spec fn oldest_wal_path(segs: Seq<WalView>) -> Option<Seq<char>> {
    if segs.len() > 0 {
        segs[0].path
    } else {
        None
    }
}

/// The file changes that follow an SSTable's file in a flush: when the
/// SSTable holds entries, with metadata `meta`, its record appended to the
/// manifest file and `CURRENT` rewritten with `state`; then the oldest WAL
/// segment's file removed, when there is one.
pub open spec fn flush_followups(
    meta: Option<SSTableMetaView>,
    manifest_path: Seq<char>,
    current_path: Seq<char>,
    state: CurrentState,
    oldest_wal: Option<Seq<char>>,
) -> Seq<FileOpView> {
    (match meta {
        Some(m) => seq![
            FileOpView::Append { path: manifest_path, bytes: manifest_record_bytes(ManifestRecordView::AddSSTable(m)) },
            FileOpView::Write { path: current_path, bytes: current_bytes(state) },
        ],
        None => Seq::empty(),
    }) + (match oldest_wal {
        Some(p) => seq![FileOpView::Remove { path: p }],
        None => Seq::empty(),
    })
}

/// A flush of entries `es` as SSTable `id`, in state `st` whose oldest WAL
/// segment has file `oldest_wal`: `ops` start with the SSTable's file laid
/// out from `es`, with metadata `meta`, and go on with the follow-up
/// changes; `after` is the state it leaves.
pub open spec fn flush_as(
    ops: Seq<FileOpView>,
    meta: Option<SSTableMetaView>,
    es: EntriesView,
    id: u64,
    dir: Seq<char>,
    manifest_path: Seq<char>,
    st: CurrentState,
    oldest_wal: Option<Seq<char>>,
    after: CurrentState,
) -> bool {
    &&& ops.len() >= 1
    &&& ops[0] matches FileOpView::Write { path, bytes } && path == dir + "/"@
        + crate::storage::sstable::manager::sstable_file_name(id) && written_table(es, id, bytes, meta)
    &&& ops.skip(1) == flush_followups(meta, manifest_path, dir + "/CURRENT"@, with_sstable_id(st, (id + 1) as u64), oldest_wal)
    &&& after == (if meta is Some {
        with_sstable_id(st, (id + 1) as u64)
    } else {
        st
    })
}

impl Engine {
    /// Whether a write of a key and value of these lengths can be taken:
    /// ids are left, the record fits the WAL's 32-bit length field, and the
    /// memtable's size stays within `usize`.
    pub fn can_write(&self, key_len: usize, value_len: usize) -> (r: bool)
        requires
            self.wf(),
        ensures
            r == (self.ids_available() && key_len + value_len + 17 <= u32::MAX && total_size(self.active())
                + key_len + value_len + 1 <= usize::MAX),
    {
        let size = self.memtables.active_size();
        let seq_ok = self.wal.next_sequence_id() < u64::MAX;
        let ids = seq_ok && self.wal.next_wal_id() < u64::MAX - 1 && self.sstables.next_sstable_id() < u64::MAX;
        let record_fits = key_len as u64 <= 4294967278 && value_len as u64 <= 4294967278 - key_len as u64;
        let size_fits = size <= usize::MAX - 1 && key_len <= usize::MAX - 1 - size && value_len <= usize::MAX - 1 - size
            - key_len;
        ids && record_fits && size_fits
    }

    /// Whether a flush can take the next SSTable id.
    pub fn can_flush(&self) -> (r: bool)
        ensures
            r == (self.next_sstable_id_spec() < u64::MAX),
    {
        self.sstables.next_sstable_id() < u64::MAX
    }

    /// The file change that rewrites `CURRENT` with the current state.
    fn persist_op(&self) -> (r: FileOp)
        requires
            self.wf(),
        ensures
            r@ == (FileOpView::Write { path: self.data_dir_spec() + "/CURRENT"@, bytes: current_bytes(self.state()) }),
    {
        self.current.persist()
    }

    /// Writes `key` with `value`: numbers the write, logs it, records the
    /// next sequence number, binds it in the memtables, and rotates or
    /// flushes as the memtables ask. Returns the file changes in order.
    pub fn put(&mut self, key: Vec<u8>, value: Vec<u8>) -> (r: Vec<FileOp>)
        requires
            old(self).wf(),
            old(self).ids_available(),
            key@.len() + value@.len() + 17 <= u32::MAX,
            total_size(old(self).active()) + key@.len() + value@.len() + 1 <= usize::MAX,
        ensures
            final(self).wf(),
            Self::wrote(*old(self), *final(self), key@, ValueView::Put(value@), r@),
            old(self).mirrors_wal() ==> final(self).mirrors_wal(),
            keeps_wal_on_disk(*old(self), *final(self), ops_view(r@)),
    {
        let record = WalRecord::put(0, crate::format::copy_bytes(key.as_slice()), crate::format::copy_bytes(value.as_slice()));
        self.write(record, key, Value::Put(value))
    }

    /// Deletes `key`: like a write of a tombstone.
    pub fn delete(&mut self, key: Vec<u8>) -> (r: Vec<FileOp>)
        requires
            old(self).wf(),
            old(self).ids_available(),
            key@.len() + 17 <= u32::MAX,
            total_size(old(self).active()) + key@.len() + 1 <= usize::MAX,
        ensures
            final(self).wf(),
            Self::wrote(*old(self), *final(self), key@, ValueView::Tombstone, r@),
            old(self).mirrors_wal() ==> final(self).mirrors_wal(),
            keeps_wal_on_disk(*old(self), *final(self), ops_view(r@)),
    {
        let record = WalRecord::delete(0, crate::format::copy_bytes(key.as_slice()));
        self.write(record, key, Value::Tombstone)
    }

    /// The log record of writing `v` to `k` with sequence number `seq`.
    pub open spec fn record_of(seq: u64, k: Seq<u8>, v: ValueView) -> WalRecordView {
        match v {
            ValueView::Put(bytes) => WalRecordView::Put { sequence_id: seq, key: k, value: bytes },
            ValueView::Tombstone => WalRecordView::Delete { sequence_id: seq, key: k },
        }
    }

    /// What a write of `v` to `k` did: the record logged with the next
    /// sequence number, the new next sequence number recorded, the
    /// memtables changed as `after_write` says, with the oldest immutable
    /// memtable flushed when they asked for it.
    pub open spec fn wrote(before: Self, after: Self, k: Seq<u8>, v: ValueView, ops: Seq<FileOp>) -> bool {
        let seq = (before.wal_view().sequence + 1) as u64;
        let (a, imms, rotated, flush) = after_write(
            before.active(),
            before.immutables(),
            before.threshold(),
            before.maximum(),
            k,
            v,
        );
        let wal_path = appended_wal_path(before.wal_view());
        let logged_state = with_sequence(before.state(), (seq + 1) as u64);
        let rotated_state = with_wal_id(logged_state, after.wal_view().next_wal_id);
        let oldest = oldest_after_append(before.wal_view());
        &&& ops.len() >= 2
        &&& ops[0]@ == (FileOpView::Append { path: wal_path, bytes: wal_frame(Self::record_of(seq, k, v)) })
        &&& ops[1]@ == (FileOpView::Write {
            path: before.data_dir_spec() + "/CURRENT"@,
            bytes: current_bytes(with_sequence(before.state(), (seq + 1) as u64)),
        })
        &&& after.wal_view().sequence == seq
        &&& after.state().next_sequence_id == seq + 1
        &&& after.active() == a
        &&& after.immutables() == (if flush {
            imms.drop_first()
        } else {
            imms
        })
        &&& after.threshold() == before.threshold()
        &&& after.maximum() == before.maximum()
        &&& after.data_dir_spec() == before.data_dir_spec()
        &&& rotated ==> after.wal_view().next_wal_id == before.wal_view().next_wal_id + 1 + (if before.wal_view().segments.len() == 0 {
            1int
        } else {
            0int
        })
        &&& rotated ==> ops.len() >= 3 && ops[2]@ == (FileOpView::Write {
            path: before.data_dir_spec() + "/CURRENT"@,
            bytes: current_bytes(with_wal_id(with_sequence(before.state(), (seq + 1) as u64), after.wal_view().next_wal_id)),
        })
        &&& !rotated ==> ops.len() == 2
        &&& rotated && !flush ==> ops.len() == 3
        &&& after.manifest_id_spec() == before.manifest_id_spec()
        &&& !rotated ==> after.state() == logged_state
        &&& rotated && !flush ==> after.state() == rotated_state
        &&& flush ==> {
            &&& after.next_sstable_id_spec() == before.next_sstable_id_spec() + 1
            &&& ops.len() > 3
            &&& sstable_write(ops[3]@, before.data_dir_spec(), before.next_sstable_id_spec(), imms[0])
            &&& crate::index::sorted_keys(imms[0])
            &&& entries_fit(imms[0])
            &&& exists|meta: Option<SSTableMetaView>|
                #[trigger] flush_as(
                    ops_view(ops).skip(3),
                    meta,
                    imms[0],
                    before.next_sstable_id_spec(),
                    before.data_dir_spec(),
                    before.manifest_path(),
                    rotated_state,
                    oldest,
                    after.state(),
                )
        }
        &&& !flush ==> after.next_sstable_id_spec() == before.next_sstable_id_spec()
    }

    #[verifier::rlimit(50)]
    #[verifier::spinoff_prover]
    fn write(&mut self, record: WalRecord, key: Vec<u8>, value: Value) -> (r: Vec<FileOp>)
        requires
            old(self).wf(),
            old(self).ids_available(),
            key@ == record@.key(),
            record@ == Self::record_of(record@.sequence_id(), key@, value@),
            key@.len() + payload_of(value@).len() + 17 <= u32::MAX,
            total_size(old(self).active()) + key@.len() + payload_of(value@).len() + 1 <= usize::MAX,
        ensures
            final(self).wf(),
            Self::wrote(*old(self), *final(self), key@, value@, r@),
            old(self).mirrors_wal() ==> final(self).mirrors_wal(),
            keeps_wal_on_disk(*old(self), *final(self), ops_view(r@)),
    {
        let ghost before = *self;
        let seq = self.wal.next_sequence();
        let record = match record {
            WalRecord::Put { key, value, .. } => WalRecord::Put { sequence_id: seq, key, value },
            WalRecord::Delete { key, .. } => WalRecord::Delete { sequence_id: seq, key },
        };
        proof {
            assert(record@ == Self::record_of(seq, key@, value@));
            assert(record@.wf());
        }
        let ghost logged = record@;
        let ghost pre_append = self.wal@;
        let (path, bytes) = self.wal.append(record);
        let ghost appended = self.wal@.segments;
        let ghost w_app = self.wal@;
        let ghost app_path = path@;
        let mut ops: Vec<FileOp> = Vec::new();
        ops.push(FileOp::Append { path, bytes });
        let ghost wal_path = if before.wal_view().segments.len() == 0 {
            before.wal_view().dir + "/"@ + wal_file_name(before.wal_view().next_wal_id)
        } else {
            before.wal_view().segments.last().path.unwrap()
        };
        assert(ops@[0]@ == (FileOpView::Append { path: wal_path, bytes: wal_frame(Self::record_of(seq, key@, value@)) }));
        let next = self.wal.next_sequence_id();
        self.current.state_mut().next_sequence_id = next;
        let op = self.persist_op();
        ops.push(op);
        proof {
            lemma_insert_fits(self.memtables.active_entries(), key@, value@);
        }
        let outcome = match value {
            Value::Put(bytes) => self.memtables.put(key, bytes),
            Value::Tombstone => self.memtables.delete(key),
        };
        proof {
            let (a, imms, rotated, flush) = after_write(
                before.active(),
                before.immutables(),
                before.threshold(),
                before.maximum(),
                key@,
                value@,
            );
            assert(self.memtables.active_entries() == a);
            assert(self.memtables.immutable_entries() == imms);
            assert(outcome.rotated == rotated && outcome.should_flush == flush);
            assert forall|i: int| 0 <= i < imms.len() implies entries_fit(#[trigger] imms[i]) by {
                if i < before.immutables().len() {
                    assert(imms[i] == before.immutables()[i]);
                }
            }
        }
        if outcome.rotated {
            self.wal.rotate();
            let wal_id = self.wal.next_wal_id();
            self.current.state_mut().next_wal_id = wal_id;
            let op = self.persist_op();
            ops.push(op);
        }
        let ghost pre = ops@;
        let ghost mid2 = *self;
        proof {
            if before.mirrors_wal() {
                assert(pre_append.segments == before.wal_view().segments);
                assert(appended.drop_last().len() == pre_append.segments.drop_last().len());
                lemma_write_mirrors(before, mid2, logged, appended, outcome.rotated);
            }
        }
        if outcome.should_flush {
            self.flush_into(&mut ops);
            proof {
                assert(ops@.take(pre.len() as int)[0] == ops@[0]);
                assert(ops@.take(pre.len() as int)[1] == ops@[1]);
                assert(ops@.take(pre.len() as int)[2] == ops@[2]);
                assert(mid2.data_dir_spec() == before.data_dir_spec());
                assert(mid2.next_sstable_id_spec() == before.next_sstable_id_spec());
                assert(mid2.manifest_path() == before.manifest_path());
                assert(ops_view(ops@).skip(pre.len() as int) =~= ops_view(ops@).skip(3));
                let logged_state = with_sequence(before.state(), (seq + 1) as u64);
                let rotated_state = with_wal_id(logged_state, self.wal_view().next_wal_id);
                assert(mid2.state() == rotated_state);
                let oldest = if before.wal_view().segments.len() == 0 {
                    Some(wal_path)
                } else {
                    before.wal_view().segments[0].path
                };
                assert(pre_append.segments == before.wal_view().segments);
                if before.wal_view().segments.len() == 0 {
                    assert(appended[0].path == Some(wal_path));
                } else if before.wal_view().segments.len() > 1 {
                    assert(appended[0] == appended.drop_last()[0]);
                    assert(before.wal_view().segments[0] == before.wal_view().segments.drop_last()[0]);
                }
                assert(mid2.wal_view().segments[0] == appended[0]);
                assert(oldest_wal_path(mid2.wal_view().segments) == oldest);
                let imms = after_write(
                    before.active(),
                    before.immutables(),
                    before.threshold(),
                    before.maximum(),
                    key@,
                    value@,
                ).1;
                assert(mid2.immutables()[0] == imms[0]);
                let meta = choose|meta: Option<SSTableMetaView>|
                    #[trigger] flush_as(
                        ops_view(ops@).skip(pre.len() as int),
                        meta,
                        mid2.immutables()[0],
                        mid2.next_sstable_id_spec(),
                        mid2.data_dir_spec(),
                        mid2.manifest_path(),
                        mid2.state(),
                        oldest_wal_path(mid2.wal_view().segments),
                        self.state(),
                    );
                assert(flush_as(
                    ops_view(ops@).skip(3),
                    meta,
                    imms[0],
                    before.next_sstable_id_spec(),
                    before.data_dir_spec(),
                    before.manifest_path(),
                    rotated_state,
                    oldest,
                    self.state(),
                ));
            }
        }
        proof {
            assert(ops@.len() >= 2);
            assert(ops@[0]@ == (FileOpView::Append { path: wal_path, bytes: wal_frame(Self::record_of(seq, key@, value@)) }));
            let d = before.data_dir_spec();
            let pre_v = ops_view(pre);
            assert(pre_v[0] == (FileOpView::Append { path: app_path, bytes: wal_frame(logged) }));
            assert forall|disk: Map<Seq<char>, Seq<u8>>| #[trigger] before.disk_holds_wal(disk) implies self.disk_holds_wal(
                apply_ops(disk, ops_view(ops@)),
            ) by {
                assert(pre_append.segments == before.wal_view().segments);
                lemma_wal_on_disk_append(pre_append, w_app, d, disk, logged, app_path);
                lemma_logged_keeps_wal(w_app, mid2.wal_view(), d, disk, pre_v);
                assert(mid2.disk_holds_wal(apply_ops(disk, pre_v)));
                if outcome.should_flush {
                    lemma_apply_ops_concat(disk, pre_v, ops_view(ops@).skip(3));
                    assert(pre_v + ops_view(ops@).skip(3) =~= ops_view(ops@));
                    assert(ops_view(ops@).skip(pre.len() as int) == ops_view(ops@).skip(3));
                } else {
                    assert(ops_view(ops@) =~= pre_v);
                }
            }
        }
        ops
    }

    /// Flushes the oldest immutable memtable, if there is one: lays out an
    /// SSTable from it, records the SSTable in the manifest and the next
    /// SSTable id in `CURRENT`, and drops the oldest WAL segment. Returns
    /// the file changes in order.
    pub fn flush_memtable(&mut self) -> (r: Vec<FileOp>)
        requires
            old(self).wf(),
            old(self).next_sstable_id_spec() < u64::MAX,
        ensures
            final(self).wf(),
            Self::flushed(*old(self), *final(self), Seq::empty(), r@),
            old(self).mirrors_wal() ==> final(self).mirrors_wal(),
            keeps_wal_on_disk(*old(self), *final(self), ops_view(r@)),
    {
        let mut ops: Vec<FileOp> = Vec::new();
        self.flush_into(&mut ops);
        assert(ops_view(ops@).skip(0) =~= ops_view(ops@));
        ops
    }

    /// What a flush did, after the file changes `prefix` already listed:
    /// nothing when no memtable was immutable; otherwise the oldest one
    /// left the memtables and was laid out as the next SSTable, written to
    /// its file first.
    pub open spec fn flushed(before: Self, after: Self, prefix: Seq<FileOp>, ops: Seq<FileOp>) -> bool {
        &&& ops.len() >= prefix.len()
        &&& ops.take(prefix.len() as int) == prefix
        &&& after.active() == before.active()
        &&& after.threshold() == before.threshold()
        &&& after.maximum() == before.maximum()
        &&& after.data_dir_spec() == before.data_dir_spec()
        &&& after.wal_view().sequence == before.wal_view().sequence
        &&& after.wal_view().next_wal_id == before.wal_view().next_wal_id
        &&& after.state().next_sequence_id == before.state().next_sequence_id
        &&& after.state().next_wal_id == before.state().next_wal_id
        &&& after.manifest_id_spec() == before.manifest_id_spec()
        &&& before.immutables().len() == 0 ==> {
            &&& ops == prefix
            &&& after.immutables() == before.immutables()
            &&& after.next_sstable_id_spec() == before.next_sstable_id_spec()
            &&& after.state() == before.state()
        }
        &&& before.immutables().len() > 0 ==> exists|meta: Option<SSTableMetaView>|
            #[trigger] flush_as(
                ops_view(ops).skip(prefix.len() as int),
                meta,
                before.immutables()[0],
                before.next_sstable_id_spec(),
                before.data_dir_spec(),
                before.manifest_path(),
                before.state(),
                oldest_wal_path(before.wal_view().segments),
                after.state(),
            )
        &&& before.immutables().len() > 0 ==> {
            &&& after.immutables() == before.immutables().drop_first()
            &&& after.next_sstable_id_spec() == before.next_sstable_id_spec() + 1
            &&& ops.len() > prefix.len()
            &&& sstable_write(
                ops[prefix.len() as int]@,
                before.data_dir_spec(),
                before.next_sstable_id_spec(),
                before.immutables()[0],
            )
            &&& crate::index::sorted_keys(before.immutables()[0])
            &&& entries_fit(before.immutables()[0])
        }
    }

    fn flush_into(&mut self, ops: &mut Vec<FileOp>)
        requires
            old(self).wf(),
            old(self).next_sstable_id_spec() < u64::MAX,
        ensures
            final(self).wf(),
            Self::flushed(*old(self), *final(self), old(ops)@, final(ops)@),
            old(self).mirrors_wal() ==> final(self).mirrors_wal(),
            keeps_wal_on_disk(*old(self), *final(self), ops_view(final(ops)@).skip(old(ops)@.len() as int)),
    {
        let ghost before = *self;
        let ghost prefix = ops@;
        let memtable = match self.memtables.pop_flushable() {
            Some(m) => m,
            None => {
                assert(ops@.take(prefix.len() as int) =~= prefix);
                assert(ops_view(ops@).skip(prefix.len() as int) =~= Seq::<FileOpView>::empty());
                return;
            },
        };
        proof {
            memtable.lemma_sorted();
            assert(entries_fit(before.immutables()[0]));
            assert forall|i: int| 0 <= i < self.memtables.immutable_entries().len() implies entries_fit(
                #[trigger] self.memtables.immutable_entries()[i],
            ) by {
                assert(self.memtables.immutable_entries()[i] == before.immutables()[i + 1]);
            }
        }
        let pending = self.sstables.write_memtable(&memtable);
        let ghost meta_view = match &pending.meta {
            Some(m) => Some(m@),
            None => None,
        };
        let ghost written_bytes = pending.bytes@;
        ops.push(FileOp::Write { path: pending.path, bytes: pending.bytes });
        let ghost after_sst = ops@;
        let ghost next_state = with_sstable_id(before.state(), (before.next_sstable_id_spec() + 1) as u64);
        match pending.meta {
            Some(meta) => {
                let bytes = self.manifest_manager.add_sstable(meta);
                ops.push(FileOp::Append { path: self.manifest_manager.current_manifest_path(), bytes });
                let id = self.sstables.next_sstable_id();
                self.current.state_mut().next_sstable_id = id;
                let op = self.persist_op();
                ops.push(op);
                proof {
                    assert(self.state() == next_state);
                }
            },
            None => {},
        }
        let ghost after_meta = ops@;
        proof {
            let mv = ops_view(after_meta).skip(after_sst.len() as int);
            assert(mv =~= match meta_view {
                Some(m) => seq![
                    FileOpView::Append { path: before.manifest_path(), bytes: manifest_record_bytes(ManifestRecordView::AddSSTable(m)) },
                    FileOpView::Write { path: before.data_dir_spec() + "/CURRENT"@, bytes: current_bytes(next_state) },
                ],
                None => Seq::<FileOpView>::empty(),
            });
        }
        if let Some(w) = self.wal.pop_oldest() {
            if let Some(op) = w.remove_file() {
                ops.push(op);
            }
        }
        proof {
            let tail = ops_view(ops@).skip(prefix.len() as int);
            let oldest = oldest_wal_path(before.wal_view().segments);
            let wv = ops_view(ops@).skip(after_meta.len() as int);
            assert(wv =~= match oldest {
                Some(p) => seq![FileOpView::Remove { path: p }],
                None => Seq::<FileOpView>::empty(),
            });
            assert(ops_view(ops@).skip(after_sst.len() as int) =~= ops_view(after_meta).skip(after_sst.len() as int) + wv);
            assert(tail.skip(1) =~= ops_view(ops@).skip(after_sst.len() as int));
            assert(tail[0] == ops@[prefix.len() as int]@);
            assert(flush_as(
                tail,
                meta_view,
                before.immutables()[0],
                before.next_sstable_id_spec(),
                before.data_dir_spec(),
                before.manifest_path(),
                before.state(),
                oldest,
                self.state(),
            ));
        }
        proof {
            assert(ops@.take(prefix.len() as int) =~= prefix);
            assert(sstable_file(written_bytes, before.next_sstable_id_spec(), before.immutables()[0]));
            assert forall|i: int| 0 <= i < self.wal@.segments.len() implies (#[trigger] self.wal@.segments[i]).path is Some by {
                assert(self.wal@.segments[i] == before.wal_view().segments[i + 1]);
            }
            if before.mirrors_wal() {
                lemma_flush_mirrors(before, *self);
            }
            let tail = ops_view(ops@).skip(prefix.len() as int);
            let k = ops_view(after_meta).skip(prefix.len() as int).len();
            let d = before.data_dir_spec();
            assert forall|i: int, id: u64| 0 <= i < k implies op_path(#[trigger] tail[i]) != #[trigger] wal_file_path(
                d,
                id,
            ) by {
                if i == 0 {
                    lemma_sstable_not_wal(d, before.next_sstable_id_spec(), id);
                } else if i == 1 {
                    lemma_manifest_not_wal(d, manifest_file_name(before.manifest_id_spec()), id);
                } else {
                    lemma_current_not_wal(d, id);
                }
            }
            assert forall|disk: Map<Seq<char>, Seq<u8>>| #[trigger] before.disk_holds_wal(disk) implies self.disk_holds_wal(
                apply_ops(disk, tail),
            ) by {
                lemma_ops_keep_wal(before.wal_view(), self.wal_view(), d, disk, tail, k as int);
            }
        }
    }
}

/// What the engine answers for a key: the memtables decide when they hold
/// it, the SSTables otherwise; a tombstone reads as no value.
pub open spec fn engine_answer(mem: Option<ValueView>, tables: Result<Option<ValueView>>) -> Result<
    Option<Seq<u8>>,
> {
    match mem {
        Some(v) => Ok(value_answer(v)),
        None => match tables {
            Ok(Some(v)) => Ok(value_answer(v)),
            Ok(None) => Ok(None),
            Err(e) => Err(e),
        },
    }
}

/// What a stored value reads as.
pub open spec fn value_answer(v: ValueView) -> Option<Seq<u8>> {
    match v {
        ValueView::Put(b) => Some(b),
        ValueView::Tombstone => None,
    }
}

/// The byte views of SSTable files.
pub open spec fn tables_view(tables: Seq<Vec<u8>>) -> Seq<Seq<u8>> {
    Seq::new(tables.len(), |i: int| tables[i]@)
}

/// The SSTable file that a write's file changes lay out, when the write
/// flushed a memtable.
pub open spec fn flushed_file(ops: Seq<FileOp>) -> Option<Seq<u8>> {
    if ops.len() > 3 {
        match ops[3]@ {
            FileOpView::Write { bytes, .. } => Some(bytes),
            _ => None,
        }
    } else {
        None
    }
}

impl Engine {
    /// What the memtables answer for `key`: `Some` with the value, or with
    /// `None` for a tombstone, when they hold the key; `None` when the
    /// SSTables must be asked.
    pub fn memtable_get(&self, key: &[u8]) -> (r: Option<Option<Vec<u8>>>)
        requires
            self.wf(),
        ensures
            match self.lookup(key@) {
                Some(v) => r matches Some(a) && match (a, value_answer(v)) {
                    (Some(x), Some(b)) => x@ == b,
                    (None, None) => true,
                    _ => false,
                },
                None => r is None,
            },
    {
        let k = Key::new(crate::format::copy_bytes(key));
        match self.memtables.get(&k) {
            Some(value) => match value.as_bytes() {
                Some(b) => Some(Some(crate::format::copy_bytes(b))),
                None => Some(None),
            },
            None => None,
        }
    }

    /// The value of `key`: the memtables first, then the SSTables
    /// `sstables`, oldest first, whose files hold `tables`. A deleted key
    /// has no value.
    pub fn get(&self, key: &[u8], sstables: &[SSTableMeta], tables: &[Vec<u8>]) -> (r: Result<Option<Vec<u8>>>)
        requires
            self.wf(),
            sstables@.len() == tables@.len(),
        ensures
            match engine_answer(self.lookup(key@), tables_get(tables_view(tables@), key@)) {
                Ok(Some(b)) => r matches Ok(Some(x)) && x@ == b,
                Ok(None) => r matches Ok(None),
                Err(e) => r == Err::<Option<Vec<u8>>, EngineError>(e),
            },
    {
        if let Some(answer) = self.memtable_get(key) {
            return Ok(answer);
        }
        let k = Key::new(crate::format::copy_bytes(key));
        let found = self.sstables.get(&k, sstables, tables);
        proof {
            assert(tables_view(tables@) =~= Seq::new(tables@.len(), |i: int| tables@[i]@));
        }
        match found {
            Ok(Some(value)) => match value.as_bytes() {
                Some(b) => Ok(Some(crate::format::copy_bytes(b))),
                None => Ok(None),
            },
            Ok(None) => Ok(None),
            Err(e) => Err(e),
        }
    }

    /// The live SSTables that the manifest files describe, by increasing
    /// file id.
    pub fn manifest_sstables(&self, manifest_files: &[Vec<u8>]) -> (r: Result<Vec<SSTableMeta>>)
        ensures
            match replay_files(files_view(manifest_files@)) {
                Ok(rs) => r matches Ok(v) && lists_by_id(metas_view(v@), apply_records_spec(rs)),
                Err(e) => r == Err::<Vec<SSTableMeta>, EngineError>(e),
            },
    {
        self.manifest_manager.load_sstables(manifest_files)
    }

    /// The number of live SSTables that the manifest files describe.
    pub fn sstable_count(&self, manifest_files: &[Vec<u8>]) -> (r: Result<usize>)
        ensures
            match replay_files(files_view(manifest_files@)) {
                Ok(rs) => r matches Ok(n) && n == apply_records_spec(rs).dom().len(),
                Err(e) => r == Err::<usize, EngineError>(e),
            },
    {
        let metas = self.manifest_manager.load_sstables(manifest_files)?;
        proof {
            let rs = replay_files(files_view(manifest_files@)).unwrap();
            crate::storage::manifest::lemma_lists_by_id_len(metas_view(metas@), apply_records_spec(rs));
        }
        Ok(metas.len())
    }

    /// The size of the active memtable.
    pub fn memtable_size(&self) -> (r: usize)
        requires
            self.wf(),
        ensures
            r == total_size(self.active()),
    {
        self.memtables.active_size()
    }

    /// The number of immutable memtables waiting to be flushed.
    pub fn immutable_memtable_count(&self) -> (r: usize)
        ensures
            r == self.immutables().len(),
    {
        self.memtables.immutable_count()
    }

    /// The data directory.
    pub fn data_dir(&self) -> (r: &str)
        ensures
            r@ == self.data_dir_spec(),
    {
        self.sstables.data_dir()
    }

    /// Where SSTable `file_id` lives.
    pub fn sstable_path(&self, file_id: u64) -> (r: String)
        ensures
            r@ == self.data_dir_spec() + "/"@ + crate::storage::sstable::manager::sstable_file_name(file_id),
    {
        self.sstables.sstable_path(file_id)
    }

    /// The ids recorded in `CURRENT`.
    pub fn current_state(&self) -> (r: CurrentState)
        ensures
            r == self.state(),
    {
        *self.current.state()
    }
}

/// A write is read back. After writing `v` to `k`, with the file changes
/// the write listed made, the engine answers `v` for `k` (no value for a
/// tombstone), whatever older SSTables `older` hold: from the memtables,
/// or from the SSTable the write laid out when it flushed the memtable
/// that took the write.
pub proof fn lemma_write_then_read(
    before: Engine,
    after: Engine,
    k: Seq<u8>,
    v: ValueView,
    ops: Seq<FileOp>,
    older: Seq<Seq<u8>>,
)
    requires
        before.wf(),
        Engine::wrote(before, after, k, v, ops),
        before.active().len() < u32::MAX,
        flushed_file(ops) matches Some(b) ==> b.len() <= u64::MAX,
    ensures
        engine_answer(
            after.lookup(k),
            tables_get(
                match flushed_file(ops) {
                    Some(b) => older.push(b),
                    None => older,
                },
                k,
            ),
        ) == Ok::<Option<Seq<u8>>, EngineError>(value_answer(v)),
{
    before.memtables.lemma_sorted();
    let a0 = before.active();
    let imms0 = before.immutables();
    let (a, imms, rotated, flush) = after_write(a0, imms0, before.threshold(), before.maximum(), k, v);
    crate::index::memtable_manager::lemma_write_lookup(a0, imms0, k, v, k);
    crate::index::lemma_insert_entry(a0, k, v);
    if !flush {
        assert(after.lookup(k) == Some(v));
    } else {
        assert(rotated);
        assert(imms == imms0.push(insert_entry(a0, k, v)));
        if imms0.len() > 0 {
            let rest = imms.drop_first();
            assert(rest.last() == insert_entry(a0, k, v));
            assert(lookup(Seq::<(Seq<u8>, ValueView)>::empty(), k) is None);
            assert(after.lookup(k) == Some(v));
        } else {
            let es = imms[0];
            assert(es == insert_entry(a0, k, v));
            assert(after.immutables() =~= Seq::<EntriesView>::empty());
            assert(after.lookup(k) is None);
            let b = flushed_file(ops).unwrap();
            assert(sstable_file(b, before.next_sstable_id_spec(), es));
            let meta = choose|meta: Option<crate::storage::sstable::meta::SSTableMetaView>|
                #[trigger] written_table(es, before.next_sstable_id_spec(), b, meta);
            lemma_lower_bound_le(a0, k);
            assert(es.len() <= a0.len() + 1);
            crate::storage::sstable::read_back::lemma_written_table_reads_back(
                es,
                before.next_sstable_id_spec(),
                b,
                meta,
                k,
            );
            assert(older.push(b).last() == b);
        }
    }
}

impl Engine {
    /// The files `disk` hold the engine's WAL: each segment's file holds
    /// the log of its records, and no id not yet handed out has a file with
    /// anything in it.
    pub open spec fn disk_holds_wal(&self, disk: Map<Seq<char>, Seq<u8>>) -> bool {
        wal_on_disk(self.wal_view(), self.data_dir_spec(), disk)
    }
}

/// The file changes `ops` take files that hold the WAL of `before` to
/// files that hold the WAL of `after`.
pub open spec fn keeps_wal_on_disk(before: Engine, after: Engine, ops: Seq<FileOpView>) -> bool {
    forall|disk: Map<Seq<char>, Seq<u8>>|
        #[trigger] before.disk_holds_wal(disk) ==> after.disk_holds_wal(apply_ops(disk, ops))
}

/// Changes at paths that are no WAL segment's files, then possibly the
/// removal of the oldest segment's file as that segment is dropped, keep
/// the WAL on disk.
proof fn lemma_ops_keep_wal(
    w0: WalManagerView,
    w1: WalManagerView,
    d: Seq<char>,
    disk: Map<Seq<char>, Seq<u8>>,
    ops: Seq<FileOpView>,
    k: int,
)
    requires
        wal_on_disk(w0, d, disk),
        0 <= k <= ops.len(),
        forall|i: int, id: u64| 0 <= i < k ==> op_path(#[trigger] ops[i]) != #[trigger] wal_file_path(d, id),
        w1.dir == w0.dir,
        w1.next_wal_id == w0.next_wal_id,
        ops.len() == k ==> w1.segments == w0.segments,
        ops.len() > k ==> {
            &&& ops.len() == k + 1
            &&& w0.segments.len() > 0
            &&& ops[k] == (FileOpView::Remove { path: w0.segments[0].path.unwrap() })
            &&& w1.segments == w0.segments.drop_first()
        },
    ensures
        wal_on_disk(w1, d, apply_ops(disk, ops)),
    decreases ops.len(),
{
    if ops.len() > k {
        let pre = ops.take(k);
        lemma_ops_keep_wal(w0, w0, d, disk, pre, k);
        lemma_apply_ops_push(disk, pre, ops[k]);
        assert(pre.push(ops[k]) =~= ops);
        lemma_wal_on_disk_pop(w0, w1, d, apply_ops(disk, pre));
    } else if k > 0 {
        let pre = ops.take(k - 1);
        assert forall|i: int, id: u64| 0 <= i < k - 1 implies op_path(#[trigger] pre[i]) != #[trigger] wal_file_path(d, id) by {
            assert(pre[i] == ops[i]);
        }
        lemma_ops_keep_wal(w0, w0, d, disk, pre, k - 1);
        lemma_apply_ops_push(disk, pre, ops[k - 1]);
        assert(pre.push(ops[k - 1]) =~= ops);
        lemma_wal_on_disk_other(w0, d, apply_ops(disk, pre), ops[k - 1]);
    } else {
        assert(ops =~= Seq::<FileOpView>::empty());
    }
}

/// No WAL segment with an id from `id` on has a file with anything in it.
pub open spec fn no_wal_files_from(disk: Map<Seq<char>, Seq<u8>>, data_dir: Seq<char>, id: u64) -> bool {
    forall|j: u64| j >= id ==> #[trigger] file_of(disk, wal_file_path(data_dir, j)) == Seq::<u8>::empty()
}

/// After a record's frame is appended, rewriting `CURRENT`, once or around
/// a rotation, keeps the WAL on disk.
proof fn lemma_logged_keeps_wal(w1: WalManagerView, w2: WalManagerView, d: Seq<char>, disk: Map<Seq<char>, Seq<u8>>, pre: Seq<FileOpView>)
    requires
        2 <= pre.len() <= 3,
        wal_on_disk(w1, d, apply_op(disk, pre[0])),
        forall|i: int| 1 <= i < pre.len() ==> op_path(#[trigger] pre[i]) == d + "/CURRENT"@,
        pre.len() == 2 ==> w2 == w1,
        pre.len() == 3 ==> {
            &&& w2.dir == w1.dir
            &&& w2.segments == w1.segments.push(fresh_segment(w1.dir + "/"@ + wal_file_name(w1.next_wal_id)))
            &&& w2.next_wal_id == w1.next_wal_id + 1
        },
    ensures
        wal_on_disk(w2, d, apply_ops(disk, pre)),
{
    let d1 = apply_op(disk, pre[0]);
    let rest = pre.drop_first();
    assert(apply_ops(disk, pre) == apply_ops(d1, rest));
    if pre.len() == 3 {
        lemma_wal_on_disk_rotate(w1, w2, d, d1);
    }
    assert forall|i: int, id: u64| 0 <= i < rest.len() implies op_path(#[trigger] rest[i]) != #[trigger] wal_file_path(d, id) by {
        assert(rest[i] == pre[i + 1]);
        lemma_current_not_wal(d, id);
    }
    lemma_ops_keep_wal(w2, w2, d, d1, rest, rest.len() as int);
}

/// The WAL files that segments leave, oldest first: each one's id, counted
/// back from `next_wal_id`, and the log of its records.
pub open spec fn wal_logs(segs: Seq<WalView>, next_wal_id: u64) -> Seq<(u64, Seq<u8>)> {
    Seq::new(segs.len(), |i: int| ((next_wal_id - segs.len() + i) as u64, wal_log(segs[i].records)))
}

impl Engine {
    /// Each memtable is the replay of its WAL segment, the immutable ones
    /// of the oldest segments in order and the active one of the newest;
    /// `CURRENT` records the next segment id and the next sequence number,
    /// which every logged record precedes.
    pub open spec fn mirrors_wal(&self) -> bool {
        let segs = self.wal_view().segments;
        let n = segs.len();
        &&& n == self.immutables().len() + 1
        &&& n <= self.wal_view().next_wal_id
        &&& forall|i: int| 0 <= i < n - 1 ==> #[trigger] self.immutables()[i] == replay_entries(segs[i].records)
        &&& self.active() == replay_entries(segs[n - 1].records)
        &&& self.state().next_wal_id == self.wal_view().next_wal_id
        &&& self.state().next_sequence_id == self.wal_view().sequence + 1
        &&& forall|i: int, j: int|
            0 <= i < n && 0 <= j < segs[i].records.len() ==> (#[trigger] segs[i].records[j]).wf()
                && segs[i].records[j].sequence_id() < self.state().next_sequence_id
    }
}

/// Dropping the oldest immutable memtable and the oldest WAL segment
/// together keeps the memtables mirroring the segments.
proof fn lemma_flush_mirrors(before: Engine, after: Engine)
    requires
        before.mirrors_wal(),
        before.immutables().len() > 0,
        after.immutables() == before.immutables().drop_first(),
        after.active() == before.active(),
        after.wal_view().segments == before.wal_view().segments.drop_first(),
        after.wal_view().next_wal_id == before.wal_view().next_wal_id,
        after.wal_view().sequence == before.wal_view().sequence,
        after.state().next_wal_id == before.state().next_wal_id,
        after.state().next_sequence_id == before.state().next_sequence_id,
    ensures
        after.mirrors_wal(),
{
    let segs = before.wal_view().segments;
    let n = segs.len();
    assert forall|i: int| 0 <= i < n - 2 implies #[trigger] after.immutables()[i] == replay_entries(
        after.wal_view().segments[i].records,
    ) by {
        assert(after.immutables()[i] == before.immutables()[i + 1]);
        assert(after.wal_view().segments[i] == segs[i + 1]);
    }
    assert(after.wal_view().segments[n - 2] == segs[n - 1]);
    assert forall|i: int, j: int|
        0 <= i < n - 1 && 0 <= j < after.wal_view().segments[i].records.len() implies (
    #[trigger] after.wal_view().segments[i].records[j]).wf() && after.wal_view().segments[i].records[j].sequence_id()
        < after.state().next_sequence_id by {
        assert(after.wal_view().segments[i] == segs[i + 1]);
        assert(segs[i + 1].records[j].wf());
    }
}

/// A write keeps the memtables mirroring the WAL segments: the record is
/// logged to the newest segment as the active memtable takes it, and a
/// rotation starts a fresh segment with a fresh active memtable.
proof fn lemma_write_mirrors(before: Engine, after: Engine, r: WalRecordView, appended: Seq<WalView>, rotated: bool)
    requires
        before.mirrors_wal(),
        r.wf(),
        r.sequence_id() == before.wal_view().sequence + 1,
        appended.len() == before.wal_view().segments.len(),
        appended.drop_last() == before.wal_view().segments.drop_last(),
        appended.last().records == before.wal_view().segments.last().records.push(r),
        !rotated ==> {
            &&& after.wal_view().segments == appended
            &&& after.active() == insert_entry(before.active(), r.key(), record_value(r))
            &&& after.immutables() == before.immutables()
            &&& after.wal_view().next_wal_id == before.wal_view().next_wal_id
        },
        rotated ==> {
            &&& after.wal_view().segments == appended.push(
                fresh_segment(before.wal_view().dir + "/"@ + wal_file_name(before.wal_view().next_wal_id)),
            )
            &&& after.active() == Seq::<(Seq<u8>, ValueView)>::empty()
            &&& after.immutables() == before.immutables().push(insert_entry(before.active(), r.key(), record_value(r)))
            &&& after.wal_view().next_wal_id == before.wal_view().next_wal_id + 1
        },
        after.state().next_wal_id == after.wal_view().next_wal_id,
        after.wal_view().sequence == r.sequence_id(),
        after.state().next_sequence_id == r.sequence_id() + 1,
    ensures
        after.mirrors_wal(),
{
    let segs = before.wal_view().segments;
    let n = segs.len();
    let last = appended.last().records;
    assert(last.drop_last() =~= segs.last().records);
    assert(replay_entries(last) == insert_entry(before.active(), r.key(), record_value(r)));
    assert forall|i: int| 0 <= i < n - 1 implies #[trigger] appended[i] == segs[i] by {
        assert(appended.drop_last()[i] == segs.drop_last()[i]);
    }
    let a = after.wal_view().segments;
    assert forall|i: int, j: int| 0 <= i < a.len() && 0 <= j < a[i].records.len() implies (#[trigger] a[i].records[j]).wf()
        && a[i].records[j].sequence_id() < after.state().next_sequence_id by {
        if i < n - 1 {
            assert(a[i] == segs[i]);
        } else if i == n - 1 {
            assert(a[i].records == last);
            if j < last.len() - 1 {
                assert(last[j] == segs[n - 1].records[j]);
            } else {
                assert(last[j] == r);
            }
        } else {
            assert(a[i].records == Seq::<WalRecordView>::empty());
        }
    }
    if rotated {
        assert forall|i: int| 0 <= i < a.len() - 1 implies #[trigger] after.immutables()[i] == replay_entries(a[i].records) by {
            if i < n - 1 {
                assert(after.immutables()[i] == before.immutables()[i]);
            }
        }
        assert(replay_entries(a[a.len() - 1].records) =~= Seq::<(Seq<u8>, ValueView)>::empty());
    } else {
        assert forall|i: int| 0 <= i < a.len() - 1 implies #[trigger] after.immutables()[i] == replay_entries(a[i].records) by {
            assert(after.immutables()[i] == before.immutables()[i]);
        }
    }
}

/// Segments of well-formed records parse back from their logs.
proof fn lemma_logs_parse(segs: Seq<WalView>, w: u64)
    requires
        segs.len() <= w,
        forall|i: int, j: int|
            0 <= i < segs.len() && 0 <= j < segs[i].records.len() ==> (#[trigger] segs[i].records[j]).wf(),
    ensures
        parsed_segments(wal_logs(segs, w)) == Some(
            Seq::new(segs.len(), |i: int| ((w - segs.len() + i) as u64, segs[i].records)),
        ),
    decreases segs.len(),
{
    let files = wal_logs(segs, w);
    let want = Seq::new(segs.len(), |i: int| ((w - segs.len() + i) as u64, segs[i].records));
    if segs.len() > 0 {
        let init = segs.drop_last();
        assert forall|i: int, j: int| 0 <= i < init.len() && 0 <= j < init[i].records.len() implies (
        #[trigger] init[i].records[j]).wf() by {
            assert(init[i] == segs[i]);
        }
        lemma_logs_parse(init, (w - 1) as u64);
        assert(files.drop_last() =~= wal_logs(init, (w - 1) as u64));
        let last = segs.last();
        assert forall|j: int| 0 <= j < last.records.len() implies (#[trigger] last.records[j]).wf() by {
            assert(segs[segs.len() - 1].records[j].wf());
        }
        lemma_log_round_trip(last.records);
        assert(files.last() == ((w - 1) as u64, wal_log(last.records)));
        assert(parse_wal_log(wal_log(last.records), 0) == Ok::<Seq<WalRecordView>, EngineError>(last.records));
        assert(Seq::new(init.len(), |i: int| (((w - 1) as u64 - init.len() + i) as u64, init[i].records)).push(
            ((w - 1) as u64, last.records),
        ) =~= want);
    } else {
        assert(files =~= Seq::<(u64, Seq<u8>)>::empty());
        assert(want =~= Seq::<(u64, Seq<WalRecordView>)>::empty());
    }
}

/// Replaying segments whose ids all precede `active_id` makes each an
/// immutable memtable, in order.
proof fn lemma_recovered_immutables(segs: Seq<(u64, Seq<WalRecordView>)>, active_id: u64)
    requires
        forall|i: int| 0 <= i < segs.len() ==> (#[trigger] segs[i]).0 < active_id,
    ensures
        recovered_layers(segs, active_id) == (
            Seq::<(Seq<u8>, ValueView)>::empty(),
            Seq::new(segs.len(), |i: int| replay_entries(segs[i].1)),
        ),
    decreases segs.len(),
{
    if segs.len() > 0 {
        let init = segs.drop_last();
        assert forall|i: int| 0 <= i < init.len() implies (#[trigger] init[i]).0 < active_id by {
            assert(init[i] == segs[i]);
        }
        lemma_recovered_immutables(init, active_id);
        assert(segs.last().0 < active_id);
        assert(Seq::new(init.len(), |i: int| replay_entries(init[i].1)).push(replay_entries(segs.last().1)) =~= Seq::new(
            segs.len(),
            |i: int| replay_entries(segs[i].1),
        ));
    }
}

/// Resuming after records that all precede `start` resumes at `start`.
proof fn lemma_resumed_unchanged(start: int, rs: Seq<WalRecordView>)
    requires
        forall|j: int| 0 <= j < rs.len() ==> (#[trigger] rs[j]).sequence_id() < start,
    ensures
        resumed_sequence(start, rs) == start,
    decreases rs.len(),
{
    if rs.len() > 0 {
        let init = rs.drop_last();
        assert forall|j: int| 0 <= j < init.len() implies (#[trigger] init[j]).sequence_id() < start by {
            assert(init[j] == rs[j]);
        }
        lemma_resumed_unchanged(start, init);
        assert(rs.last() == rs[rs.len() - 1]);
    }
}

/// Resuming after the records of segments that all precede `start`
/// resumes at `start`.
proof fn lemma_resumed_segments(start: int, segs: Seq<(u64, Seq<WalRecordView>)>)
    requires
        forall|i: int, j: int|
            0 <= i < segs.len() && 0 <= j < segs[i].1.len() ==> (#[trigger] segs[i].1[j]).sequence_id() < start,
    ensures
        resumed_sequence(start, all_records(segs)) == start,
    decreases segs.len(),
{
    if segs.len() > 0 {
        let init = segs.drop_last();
        assert forall|i: int, j: int| 0 <= i < init.len() && 0 <= j < init[i].1.len() implies (
        #[trigger] init[i].1[j]).sequence_id() < start by {
            assert(init[i] == segs[i]);
        }
        lemma_resumed_segments(start, init);
        let last = segs.last().1;
        assert forall|j: int| 0 <= j < last.len() implies (#[trigger] last[j]).sequence_id() < start by {
            assert(segs[segs.len() - 1].1[j].sequence_id() < start);
        }
        lemma_resumed_append(start, all_records(init), last);
        lemma_resumed_unchanged(start, last);
    }
}

/// What the WAL holds is what recovery gives back. For an engine whose
/// memtables mirror its WAL segments, the text of its `CURRENT` file parses
/// back to its ids, and the logs of its segments parse back to segments
/// that `Engine::new` replays into the same memtables, resuming at the same
/// sequence number; so the recovered engine answers every key as this one
/// does.
pub proof fn lemma_wal_logs_recover(e: Engine)
    requires
        e.mirrors_wal(),
    ensures
        parse_current(current_bytes(e.state())) == Ok::<CurrentState, EngineError>(e.state()),
        e.state().next_wal_id >= 1,
        e.state().next_sequence_id >= 1,
        parsed_segments(wal_logs(e.wal_view().segments, e.wal_view().next_wal_id)) matches Some(segs) && {
            &&& recovered_layers(segs, (e.state().next_wal_id - 1) as u64) == (e.active(), e.immutables())
            &&& resumed_sequence(e.state().next_sequence_id as int, all_records(segs)) == e.state().next_sequence_id
        },
{
    crate::current::lemma_current_round_trip(e.state());
    let ws = e.wal_view().segments;
    let w = e.wal_view().next_wal_id;
    let n = ws.len();
    lemma_logs_parse(ws, w);
    let segs = Seq::new(n, |i: int| ((w - n + i) as u64, ws[i].records));
    let active_id = (w - 1) as u64;
    let init = segs.drop_last();
    assert forall|i: int| 0 <= i < init.len() implies (#[trigger] init[i]).0 < active_id by {
        assert(init[i] == segs[i]);
    }
    lemma_recovered_immutables(init, active_id);
    assert(Seq::new(init.len(), |i: int| replay_entries(init[i].1)) =~= e.immutables());
    assert(segs.last().0 == active_id);
    assert(segs.last().1 == ws[n - 1].records);
    assert forall|i: int, j: int| 0 <= i < segs.len() && 0 <= j < segs[i].1.len() implies (
    #[trigger] segs[i].1[j]).sequence_id() < e.state().next_sequence_id by {
        assert(segs[i].1 == ws[i].records);
        assert(ws[i].records[j].sequence_id() < e.state().next_sequence_id);
    }
    lemma_resumed_segments(e.state().next_sequence_id as int, segs);
}

/// What is on disk is what recovery gives back. When the files `disk`
/// hold the WAL of an engine whose memtables mirror it, the files of its
/// segments, read from `disk` by id, oldest first, are the logs of the
/// segments; so `Engine::new`, given them and the engine's `CURRENT` text,
/// replays them into the engine's own memtables and resumes at its
/// sequence number.
pub proof fn lemma_disk_wal_recovers(e: Engine, disk: Map<Seq<char>, Seq<u8>>)
    requires
        e.mirrors_wal(),
        e.disk_holds_wal(disk),
    ensures
        ({
            let n = e.wal_view().segments.len();
            let w = e.wal_view().next_wal_id;
            let files = Seq::new(
                n,
                |i: int| ((w - n + i) as u64, file_of(disk, wal_file_path(e.data_dir_spec(), (w - n + i) as u64))),
            );
            &&& files == wal_logs(e.wal_view().segments, w)
            &&& parse_current(current_bytes(e.state())) == Ok::<CurrentState, EngineError>(e.state())
            &&& parsed_segments(files) matches Some(segs) && {
                &&& recovered_layers(segs, (e.state().next_wal_id - 1) as u64) == (e.active(), e.immutables())
                &&& resumed_sequence(e.state().next_sequence_id as int, all_records(segs)) == e.state().next_sequence_id
            }
        }),
{
    let n = e.wal_view().segments.len();
    let w = e.wal_view().next_wal_id;
    let files = Seq::new(
        n,
        |i: int| ((w - n + i) as u64, file_of(disk, wal_file_path(e.data_dir_spec(), (w - n + i) as u64))),
    );
    assert forall|i: int| 0 <= i < n implies #[trigger] files[i] == wal_logs(e.wal_view().segments, w)[i] by {
        assert(e.wal_view().segments[i].path is Some);
    }
    assert(files =~= wal_logs(e.wal_view().segments, w));
    lemma_wal_logs_recover(e);
}

/// Every key reads the same after a reopen. Take an engine whose memtables
/// mirror its WAL, the files `disk` holding that WAL. An engine `e2` that
/// `Engine::new` recovered from this engine's `CURRENT` text and from the
/// files of its segments, read from `disk` by id (that is, whose memtables
/// and sequence number are what `new` states of its result), answers every
/// key over any SSTable files `tables` as this engine does, and resumes at
/// the same sequence number. The empty manifest file that recovery starts,
/// read after the others, leaves the live SSTables as the others give them.
pub proof fn lemma_reopen_reads_same(
    e: Engine,
    disk: Map<Seq<char>, Seq<u8>>,
    e2: Engine,
    tables: Seq<Seq<u8>>,
    key: Seq<u8>,
    manifest_files: Seq<Seq<u8>>,
)
    requires
        e.mirrors_wal(),
        e.disk_holds_wal(disk),
        ({
            let n = e.wal_view().segments.len();
            let w = e.wal_view().next_wal_id;
            let files = Seq::new(
                n,
                |i: int| ((w - n + i) as u64, file_of(disk, wal_file_path(e.data_dir_spec(), (w - n + i) as u64))),
            );
            let st = parse_current(current_bytes(e.state())).unwrap();
            let active_id = if st.next_wal_id == 0 {
                0
            } else {
                (st.next_wal_id - 1) as u64
            };
            parsed_segments(files) matches Some(segs) && {
                &&& (e2.active(), e2.immutables()) == recovered_layers(segs, active_id)
                &&& e2.state().next_sequence_id == resumed_sequence(
                    (if st.next_sequence_id == 0 {
                        1
                    } else {
                        st.next_sequence_id as int
                    }),
                    all_records(segs),
                )
            }
        }),
    ensures
        engine_answer(e2.lookup(key), tables_get(tables, key)) == engine_answer(e.lookup(key), tables_get(tables, key)),
        e2.state().next_sequence_id == e.state().next_sequence_id,
        replay_files(manifest_files.push(Seq::empty())) == replay_files(manifest_files),
{
    lemma_disk_wal_recovers(e, disk);
    let rs = replay_files(manifest_files);
    let all = manifest_files.push(Seq::<u8>::empty());
    assert(all.drop_last() =~= manifest_files);
    assert(parse_manifest_log(Seq::<u8>::empty(), 0) == Ok::<Seq<ManifestRecordView>, EngineError>(Seq::empty()));
    if rs is Ok {
        assert(rs.unwrap() + Seq::<ManifestRecordView>::empty() =~= rs.unwrap());
    }
}

} // verus!
