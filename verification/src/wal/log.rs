use vstd::prelude::*;

use crate::engine::{FileOp, FileOpView};
use crate::error::Result;
use crate::wal::record::{replay_bytes, wal_frame, WalRecord, WalRecordView};

verus! {

/// The contents of a write-ahead log segment: its file, if it has one, the
/// largest sequence number seen, and the records appended.
pub struct WalView {
    pub path: Option<Seq<char>>,
    pub sequence: u64,
    pub records: Seq<WalRecordView>,
}

/// The larger of two sequence numbers.
pub open spec fn max_u64(a: u64, b: u64) -> u64 {
    if a >= b {
        a
    } else {
        b
    }
}

/// A write-ahead log segment: the records appended to it, in order, and the
/// file they go to.
#[derive(Debug, Default)]
pub struct WriteAheadLog {
    write_path: Option<String>,
    sequence: u64,
    records: Vec<WalRecord>,
}

impl View for WriteAheadLog {
    type V = WalView;

    closed spec fn view(&self) -> WalView {
        WalView {
            path: match self.write_path {
                Some(p) => Some(p@),
                None => None,
            },
            sequence: self.sequence,
            records: Seq::new(self.records@.len(), |i: int| self.records@[i]@),
        }
    }
}

impl WriteAheadLog {
    /// The file change that removes the segment's file, when it has one.
    pub fn remove_file(self) -> (r: Option<FileOp>)
        ensures
            match self@.path {
                Some(p) => r matches Some(op) && op@ == (FileOpView::Remove { path: p }),
                None => r is None,
            },
    {
        match self.write_path {
            Some(path) => Some(FileOp::Remove { path }),
            None => None,
        }
    }

    /// An empty segment written to `write_path`.
    pub fn new(write_path: &str) -> (w: Self)
        ensures
            w@.path == Some(write_path@),
            w@.sequence == 0,
            w@.records == Seq::<WalRecordView>::empty(),
    {
        let w = WriteAheadLog { write_path: Some(String::from_str(write_path)), sequence: 0, records: Vec::new() };
        assert(w@.records =~= Seq::<WalRecordView>::empty());
        w
    }

    /// Appends a record: the segment's sequence becomes the larger of its
    /// own and the record's. Returns the framed bytes to append to the
    /// segment's file, when it has one.
    pub fn append(&mut self, record: WalRecord) -> (r: Option<Vec<u8>>)
        requires
            record@.wf(),
        ensures
            final(self)@.path == old(self)@.path,
            final(self)@.sequence == max_u64(old(self)@.sequence, record@.sequence_id()),
            final(self)@.records == old(self)@.records.push(record@),
            old(self)@.path is Some ==> (r matches Some(bytes) && bytes@ == wal_frame(record@)),
            old(self)@.path is None ==> r is None,
    {
        let id = record.sequence_id();
        if id > self.sequence {
            self.sequence = id;
        }
        let bytes = if self.write_path.is_some() {
            Some(record.encode())
        } else {
            None
        };
        self.records.push(record);
        assert(self@.records =~= old(self)@.records.push(record@));
        bytes
    }

    /// Hands out the next sequence number.
    pub fn next_sequence(&mut self) -> (r: u64)
        requires
            old(self)@.sequence < u64::MAX,
        ensures
            r == old(self)@.sequence + 1,
            final(self)@.sequence == r,
            final(self)@.path == old(self)@.path,
            final(self)@.records == old(self)@.records,
    {
        self.sequence = self.sequence + 1;
        self.sequence
    }

    /// The records appended, in order.
    pub fn records(&self) -> (r: &[WalRecord])
        ensures
            r@.len() == self@.records.len(),
            forall|i: int| 0 <= i < r@.len() ==> (#[trigger] r@[i])@ == self@.records[i],
    {
        self.records.as_slice()
    }

    /// The segment's file, if it has one.
    pub fn path(&self) -> (r: Option<&str>)
        ensures
            match self@.path {
                Some(p) => r matches Some(s) && s@ == p,
                None => r is None,
            },
    {
        match &self.write_path {
            Some(p) => Some(p.as_str()),
            None => None,
        }
    }

    /// Forgets the records; the segment's file is emptied along with them.
    pub fn truncate(&mut self)
        ensures
            final(self)@.records == Seq::<WalRecordView>::empty(),
            final(self)@.path == old(self)@.path,
            final(self)@.sequence == old(self)@.sequence,
    {
        self.records.clear();
        assert(self@.records =~= Seq::<WalRecordView>::empty());
    }

    /// The records that a segment file holds, in order.
    pub fn replay(bytes: &[u8]) -> (r: Result<Vec<WalRecord>>)
        ensures
            match crate::wal::record::parse_wal_log(bytes@, 0) {
                Ok(rs) => r matches Ok(v) && v@.len() == rs.len() && forall|i: int|
                    0 <= i < rs.len() ==> (#[trigger] v@[i])@ == rs[i],
                Err(e) => r == Err::<Vec<WalRecord>, crate::error::EngineError>(e),
            },
    {
        replay_bytes(bytes)
    }
}

} // verus!
