use std::collections::VecDeque;

use vstd::prelude::*;

use crate::error::{EngineError, Result};
use crate::text::{ascii_chars, decimal, digits_to_string, lemma_decimal, parse_decimal, parse_u64, u64_to_decimal};
use crate::wal::log::{WalView, WriteAheadLog};
use crate::wal::record::{parse_wal_log, replay_bytes, wal_frame, WalRecord, WalRecordView};

verus! {

/// The file name of WAL segment `id`: `wal_`, the id in decimal, `.log`.
pub open spec fn wal_file_name(id: u64) -> Seq<char> {
    "wal_"@ + ascii_chars(decimal(id as nat)) + ".log"@
}

/// The bytes of `wal_`.
pub open spec fn wal_prefix() -> Seq<u8> {
    seq![119u8, 97u8, 108u8, 95u8]
}

/// The bytes of `.log`.
pub open spec fn log_suffix() -> Seq<u8> {
    seq![46u8, 108u8, 111u8, 103u8]
}

/// The id a WAL segment file name carries: the decimal number between
/// `wal_` and `.log`.
pub open spec fn wal_file_id_spec(name: Seq<u8>) -> Option<u64> {
    if name.len() >= 8 && name.take(4) == wal_prefix() && name.skip(name.len() - 4) == log_suffix() {
        parse_decimal(name.subrange(4, name.len() - 4))
    } else {
        None
    }
}

/// Where WAL segment `id` lives in `dir`.
pub(crate) fn wal_path(dir: &str, id: u64) -> (r: String)
    ensures
        r@ == dir@ + "/"@ + wal_file_name(id),
{
    let digits = u64_to_decimal(id);
    proof {
        lemma_decimal(id as nat);
    }
    let number = digits_to_string(digits.as_slice());
    let mut path = String::from_str(dir);
    path.append("/");
    path.append("wal_");
    path.append(number.as_str());
    path.append(".log");
    proof {
        assert(path@ =~= dir@ + "/"@ + wal_file_name(id));
    }
    path
}

/// The id a WAL segment file name carries.
pub fn wal_file_id(name: &[u8]) -> (r: Option<u64>)
    ensures
        r == wal_file_id_spec(name@),
{
    let n = name.len();
    if n < 8 {
        return None;
    }
    let prefix = vstd::slice::slice_subrange(name, 0, 4);
    let suffix = vstd::slice::slice_subrange(name, n - 4, n);
    let want_prefix: [u8; 4] = [119u8, 97u8, 108u8, 95u8];
    let want_suffix: [u8; 4] = [46u8, 108u8, 111u8, 103u8];
    assert(want_prefix@ =~= wal_prefix());
    assert(want_suffix@ =~= log_suffix());
    assert(prefix@ =~= name@.take(4));
    assert(suffix@ =~= name@.skip(n - 4));
    if crate::index::compare_bytes(prefix, &want_prefix) != crate::index::ByteOrder::Equal {
        return None;
    }
    if crate::index::compare_bytes(suffix, &want_suffix) != crate::index::ByteOrder::Equal {
        return None;
    }
    let number = vstd::slice::slice_subrange(name, 4, n - 4);
    parse_u64(number)
}

/// One of the first `n` names carries WAL segment id `id`.
pub open spec fn carried_by(names: Seq<Vec<u8>>, n: int, id: u64) -> bool {
    exists|m: int| 0 <= m < n && wal_file_id_spec(#[trigger] names[m]@) == Some(id)
}

/// The segment ids that the WAL file names among `names` carry, in
/// increasing order, each once.
pub fn wal_segment_ids(names: &[Vec<u8>]) -> (r: Vec<u64>)
    ensures
        forall|i: int, j: int| 0 <= i < j < r@.len() ==> r@[i] < r@[j],
        forall|i: int| 0 <= i < r@.len() ==> #[trigger] carried_by(names@, names@.len() as int, r@[i]),
        forall|k: int| 0 <= k < names@.len() && (#[trigger] wal_file_id_spec(names@[k]@)) is Some ==> r@.contains(
            wal_file_id_spec(names@[k]@).unwrap(),
        ),
{
    let mut out: Vec<u64> = Vec::new();
    let mut k: usize = 0;
    while k < names.len()
        invariant
            k <= names@.len(),
            forall|i: int, j: int| 0 <= i < j < out@.len() ==> out@[i] < out@[j],
            forall|i: int| 0 <= i < out@.len() ==> #[trigger] carried_by(names@, k as int, out@[i]),
            forall|m: int| 0 <= m < k && (#[trigger] wal_file_id_spec(names@[m]@)) is Some ==> out@.contains(
                wal_file_id_spec(names@[m]@).unwrap(),
            ),
        decreases names@.len() - k,
    {
        match wal_file_id(names[k].as_slice()) {
            Some(id) => {
                let mut p: usize = 0;
                while p < out.len() && out[p] < id
                    invariant
                        p <= out@.len(),
                        forall|i: int| 0 <= i < p ==> out@[i] < id,
                    decreases out@.len() - p,
                {
                    p = p + 1;
                }
                let ghost before = out@;
                if p < out.len() && out[p] == id {
                    proof {
                        assert(out@.contains(id)) by {
                            assert(out@[p as int] == id);
                        }
                    }
                } else {
                    out.insert(p, id);
                    proof {
                        assert forall|i: int, j: int| 0 <= i < j < out@.len() implies out@[i] < out@[j] by {
                            if j < p {
                                assert(out@[i] == before[i] && out@[j] == before[j]);
                            } else if j == p {
                                assert(out@[i] == before[i]);
                            } else if i < p {
                                assert(out@[i] == before[i] && out@[j] == before[j - 1]);
                                assert(before[p as int] > id);
                                if j - 1 > p {
                                    assert(before[p as int] < before[j - 1]);
                                }
                            } else if i == p {
                                assert(out@[j] == before[j - 1]);
                                assert(before[p as int] > id);
                                if j - 1 > p {
                                    assert(before[p as int] < before[j - 1]);
                                }
                            } else {
                                assert(out@[i] == before[i - 1] && out@[j] == before[j - 1]);
                            }
                        }
                        assert(out@[p as int] == id);
                    }
                }
                proof {
                    assert forall|i: int| 0 <= i < out@.len() implies #[trigger] carried_by(names@, k + 1, out@[i]) by {
                        if out@[i] == id {
                            assert(wal_file_id_spec(names@[k as int]@) == Some(out@[i]));
                        } else {
                            let i0: int = if out@.len() > before.len() && i > p {
                                i - 1
                            } else {
                                i
                            };
                            assert(before[i0] == out@[i]);
                            assert(carried_by(names@, k as int, before[i0]));
                            let m = choose|m: int| 0 <= m < k && wal_file_id_spec(#[trigger] names@[m]@) == Some(before[i0]);
                        }
                    }
                    assert forall|m: int| 0 <= m < k + 1 && (#[trigger] wal_file_id_spec(names@[m]@)) is Some implies out@.contains(
                        wal_file_id_spec(names@[m]@).unwrap(),
                    ) by {
                        if m < k {
                            let x = wal_file_id_spec(names@[m]@).unwrap();
                            assert(before.contains(x));
                            let i0 = choose|i0: int| 0 <= i0 < before.len() && before[i0] == x;
                            if out@.len() > before.len() {
                                if i0 < p {
                                    assert(out@[i0] == x);
                                } else {
                                    assert(out@[i0 + 1] == x);
                                }
                            }
                        } else {
                            assert(out@.contains(id)) by {
                                if out@.len() > before.len() {
                                    assert(out@[p as int] == id);
                                } else {
                                    assert(out@[p as int] == id);
                                }
                            }
                        }
                    }
                }
            },
            None => {
                proof {
                    assert forall|i: int| 0 <= i < out@.len() implies #[trigger] carried_by(names@, k + 1, out@[i]) by {
                        assert(carried_by(names@, k as int, out@[i]));
                        let m = choose|m: int| 0 <= m < k && wal_file_id_spec(#[trigger] names@[m]@) == Some(out@[i]);
                    }
                }
            },
        }
        k = k + 1;
    }
    out
}

/// A WAL segment read back from its file: its id and its records.
#[derive(Debug, PartialEq, Eq)]
pub struct WalSegment {
    pub wal_id: u64,
    pub records: Vec<WalRecord>,
}

/// The contents of the WAL manager: its segments, oldest first, the id the
/// next segment gets, the last sequence number handed out, and the
/// directory of the segment files.
pub struct WalManagerView {
    pub segments: Seq<WalView>,
    pub next_wal_id: u64,
    pub sequence: u64,
    pub dir: Seq<char>,
}

/// Keeps the WAL segments, oldest first, and hands out sequence numbers.
pub struct WalManager {
    wals: VecDeque<WriteAheadLog>,
    current_unique_id: u64,
    sequence: u64,
    dir_path: String,
}

impl View for WalManager {
    type V = WalManagerView;

    closed spec fn view(&self) -> WalManagerView {
        WalManagerView {
            segments: Seq::new(self.wals@.len(), |i: int| self.wals@[i]@),
            next_wal_id: self.current_unique_id,
            sequence: self.sequence,
            dir: self.dir_path@,
        }
    }
}

/// The view of a fresh segment for `path`.
pub open spec fn fresh_segment(path: Seq<char>) -> WalView {
    WalView { path: Some(path), sequence: 0, records: Seq::empty() }
}

impl WalManager {
    /// A manager for `dir_path` with no segment yet written: ids start at
    /// 0 and sequence numbers at 1.
    pub fn new(dir_path: &str) -> (m: Self)
        ensures
            m@.segments == seq![fresh_segment(dir_path@ + "/"@ + wal_file_name(0))],
            m@.next_wal_id == 1,
            m@.sequence == 0,
            m@.dir == dir_path@,
    {
        Self::open(dir_path, 0, 1)
    }

    /// A manager for `dir_path` that resumes at segment `next_wal_id` and
    /// sequence number `next_sequence_id`, with a fresh current segment.
    pub fn open(dir_path: &str, next_wal_id: u64, next_sequence_id: u64) -> (m: Self)
        requires
            next_wal_id < u64::MAX,
        ensures
            m@.segments == seq![fresh_segment(dir_path@ + "/"@ + wal_file_name(next_wal_id))],
            m@.next_wal_id == next_wal_id + 1,
            m@.sequence == if next_sequence_id == 0 {
                0
            } else {
                next_sequence_id - 1
            },
            m@.dir == dir_path@,
    {
        let mut m = WalManager {
            wals: VecDeque::new(),
            current_unique_id: next_wal_id,
            sequence: next_sequence_id.saturating_sub(1),
            dir_path: String::from_str(dir_path),
        };
        proof {
            assert(m@.segments =~= Seq::<WalView>::empty());
        }
        m.rotate();
        proof {
            assert(m@.segments =~= seq![fresh_segment(dir_path@ + "/"@ + wal_file_name(next_wal_id))]);
        }
        m
    }

    /// Appends a record to the current segment, starting one if there is
    /// none. Returns the path of the segment's file and the bytes to append
    /// to it.
    pub fn append(&mut self, record: WalRecord) -> (r: (String, Vec<u8>))
        requires
            record@.wf(),
            old(self)@.segments.len() == 0 ==> old(self)@.next_wal_id < u64::MAX,
            forall|i: int| 0 <= i < old(self)@.segments.len() ==> (#[trigger] old(self)@.segments[i]).path is Some,
        ensures
            r.1@ == wal_frame(record@),
            final(self)@.sequence == old(self)@.sequence,
            final(self)@.dir == old(self)@.dir,
            final(self)@.segments.len() > 0,
            forall|i: int| 0 <= i < final(self)@.segments.len() ==> (#[trigger] final(self)@.segments[i]).path is Some,
            Some(r.0@) == final(self)@.segments.last().path,
            final(self)@.segments.last().records == (if old(self)@.segments.len() == 0 {
                seq![record@]
            } else {
                old(self)@.segments.last().records.push(record@)
            }),
            old(self)@.segments.len() > 0 ==> final(self)@.segments.drop_last() == old(self)@.segments.drop_last(),
            old(self)@.segments.len() > 0 ==> final(self)@.segments.last().path == old(self)@.segments.last().path,
            old(self)@.segments.len() == 0 ==> final(self)@.segments.last().path == Some(
                old(self)@.dir + "/"@ + wal_file_name(old(self)@.next_wal_id),
            ),
            old(self)@.segments.len() == 0 ==> final(self)@.next_wal_id == old(self)@.next_wal_id + 1,
            old(self)@.segments.len() == 0 ==> final(self)@.segments.len() == 1,
            old(self)@.segments.len() > 0 ==> final(self)@.segments.len() == old(self)@.segments.len(),
            old(self)@.segments.len() > 0 ==> final(self)@.next_wal_id == old(self)@.next_wal_id,
    {
        if self.wals.len() == 0 {
            self.rotate();
        }
        let ghost mid = self@;
        let mut current = self.wals.pop_back().unwrap();
        let bytes = current.append(record).unwrap();
        let path = String::from_str(current.path().unwrap());
        self.wals.push_back(current);
        proof {
            assert(self@.segments =~= mid.segments.drop_last().push(current@));
            assert(self@.segments.drop_last() =~= mid.segments.drop_last());
            if old(self)@.segments.len() == 0 {
                assert(mid.segments.last().records =~= Seq::<WalRecordView>::empty());
                assert(Seq::<WalRecordView>::empty().push(record@) =~= seq![record@]);
            }
            assert forall|i: int| 0 <= i < self@.segments.len() implies (#[trigger] self@.segments[i]).path is Some by {
                if i < self@.segments.len() - 1 {
                    assert(self@.segments[i] == mid.segments[i]);
                }
            }
        }
        (path, bytes)
    }

    /// Hands out the next sequence number.
    pub fn next_sequence(&mut self) -> (r: u64)
        requires
            old(self)@.sequence < u64::MAX,
        ensures
            r == old(self)@.sequence + 1,
            final(self)@.sequence == r,
            final(self)@.segments == old(self)@.segments,
            final(self)@.next_wal_id == old(self)@.next_wal_id,
            final(self)@.dir == old(self)@.dir,
    {
        self.sequence = self.sequence + 1;
        self.sequence
    }

    /// The id the next segment gets.
    pub fn next_wal_id(&self) -> (r: u64)
        ensures
            r == self@.next_wal_id,
    {
        self.current_unique_id
    }

    /// The sequence number handed out next.
    pub fn next_sequence_id(&self) -> (r: u64)
        requires
            self@.sequence < u64::MAX,
        ensures
            r == self@.sequence + 1,
    {
        self.sequence + 1
    }

    /// Resumes handing out sequence numbers at `next_sequence_id`.
    pub fn set_next_sequence_id(&mut self, next_sequence_id: u64)
        ensures
            final(self)@.sequence == if next_sequence_id == 0 {
                0
            } else {
                next_sequence_id - 1
            },
            final(self)@.segments == old(self)@.segments,
            final(self)@.next_wal_id == old(self)@.next_wal_id,
            final(self)@.dir == old(self)@.dir,
    {
        self.sequence = next_sequence_id.saturating_sub(1);
    }

    /// Starts a new current segment.
    pub fn rotate(&mut self)
        requires
            old(self)@.next_wal_id < u64::MAX,
        ensures
            final(self)@.segments == old(self)@.segments.push(
                fresh_segment(old(self)@.dir + "/"@ + wal_file_name(old(self)@.next_wal_id)),
            ),
            final(self)@.next_wal_id == old(self)@.next_wal_id + 1,
            final(self)@.sequence == old(self)@.sequence,
            final(self)@.dir == old(self)@.dir,
    {
        let path = wal_path(self.dir_path.as_str(), self.current_unique_id);
        let wal = WriteAheadLog::new(path.as_str());
        self.wals.push_back(wal);
        self.current_unique_id = self.current_unique_id + 1;
        assert(self@.segments =~= old(self)@.segments.push(
            fresh_segment(old(self)@.dir + "/"@ + wal_file_name(old(self)@.next_wal_id)),
        ));
    }

    /// The newest segment, to append to, when there is one.
    pub fn current_mut(&mut self) -> (r: Option<&mut WriteAheadLog>)
        ensures
            old(self)@.segments.len() == 0 ==> r is None && final(self)@ == old(self)@,
            old(self)@.segments.len() > 0 ==> r is Some,
            r matches Some(w) ==> {
                &&& w@ == old(self)@.segments.last()
                &&& final(self)@.segments == old(self)@.segments.drop_last().push(final(w)@)
            },
            final(self)@.next_wal_id == old(self)@.next_wal_id,
            final(self)@.sequence == old(self)@.sequence,
            final(self)@.dir == old(self)@.dir,
    {
        deque_back_mut(&mut self.wals)
    }

    /// Takes the oldest segment off the queue.
    pub fn pop_oldest(&mut self) -> (r: Option<WriteAheadLog>)
        ensures
            old(self)@.segments.len() == 0 ==> r is None && final(self)@.segments == old(self)@.segments,
            old(self)@.segments.len() > 0 ==> (r matches Some(w) && w@ == old(self)@.segments[0])
                && final(self)@.segments == old(self)@.segments.drop_first(),
            final(self)@.next_wal_id == old(self)@.next_wal_id,
            final(self)@.sequence == old(self)@.sequence,
            final(self)@.dir == old(self)@.dir,
    {
        let r = self.wals.pop_front();
        assert(self@.segments =~= if old(self)@.segments.len() == 0 {
            old(self)@.segments
        } else {
            old(self)@.segments.drop_first()
        });
        r
    }

    /// The number of segments.
    pub fn len(&self) -> (r: usize)
        ensures
            r == self@.segments.len(),
    {
        self.wals.len()
    }

    /// Whether there is no segment.
    pub fn is_empty(&self) -> (r: bool)
        ensures
            r == (self@.segments.len() == 0),
    {
        self.wals.len() == 0
    }

    /// Where segment `id` lives.
    pub fn segment_path(&self, id: u64) -> (r: String)
        ensures
            r@ == self@.dir + "/"@ + wal_file_name(id),
    {
        wal_path(self.dir_path.as_str(), id)
    }

    /// Reads back segment `wal_id` from the bytes of its file.
    pub fn replay_segment(&self, wal_id: u64, bytes: &[u8]) -> (r: Result<WalSegment>)
        ensures
            match parse_wal_log(bytes@, 0) {
                Ok(rs) => r matches Ok(s) && s.wal_id == wal_id && s.records@.len() == rs.len() && forall|i: int|
                    0 <= i < rs.len() ==> (#[trigger] s.records@[i])@ == rs[i],
                Err(e) => r == Err::<WalSegment, EngineError>(e),
            },
    {
        let records = replay_bytes(bytes)?;
        Ok(WalSegment { wal_id, records })
    }
}

/// `VecDeque::back_mut`: the last element of the queue, borrowed mutably,
/// or `None` when the queue is empty; a write through the borrow changes
/// that element only.
#[verifier::external_body]
pub(crate) fn deque_back_mut<T>(v: &mut VecDeque<T>) -> (r: Option<&mut T>)
    ensures
        old(v)@.len() == 0 ==> r is None && final(v)@ == old(v)@,
        old(v)@.len() > 0 ==> r is Some,
        r matches Some(x) ==> *x == old(v)@.last() && final(v)@ == old(v)@.drop_last().push(*final(x)),
{
    v.back_mut()
}

} // verus!
