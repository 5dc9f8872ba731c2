use std::collections::VecDeque;

use vstd::prelude::*;

use crate::wal::log::{WalView, WriteAheadLog};
use crate::wal::manager::{fresh_segment, wal_file_name, wal_path};

verus! {

/// Keeps WAL segments in a queue, oldest first, naming each by a running
/// id.
pub struct WriteAheadLogger {
    wals: VecDeque<WriteAheadLog>,
    current_unique_id: u64,
    dir_path: String,
}

impl WriteAheadLogger {
    /// The segments, oldest first.
    pub closed spec fn segments(&self) -> Seq<WalView> {
        Seq::new(self.wals@.len(), |i: int| self.wals@[i]@)
    }

    /// The id the next segment gets.
    pub closed spec fn next_id(&self) -> u64 {
        self.current_unique_id
    }

    /// The directory of the segment files.
    pub closed spec fn dir(&self) -> Seq<char> {
        self.dir_path@
    }

    /// A logger for `dir_path` with one fresh segment.
    pub fn new(dir_path: &str) -> (l: Self)
        ensures
            l.segments() == seq![fresh_segment(dir_path@ + "/"@ + wal_file_name(0))],
            l.next_id() == 1,
            l.dir() == dir_path@,
    {
        let mut l = WriteAheadLogger { wals: VecDeque::new(), current_unique_id: 0, dir_path: String::from_str(dir_path) };
        proof {
            assert(l.segments() =~= Seq::<WalView>::empty());
        }
        l.new_wal();
        proof {
            assert(l.segments() =~= seq![fresh_segment(dir_path@ + "/"@ + wal_file_name(0))]);
        }
        l
    }

    /// The newest segment, to append to, when there is one.
    pub fn current_mut(&mut self) -> (r: Option<&mut WriteAheadLog>)
        ensures
            old(self).segments().len() == 0 ==> r is None && final(self).segments() == old(self).segments(),
            old(self).segments().len() > 0 ==> r is Some,
            r matches Some(w) ==> {
                &&& w@ == old(self).segments().last()
                &&& final(self).segments() == old(self).segments().drop_last().push(final(w)@)
            },
            final(self).next_id() == old(self).next_id(),
            final(self).dir() == old(self).dir(),
    {
        crate::wal::manager::deque_back_mut(&mut self.wals)
    }

    /// Starts a new segment after the others.
    pub fn new_wal(&mut self)
        requires
            old(self).next_id() < u64::MAX,
        ensures
            final(self).segments() == old(self).segments().push(
                fresh_segment(old(self).dir() + "/"@ + wal_file_name(old(self).next_id())),
            ),
            final(self).next_id() == old(self).next_id() + 1,
            final(self).dir() == old(self).dir(),
    {
        let path = wal_path(self.dir_path.as_str(), self.current_unique_id);
        self.wals.push_back(WriteAheadLog::new(path.as_str()));
        self.current_unique_id = self.current_unique_id + 1;
        assert(self.segments() =~= old(self).segments().push(
            fresh_segment(old(self).dir() + "/"@ + wal_file_name(old(self).next_id())),
        ));
    }

    /// Takes the oldest segment off the queue.
    pub fn pop_oldest(&mut self) -> (r: Option<WriteAheadLog>)
        ensures
            old(self).segments().len() == 0 ==> r is None && final(self).segments() == old(self).segments(),
            old(self).segments().len() > 0 ==> (r matches Some(w) && w@ == old(self).segments()[0])
                && final(self).segments() == old(self).segments().drop_first(),
            final(self).next_id() == old(self).next_id(),
            final(self).dir() == old(self).dir(),
    {
        let r = self.wals.pop_front();
        assert(self.segments() =~= if old(self).segments().len() == 0 {
            old(self).segments()
        } else {
            old(self).segments().drop_first()
        });
        r
    }

    /// The number of segments.
    pub fn len(&self) -> (r: usize)
        ensures
            r == self.segments().len(),
    {
        self.wals.len()
    }

    /// Whether there is no segment.
    pub fn is_empty(&self) -> (r: bool)
        ensures
            r == (self.segments().len() == 0),
    {
        self.wals.len() == 0
    }
}

} // verus!
