use std::collections::VecDeque;

use vstd::prelude::*;

use crate::index::skip_list::SkipList;
use crate::index::{
    insert_entry, lemma_insert_entry, lemma_total_size_insert, lemma_total_size_update, lookup,
    lower_bound, sorted_keys, total_size, value_size, EntriesView, Key, MemTable, Value, ValueView,
    VALUE_KIND_SIZE,
};
use crate::wal::record::{WalRecord, WalRecordView};

verus! {

/// What a write did to the memtables: whether the active memtable was full
/// and became immutable, and whether there are now more immutable memtables
/// than allowed, so that the oldest should be flushed.
#[derive(Debug, Clone, Copy, PartialEq, Eq, Structural)]
pub struct MemTableWriteOutcome {
    pub rotated: bool,
    pub should_flush: bool,
}

/// What the newest of the immutable memtables that holds `k` holds for it.
pub open spec fn lookup_newest(imms: Seq<EntriesView>, k: Seq<u8>) -> Option<ValueView>
    decreases imms.len(),
{
    if imms.len() == 0 {
        None
    } else {
        match lookup(imms.last(), k) {
            Some(v) => Some(v),
            None => lookup_newest(imms.drop_last(), k),
        }
    }
}

/// What a stack of memtables holds for `k`: the active memtable first,
/// then the immutable ones from newest to oldest.
pub open spec fn lookup_layers(active: EntriesView, imms: Seq<EntriesView>, k: Seq<u8>) -> Option<
    ValueView,
> {
    match lookup(active, k) {
        Some(v) => Some(v),
        None => lookup_newest(imms, k),
    }
}

/// The value a log record writes: its value, or a tombstone.
pub open spec fn record_value(r: WalRecordView) -> ValueView {
    match r {
        WalRecordView::Put { value, .. } => ValueView::Put(value),
        WalRecordView::Delete { .. } => ValueView::Tombstone,
    }
}

/// The entries a memtable holds after replaying `rs` in order from empty.
pub open spec fn replay_entries(rs: Seq<WalRecordView>) -> EntriesView
    decreases rs.len(),
{
    if rs.len() == 0 {
        Seq::empty()
    } else {
        insert_entry(replay_entries(rs.drop_last()), rs.last().key(), record_value(rs.last()))
    }
}

/// Sum over `rs` of the size each record can add to a memtable.
pub open spec fn records_size(rs: Seq<WalRecordView>) -> nat
    decreases rs.len(),
{
    if rs.len() == 0 {
        0
    } else {
        records_size(rs.drop_last()) + rs.last().key().len() + value_size(record_value(rs.last()))
    }
}

/// Binding a key adds at most the size of the new entry.
proof fn lemma_total_size_insert_entry(s: EntriesView, k: Seq<u8>, v: ValueView)
    ensures
        total_size(insert_entry(s, k, v)) <= total_size(s) + k.len() + value_size(v),
{
    let p = lower_bound(s, k) as int;
    if p < s.len() && s[p].0 == k {
        lemma_total_size_update(s, p, (k, v));
    } else {
        if p > s.len() {
            crate::index::lemma_total_size_len(s);
        }
        lemma_lower_bound_le(s, k);
        lemma_total_size_insert(s, p, (k, v));
    }
}

proof fn lemma_lower_bound_le(s: EntriesView, k: Seq<u8>)
    ensures
        lower_bound(s, k) <= s.len(),
    decreases s.len(),
{
    if s.len() > 0 {
        lemma_lower_bound_le(s.drop_first(), k);
    }
}

/// Replaying records yields sorted entries no larger than the records.
proof fn lemma_replay(rs: Seq<WalRecordView>)
    ensures
        sorted_keys(replay_entries(rs)),
        total_size(replay_entries(rs)) <= records_size(rs),
    decreases rs.len(),
{
    if rs.len() > 0 {
        lemma_replay(rs.drop_last());
        lemma_insert_entry(replay_entries(rs.drop_last()), rs.last().key(), record_value(rs.last()));
        lemma_total_size_insert_entry(
            replay_entries(rs.drop_last()),
            rs.last().key(),
            record_value(rs.last()),
        );
    }
}

/// What the last record for `k` in `rs` writes, if some record is for `k`.
pub open spec fn last_record_value(rs: Seq<WalRecordView>, k: Seq<u8>) -> Option<ValueView>
    decreases rs.len(),
{
    if rs.len() == 0 {
        None
    } else if rs.last().key() == k {
        Some(record_value(rs.last()))
    } else {
        last_record_value(rs.drop_last(), k)
    }
}

/// Replaying a log segment binds each key to what its last record writes
/// (its value, or a tombstone), and binds no key that no record names.
pub proof fn lemma_replay_lookup(rs: Seq<WalRecordView>, k: Seq<u8>)
    ensures
        lookup(replay_entries(rs), k) == last_record_value(rs, k),
    decreases rs.len(),
{
    if rs.len() == 0 {
        lemma_lookup_empty(k);
    } else {
        lemma_replay_lookup(rs.drop_last(), k);
        lemma_replay(rs.drop_last());
        lemma_insert_entry(replay_entries(rs.drop_last()), rs.last().key(), record_value(rs.last()));
    }
}

/// With a segment replayed as the active memtable, a key reads what its last
/// record in the segment writes, and a key the segment does not name reads
/// what the immutable memtables hold; with a segment replayed as the newest
/// immutable memtable, a key the active memtable does not hold reads what
/// its last record writes, and older memtables are read only for keys the
/// segment does not name.
pub proof fn lemma_recovered_lookup(
    active: EntriesView,
    imms: Seq<EntriesView>,
    rs: Seq<WalRecordView>,
    k: Seq<u8>,
)
    ensures
        lookup_layers(replay_entries(rs), imms, k) == match last_record_value(rs, k) {
            Some(v) => Some(v),
            None => lookup_newest(imms, k),
        },
        lookup_layers(active, imms.push(replay_entries(rs)), k) == match lookup(active, k) {
            Some(v) => Some(v),
            None => match last_record_value(rs, k) {
                Some(v) => Some(v),
                None => lookup_newest(imms, k),
            },
        },
{
    lemma_replay_lookup(rs, k);
    assert(imms.push(replay_entries(rs)).drop_last() =~= imms);
}

/// After a write of `v` to `k`, the stack of memtables reads `v` for `k`
/// and what it read before for every other key, whether or not the active
/// memtable became immutable.
pub proof fn lemma_write_lookup(
    a: EntriesView,
    imms: Seq<EntriesView>,
    k: Seq<u8>,
    v: ValueView,
    k2: Seq<u8>,
)
    requires
        sorted_keys(a),
    ensures
        lookup_layers(insert_entry(a, k, v), imms, k2) == (if k2 == k {
            Some(v)
        } else {
            lookup_layers(a, imms, k2)
        }),
        lookup_layers(Seq::<(Seq<u8>, ValueView)>::empty(), imms.push(insert_entry(a, k, v)), k2)
            == (if k2 == k {
            Some(v)
        } else {
            lookup_layers(a, imms, k2)
        }),
{
    lemma_insert_entry(a, k, v);
    lemma_lookup_empty(k2);
    assert(imms.push(insert_entry(a, k, v)).drop_last() =~= imms);
}

/// No key is found in empty entries.
proof fn lemma_lookup_empty(k: Seq<u8>)
    ensures
        lookup(Seq::<(Seq<u8>, ValueView)>::empty(), k) is None,
{
}

/// The memtables of the engine: one active memtable that takes writes, and
/// a queue of full memtables, oldest first, waiting to be flushed.
pub struct MemTableManager {
    active: SkipList,
    immutable: VecDeque<SkipList>,
    flush_threshold: usize,
    maximum_immutable: usize,
}

impl MemTableManager {
    /// Every memtable is well formed.
    pub closed spec fn wf(&self) -> bool {
        &&& self.active.wf()
        &&& forall|i: int| 0 <= i < self.immutable@.len() ==> (#[trigger] self.immutable@[i]).wf()
    }

    /// The entries of the active memtable.
    pub closed spec fn active_entries(&self) -> EntriesView {
        self.active@
    }

    /// The entries of the immutable memtables, oldest first.
    pub closed spec fn immutable_entries(&self) -> Seq<EntriesView> {
        Seq::new(self.immutable@.len(), |i: int| self.immutable@[i]@)
    }

    /// Size at which the active memtable becomes immutable.
    pub closed spec fn threshold(&self) -> usize {
        self.flush_threshold
    }

    /// Number of immutable memtables above which the oldest should be
    /// flushed.
    pub closed spec fn maximum(&self) -> usize {
        self.maximum_immutable
    }

    /// The keys of every memtable are sorted.
    pub proof fn lemma_sorted(&self)
        requires
            self.wf(),
        ensures
            crate::index::sorted_keys(self.active_entries()),
            forall|i: int|
                0 <= i < self.immutable_entries().len() ==> crate::index::sorted_keys(
                    #[trigger] self.immutable_entries()[i],
                ),
    {
        self.active.lemma_sorted();
        assert forall|i: int| 0 <= i < self.immutable_entries().len() implies crate::index::sorted_keys(
            #[trigger] self.immutable_entries()[i],
        ) by {
            self.immutable@[i].lemma_sorted();
        }
    }

    /// What the memtables hold for `k`, newest first.
    pub open spec fn lookup(&self, k: Seq<u8>) -> Option<ValueView> {
        lookup_layers(self.active_entries(), self.immutable_entries(), k)
    }

    /// An empty active memtable and no immutable one.
    pub fn new(flush_threshold: usize, maximum_immutable: usize) -> (m: Self)
        ensures
            m.wf(),
            m.active_entries() == Seq::<(Seq<u8>, ValueView)>::empty(),
            m.immutable_entries() == Seq::<EntriesView>::empty(),
            m.threshold() == flush_threshold,
            m.maximum() == maximum_immutable,
    {
        let m = MemTableManager {
            active: SkipList::new(),
            immutable: VecDeque::new(),
            flush_threshold,
            maximum_immutable,
        };
        assert(m.immutable_entries() =~= Seq::<EntriesView>::empty());
        m
    }

    /// Binds `key` to `value` in the active memtable, then makes it
    /// immutable if it reached the threshold.
    pub fn put(&mut self, key: Vec<u8>, value: Vec<u8>) -> (r: MemTableWriteOutcome)
        requires
            old(self).wf(),
            total_size(old(self).active_entries()) + key@.len() + VALUE_KIND_SIZE + value@.len()
                <= usize::MAX,
        ensures
            final(self).wf(),
            final(self).threshold() == old(self).threshold(),
            final(self).maximum() == old(self).maximum(),
            Self::written(*old(self), *final(self), key@, ValueView::Put(value@), r),
            final(self).lookup(key@) == Some(ValueView::Put(value@)),
            forall|k: Seq<u8>| k != key@ ==> #[trigger] final(self).lookup(k) == old(self).lookup(k),
    {
        let ghost before = *self;
        let ghost v = ValueView::Put(value@);
        proof {
            self.active.lemma_sorted();
            lemma_insert_entry(self.active@, key@, v);
        }
        self.active.put(Key::new(key), Value::Put(value));
        let r = self.rotate_if_needed();
        proof {
            assert forall|k: Seq<u8>| #[trigger] self.lookup(k) == (if k == key@ { Some(v) } else { before.lookup(k) }) by {
                lemma_write_lookup(before.active_entries(), before.immutable_entries(), key@, v, k);
            }
        }
        r
    }

    /// Binds `key` to a tombstone in the active memtable, then makes it
    /// immutable if it reached the threshold.
    pub fn delete(&mut self, key: Vec<u8>) -> (r: MemTableWriteOutcome)
        requires
            old(self).wf(),
            total_size(old(self).active_entries()) + key@.len() + VALUE_KIND_SIZE <= usize::MAX,
        ensures
            final(self).wf(),
            final(self).threshold() == old(self).threshold(),
            final(self).maximum() == old(self).maximum(),
            Self::written(*old(self), *final(self), key@, ValueView::Tombstone, r),
            final(self).lookup(key@) == Some(ValueView::Tombstone),
            forall|k: Seq<u8>| k != key@ ==> #[trigger] final(self).lookup(k) == old(self).lookup(k),
    {
        let ghost before = *self;
        let ghost v = ValueView::Tombstone;
        proof {
            self.active.lemma_sorted();
            lemma_insert_entry(self.active@, key@, v);
        }
        self.active.delete(Key::new(key));
        let r = self.rotate_if_needed();
        proof {
            assert forall|k: Seq<u8>| #[trigger] self.lookup(k) == (if k == key@ { Some(v) } else { before.lookup(k) }) by {
                lemma_write_lookup(before.active_entries(), before.immutable_entries(), key@, v, k);
            }
        }
        r
    }

    /// The state after binding `k` to `v`: the active memtable with the
    /// binding, made immutable when it reached the threshold.
    pub open spec fn written(
        before: Self,
        after: Self,
        k: Seq<u8>,
        v: ValueView,
        r: MemTableWriteOutcome,
    ) -> bool {
        let a = insert_entry(before.active_entries(), k, v);
        if total_size(a) < before.threshold() {
            &&& after.active_entries() == a
            &&& after.immutable_entries() == before.immutable_entries()
            &&& r == MemTableWriteOutcome { rotated: false, should_flush: false }
        } else {
            &&& after.active_entries() == Seq::<(Seq<u8>, ValueView)>::empty()
            &&& after.immutable_entries() == before.immutable_entries().push(a)
            &&& r == MemTableWriteOutcome {
                rotated: true,
                should_flush: before.immutable_entries().len() + 1 > before.maximum(),
            }
        }
    }

    /// A write is fixed by the state before it and the binding it makes: the
    /// memtables after it and its outcome are the same whichever call made
    /// it, so replaying a record with `recover` leaves the memtables as
    /// `put` of its key and value, or `delete` of its key, would.
    pub proof fn lemma_written_unique(
        before: Self,
        a1: Self,
        a2: Self,
        k: Seq<u8>,
        v: ValueView,
        r1: MemTableWriteOutcome,
        r2: MemTableWriteOutcome,
    )
        requires
            Self::written(before, a1, k, v, r1),
            Self::written(before, a2, k, v, r2),
        ensures
            a1.active_entries() == a2.active_entries(),
            a1.immutable_entries() == a2.immutable_entries(),
            r1 == r2,
    {
    }

    /// Replays a log record into the memtables.
    pub fn recover(&mut self, record: WalRecord) -> (r: MemTableWriteOutcome)
        requires
            old(self).wf(),
            total_size(old(self).active_entries()) + record@.key().len() + value_size(
                record_value(record@),
            ) <= usize::MAX,
        ensures
            final(self).wf(),
            final(self).threshold() == old(self).threshold(),
            final(self).maximum() == old(self).maximum(),
            Self::written(*old(self), *final(self), record@.key(), record_value(record@), r),
    {
        match record {
            WalRecord::Put { key, value, .. } => self.put(key, value),
            WalRecord::Delete { key, .. } => self.delete(key),
        }
    }

    /// Replaces the active memtable by one rebuilt from a log segment.
    pub fn recover_active_segment(&mut self, records: Vec<WalRecord>)
        requires
            old(self).wf(),
            records_size(records@.map_values(|r: WalRecord| r@)) <= usize::MAX,
        ensures
            final(self).wf(),
            final(self).threshold() == old(self).threshold(),
            final(self).maximum() == old(self).maximum(),
            final(self).active_entries() == replay_entries(records@.map_values(|r: WalRecord| r@)),
            final(self).immutable_entries() == old(self).immutable_entries(),
    {
        self.active = recover_segment(records);
    }

    /// Appends a memtable rebuilt from a log segment to the immutable queue,
    /// as its newest member.
    pub fn recover_immutable_segment(&mut self, records: Vec<WalRecord>)
        requires
            old(self).wf(),
            records_size(records@.map_values(|r: WalRecord| r@)) <= usize::MAX,
        ensures
            final(self).wf(),
            final(self).threshold() == old(self).threshold(),
            final(self).maximum() == old(self).maximum(),
            final(self).active_entries() == old(self).active_entries(),
            final(self).immutable_entries() == old(self).immutable_entries().push(
                replay_entries(records@.map_values(|r: WalRecord| r@)),
            ),
    {
        let table = recover_segment(records);
        self.immutable.push_back(table);
        assert(self.immutable_entries() =~= old(self).immutable_entries().push(
            replay_entries(records@.map_values(|r: WalRecord| r@)),
        ));
    }

    /// What the memtables hold for `key`: the active memtable first, then
    /// the immutable ones from newest to oldest.
    pub fn get(&self, key: &Key) -> (r: Option<&Value>)
        requires
            self.wf(),
        ensures
            match self.lookup(key@) {
                Some(v) => r matches Some(x) && x@ == v,
                None => r is None,
            },
    {
        if let Some(value) = self.active.get(key) {
            return Some(value);
        }
        let mut i = self.immutable.len();
        assert(self.immutable_entries().take(i as int) =~= self.immutable_entries());
        while i > 0
            invariant
                self.wf(),
                i <= self.immutable@.len(),
                lookup(self.active_entries(), key@) is None,
                self.lookup(key@) == lookup_newest(self.immutable_entries().take(i as int), key@),
            decreases i,
        {
            let ghost imms = self.immutable_entries().take(i as int);
            assert(imms.drop_last() =~= self.immutable_entries().take(i - 1));
            let memtable = &self.immutable[i - 1];
            if let Some(value) = memtable.get(key) {
                return Some(value);
            }
            i = i - 1;
        }
        None
    }

    /// Takes the oldest immutable memtable off the queue.
    pub fn pop_flushable(&mut self) -> (r: Option<SkipList>)
        requires
            old(self).wf(),
        ensures
            final(self).wf(),
            final(self).threshold() == old(self).threshold(),
            final(self).maximum() == old(self).maximum(),
            final(self).active_entries() == old(self).active_entries(),
            old(self).immutable_entries().len() == 0 ==> (r is None && final(self).immutable_entries()
                == old(self).immutable_entries()),
            old(self).immutable_entries().len() > 0 ==> (r matches Some(t) && t.wf() && t@
                == old(self).immutable_entries()[0] && final(self).immutable_entries()
                == old(self).immutable_entries().drop_first()),
    {
        let r = self.immutable.pop_front();
        assert(self.immutable_entries() =~= if old(self).immutable_entries().len() == 0 {
            old(self).immutable_entries()
        } else {
            old(self).immutable_entries().drop_first()
        });
        r
    }

    /// The size of the active memtable.
    pub fn active_size(&self) -> (r: usize)
        requires
            self.wf(),
        ensures
            r == total_size(self.active_entries()),
    {
        self.active.approximate_size()
    }

    /// The number of immutable memtables.
    pub fn immutable_count(&self) -> (r: usize)
        ensures
            r == self.immutable_entries().len(),
    {
        self.immutable.len()
    }

    /// Makes the active memtable immutable when it reached the threshold.
    fn rotate_if_needed(&mut self) -> (r: MemTableWriteOutcome)
        requires
            old(self).wf(),
        ensures
            final(self).wf(),
            final(self).threshold() == old(self).threshold(),
            final(self).maximum() == old(self).maximum(),
            total_size(old(self).active_entries()) < old(self).threshold() ==> {
                &&& final(self).active_entries() == old(self).active_entries()
                &&& final(self).immutable_entries() == old(self).immutable_entries()
                &&& r == MemTableWriteOutcome { rotated: false, should_flush: false }
            },
            total_size(old(self).active_entries()) >= old(self).threshold() ==> {
                &&& final(self).active_entries() == Seq::<(Seq<u8>, ValueView)>::empty()
                &&& final(self).immutable_entries() == old(self).immutable_entries().push(
                    old(self).active_entries(),
                )
                &&& r == MemTableWriteOutcome {
                    rotated: true,
                    should_flush: old(self).immutable_entries().len() + 1 > old(self).maximum(),
                }
            },
    {
        if self.active.approximate_size() < self.flush_threshold {
            return MemTableWriteOutcome { rotated: false, should_flush: false };
        }
        let mut full_memtable = SkipList::new();
        std::mem::swap(&mut self.active, &mut full_memtable);
        self.immutable.push_back(full_memtable);
        assert(self.immutable_entries() =~= old(self).immutable_entries().push(
            old(self).active_entries(),
        ));
        MemTableWriteOutcome {
            rotated: true,
            should_flush: self.immutable.len() > self.maximum_immutable,
        }
    }
}

/// A memtable rebuilt by replaying log records in order.
pub fn recover_segment(records: Vec<WalRecord>) -> (r: SkipList)
    requires
        records_size(records@.map_values(|r: WalRecord| r@)) <= usize::MAX,
    ensures
        r.wf(),
        r@ == replay_entries(records@.map_values(|r: WalRecord| r@)),
{
    let ghost rs = records@.map_values(|r: WalRecord| r@);
    let mut memtable = SkipList::new();
    let mut i: usize = 0;
    assert(rs.take(0) =~= Seq::<WalRecordView>::empty());
    while i < records.len()
        invariant
            i <= records@.len(),
            rs == records@.map_values(|r: WalRecord| r@),
            records_size(rs) <= usize::MAX,
            memtable.wf(),
            memtable@ == replay_entries(rs.take(i as int)),
        decreases records@.len() - i,
    {
        let record = &records[i];
        proof {
            assert(rs.take(i + 1).drop_last() =~= rs.take(i as int));
            lemma_replay(rs.take(i as int));
            lemma_records_size_prefix(rs, i as int + 1);
        }
        match record {
            WalRecord::Put { key, value, .. } => {
                let k = Key::new(crate::format::copy_bytes(key.as_slice()));
                let v = Value::Put(crate::format::copy_bytes(value.as_slice()));
                memtable.put(k, v);
            },
            WalRecord::Delete { key, .. } => {
                let k = Key::new(crate::format::copy_bytes(key.as_slice()));
                memtable.delete(k);
            },
        }
        i = i + 1;
    }
    assert(rs.take(records@.len() as int) =~= rs);
    memtable
}

/// A prefix of records is no larger than all of them.
proof fn lemma_records_size_prefix(rs: Seq<WalRecordView>, n: int)
    requires
        0 <= n <= rs.len(),
    ensures
        records_size(rs.take(n)) <= records_size(rs),
    decreases rs.len(),
{
    if n < rs.len() {
        assert(rs.drop_last().take(n) =~= rs.take(n));
        lemma_records_size_prefix(rs.drop_last(), n);
    } else {
        assert(rs.take(n) =~= rs);
    }
}

} // verus!
