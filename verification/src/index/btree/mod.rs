use vstd::prelude::*;

use crate::index::{
    bytes_lt, compare_bytes, insert_entry, lemma_bytes_lt_order, lemma_lower_bound,
    lemma_total_size_insert, lemma_total_size_update, lookup, lower_bound, sorted_keys, total_size,
    value_size, ByteOrder, EntriesView, Key, MemTable, Value, ValueView,
};

verus! {

/// An ordered memtable: its entries in a vector kept sorted by key, with
/// binary search to find a key's position.
pub struct BTree {
    keys: Vec<(Key, Value)>,
    approximate_size: usize,
}

impl View for BTree {
    type V = EntriesView;

    closed spec fn view(&self) -> EntriesView {
        Seq::new(self.keys@.len(), |i: int| (self.keys@[i].0@, self.keys@[i].1@))
    }
}

impl BTree {
    /// The entries are sorted by key and the size counter is their size.
    pub closed spec fn wf(&self) -> bool {
        &&& sorted_keys(self@)
        &&& self.approximate_size == total_size(self@)
    }

    /// An empty memtable.
    pub fn new() -> (t: Self)
        ensures
            t.wf(),
            t@ == Seq::<(Seq<u8>, ValueView)>::empty(),
    {
        let t = BTree { keys: Vec::new(), approximate_size: 0 };
        assert(t@ =~= Seq::<(Seq<u8>, ValueView)>::empty());
        t
    }

    /// The position at which `key` belongs.
    fn position(&self, key: &Key) -> (r: usize)
        requires
            self.wf(),
        ensures
            r == lower_bound(self@, key@),
            r <= self@.len(),
    {
        proof {
            lemma_bytes_lt_order();
        }
        let mut lo: usize = 0;
        let mut hi: usize = self.keys.len();
        while lo < hi
            invariant
                self.wf(),
                0 <= lo <= hi <= self@.len(),
                self@.len() == self.keys@.len(),
                forall|i: int| 0 <= i < lo ==> bytes_lt(#[trigger] self@[i].0, key@),
                forall|i: int| hi <= i < self@.len() ==> !bytes_lt(#[trigger] self@[i].0, key@),
            decreases hi - lo,
        {
            let mid = lo + (hi - lo) / 2;
            proof {
                lemma_bytes_lt_order();
            }
            if compare_bytes(self.keys[mid].0.as_bytes(), key.as_bytes()) == ByteOrder::Less {
                proof {
                    assert forall|i: int| 0 <= i < mid + 1 implies bytes_lt(
                        #[trigger] self@[i].0,
                        key@,
                    ) by {
                        if i < mid {
                            assert(bytes_lt(self@[i].0, self@[mid as int].0));
                        }
                    }
                }
                lo = mid + 1;
            } else {
                proof {
                    assert forall|i: int| mid <= i < self@.len() implies !bytes_lt(
                        #[trigger] self@[i].0,
                        key@,
                    ) by {
                        if i > mid {
                            assert(bytes_lt(self@[mid as int].0, self@[i].0));
                        }
                    }
                }
                hi = mid;
            }
        }
        proof {
            lemma_lower_bound(self@, key@, lo as int);
        }
        lo
    }

    /// Binds `key` to `value`.
    fn put_entry(&mut self, key: Key, value: Value)
        requires
            old(self).wf(),
            total_size(old(self)@) + key@.len() + value_size(value@) <= usize::MAX,
        ensures
            final(self).wf(),
            final(self)@ == insert_entry(old(self)@, key@, value@),
    {
        let ghost old_view = self@;
        let p = self.position(&key);
        proof {
            crate::index::lemma_insert_entry(old_view, key@, value@);
        }
        if p < self.keys.len() && compare_bytes(self.keys[p].0.as_bytes(), key.as_bytes())
            == ByteOrder::Equal {
            proof {
                lemma_total_size_update(old_view, p as int, (key@, value@));
            }
            let old_size = self.keys[p].0.approximate_size() + self.keys[p].1.approximate_size();
            let new_size = key.approximate_size() + value.approximate_size();
            self.keys.set(p, (key, value));
            self.approximate_size = (self.approximate_size + new_size) - old_size;
            assert(self@ =~= insert_entry(old_view, key@, value@));
        } else {
            proof {
                lemma_total_size_insert(old_view, p as int, (key@, value@));
            }
            let new_size = key.approximate_size() + value.approximate_size();
            self.keys.insert(p, (key, value));
            self.approximate_size = self.approximate_size + new_size;
            assert(self@ =~= insert_entry(old_view, key@, value@));
        }
    }
}

impl Default for BTree {
    /// An empty memtable.
    fn default() -> (t: Self)
        ensures
            t.wf(),
            t@ == Seq::<(Seq<u8>, ValueView)>::empty(),
    {
        BTree::new()
    }
}

impl MemTable for BTree {
    open spec fn inv(&self) -> bool {
        self.wf()
    }

    open spec fn entries(&self) -> EntriesView {
        self@
    }

    fn put(&mut self, key: Key, value: Value) {
        self.put_entry(key, value);
    }

    fn get(&self, key: &Key) -> (r: Option<&Value>) {
        let p = self.position(key);
        if p < self.keys.len() && compare_bytes(self.keys[p].0.as_bytes(), key.as_bytes())
            == ByteOrder::Equal {
            Some(&self.keys[p].1)
        } else {
            None
        }
    }

    fn delete(&mut self, key: Key) {
        let tombstone = Value::Tombstone;
        self.put_entry(key, tombstone);
    }

    fn iter(&self) -> (r: Vec<(Key, Value)>) {
        let mut out: Vec<(Key, Value)> = Vec::new();
        let mut i: usize = 0;
        while i < self.keys.len()
            invariant
                i <= self.keys@.len(),
                self@.len() == self.keys@.len(),
                out@.len() == i,
                forall|j: int|
                    0 <= j < i ==> (#[trigger] out@[j]).0@ == self@[j].0 && out@[j].1@ == self@[j].1,
            decreases self.keys@.len() - i,
        {
            let entry = &self.keys[i];
            out.push((entry.0.duplicate(), entry.1.duplicate()));
            i = i + 1;
        }
        out
    }

    fn approximate_size(&self) -> (r: usize) {
        self.approximate_size
    }

    fn is_empty(&self) -> (r: bool) {
        self.keys.len() == 0
    }
}

} // verus!
