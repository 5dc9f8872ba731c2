pub mod block;
pub mod block_index;
pub mod footer;
pub mod manager;
pub mod meta;
pub mod read_back;
pub mod reader;
pub mod writer;

use vstd::prelude::*;

use crate::index::{bytes_lt, compare_bytes, lookup, ByteOrder, EntriesView, Key, Value, ValueView};
use crate::storage::bloom::{BloomFilter, BloomView};
use crate::storage::sstable::block_index::{BlockIndex, IndexEntryView};
use crate::storage::sstable::footer::Footer;
use crate::storage::sstable::meta::{SSTableMeta, SSTableMetaView};

verus! {

/// Keys never decrease along the entries; equal keys may repeat.
pub open spec fn nondecreasing_keys(s: EntriesView) -> bool {
    forall|i: int, j: int| 0 <= i < j < s.len() ==> !bytes_lt(#[trigger] s[j].0, #[trigger] s[i].0)
}

/// Number of entries whose key does not come after `k`: where an entry with
/// key `k` goes after the ones with equal keys.
pub open spec fn upper_bound(s: EntriesView, k: Seq<u8>) -> nat
    decreases s.len(),
{
    if s.len() == 0 {
        0
    } else {
        (if !bytes_lt(k, s[0].0) {
            1nat
        } else {
            0nat
        }) + upper_bound(s.drop_first(), k)
    }
}

/// The entries sorted by key, entries with equal keys kept in their order:
/// each entry in turn goes after the entries whose keys do not come after
/// its own.
pub open spec fn sort_entries(s: EntriesView) -> EntriesView
    decreases s.len(),
{
    if s.len() == 0 {
        s
    } else {
        let t = sort_entries(s.drop_last());
        t.insert(upper_bound(t, s.last().0) as int, s.last())
    }
}

/// `upper_bound` is the position that splits the keys not after `k` from
/// the others.
proof fn lemma_upper_bound(s: EntriesView, k: Seq<u8>, p: int)
    requires
        0 <= p <= s.len(),
        forall|i: int| 0 <= i < p ==> !bytes_lt(k, #[trigger] s[i].0),
        forall|i: int| p <= i < s.len() ==> bytes_lt(k, #[trigger] s[i].0),
    ensures
        upper_bound(s, k) == p,
    decreases s.len(),
{
    if s.len() > 0 {
        let t = s.drop_first();
        if p > 0 {
            assert forall|i: int| 0 <= i < p - 1 implies !bytes_lt(k, #[trigger] t[i].0) by {
                assert(t[i] == s[i + 1]);
            }
            assert forall|i: int| p - 1 <= i < t.len() implies bytes_lt(k, #[trigger] t[i].0) by {
                assert(t[i] == s[i + 1]);
            }
            lemma_upper_bound(t, k, p - 1);
        } else {
            assert forall|i: int| 0 <= i < t.len() implies bytes_lt(k, #[trigger] t[i].0) by {
                assert(t[i] == s[i + 1]);
            }
            lemma_upper_bound(t, k, 0);
            assert(bytes_lt(k, s[0].0));
        }
    }
}

/// In entries with nondecreasing keys, the entries with keys not after `k`
/// come first.
proof fn lemma_upper_bound_split(s: EntriesView, k: Seq<u8>) -> (p: int)
    requires
        nondecreasing_keys(s),
    ensures
        p == upper_bound(s, k),
        0 <= p <= s.len(),
        forall|i: int| 0 <= i < p ==> !bytes_lt(k, #[trigger] s[i].0),
        forall|i: int| p <= i < s.len() ==> bytes_lt(k, #[trigger] s[i].0),
{
    crate::index::lemma_bytes_lt_order();
    if exists|i: int| 0 <= i < s.len() && bytes_lt(k, #[trigger] s[i].0) {
        let w = lemma_first_after(s, k);
        assert forall|i: int| w <= i < s.len() implies bytes_lt(k, #[trigger] s[i].0) by {
            if i > w {
                assert(!bytes_lt(s[i].0, s[w].0));
                crate::index::lemma_bytes_lt_total(s[w].0, s[i].0);
            }
        }
        lemma_upper_bound(s, k, w);
        w
    } else {
        lemma_upper_bound(s, k, s.len() as int);
        s.len() as int
    }
}

/// The first entry whose key comes after `k`, when there is one.
proof fn lemma_first_after(s: EntriesView, k: Seq<u8>) -> (w: int)
    requires
        exists|i: int| 0 <= i < s.len() && bytes_lt(k, #[trigger] s[i].0),
    ensures
        0 <= w < s.len(),
        bytes_lt(k, s[w].0),
        forall|j: int| 0 <= j < w ==> !bytes_lt(k, #[trigger] s[j].0),
    decreases s.len(),
{
    if bytes_lt(k, s[0].0) {
        0
    } else {
        let t = s.drop_first();
        let i = choose|i: int| 0 <= i < s.len() && bytes_lt(k, #[trigger] s[i].0);
        assert(t[i - 1] == s[i]);
        let w = lemma_first_after(t, k);
        assert forall|j: int| 0 <= j < w + 1 implies !bytes_lt(k, #[trigger] s[j].0) by {
            if j > 0 {
                assert(s[j] == t[j - 1]);
            }
        }
        w + 1
    }
}

/// Sorting gives entries with nondecreasing keys, as many as there were.
pub proof fn lemma_sort_entries(s: EntriesView)
    ensures
        nondecreasing_keys(sort_entries(s)),
        sort_entries(s).len() == s.len(),
    decreases s.len(),
{
    crate::index::lemma_bytes_lt_order();
    if s.len() > 0 {
        lemma_sort_entries(s.drop_last());
        let t = sort_entries(s.drop_last());
        let e = s.last();
        let p = lemma_upper_bound_split(t, e.0);
        let u = t.insert(p, e);
        assert forall|i: int, j: int| 0 <= i < j < u.len() implies !bytes_lt(#[trigger] u[j].0, #[trigger] u[i].0) by {
            if j < p {
                assert(u[i] == t[i] && u[j] == t[j]);
            } else if j == p {
                assert(u[i] == t[i]);
            } else if i < p {
                assert(u[i] == t[i] && u[j] == t[j - 1]);
                assert(bytes_lt(e.0, t[j - 1].0));
                if bytes_lt(u[j].0, u[i].0) {
                    assert(!bytes_lt(e.0, t[i].0));
                }
            } else if i == p {
                assert(u[j] == t[j - 1]);
            } else {
                assert(u[i] == t[i - 1] && u[j] == t[j - 1]);
            }
        }
    }
}

/// Sorting keeps exactly the entries it was given, each as often.
pub proof fn lemma_sort_entries_keeps(s: EntriesView)
    ensures
        sort_entries(s).to_multiset() =~= s.to_multiset(),
    decreases s.len(),
{
    broadcast use vstd::seq_lib::group_to_multiset_ensures;

    if s.len() > 0 {
        let init = s.drop_last();
        lemma_sort_entries_keeps(init);
        lemma_sort_entries(init);
        let t = sort_entries(init);
        let e = s.last();
        let p = lemma_upper_bound_split(t, e.0);
        let u = t.insert(p, e);
        assert(u.remove(p) =~= t);
        assert(u[p] == e);
        assert(u.contains(e));
        assert(init.push(e) =~= s);
        assert(u.to_multiset() =~= t.to_multiset().insert(e)) by {
            assert(u.to_multiset().remove(e) =~= t.to_multiset());
            assert(u.to_multiset().count(e) > 0);
        }
    }
}

/// A table made from entries with distinct keys answers each key with its
/// entry's value, and nothing for any other key.
pub proof fn lemma_sorted_table_lookup(s: EntriesView, k: Seq<u8>)
    requires
        forall|i: int, j: int| 0 <= i < s.len() && 0 <= j < s.len() && i != j ==> (#[trigger] s[i]).0 != (#[trigger] s[j]).0,
    ensures
        forall|i: int| 0 <= i < s.len() && (#[trigger] s[i]).0 == k ==> lookup(sort_entries(s), k) == Some(s[i].1),
        (forall|i: int| 0 <= i < s.len() ==> (#[trigger] s[i]).0 != k) ==> lookup(sort_entries(s), k) is None,
{
    broadcast use vstd::seq_lib::group_to_multiset_ensures;

    crate::index::lemma_bytes_lt_order();
    let u = sort_entries(s);
    lemma_sort_entries(s);
    lemma_sort_entries_keeps(s);
    assert(s.no_duplicates()) by {
        assert forall|i: int, j: int| 0 <= i < s.len() && 0 <= j < s.len() && i != j implies s[i] != s[j] by {
            assert(s[i].0 != s[j].0);
        }
    }
    s.lemma_multiset_has_no_duplicates();
    u.lemma_multiset_has_no_duplicates_conv();
    assert forall|i: int, j: int| 0 <= i < j < u.len() implies crate::index::bytes_lt(#[trigger] u[i].0, #[trigger] u[j].0) by {
        assert(u.contains(u[i]));
        assert(u.contains(u[j]));
        assert(u.to_multiset().count(u[i]) > 0);
        assert(u.to_multiset().count(u[j]) > 0);
        assert(s.to_multiset().count(u[i]) > 0);
        assert(s.to_multiset().count(u[j]) > 0);
        assert(s.contains(u[i]));
        assert(s.contains(u[j]));
        let a = choose|a: int| 0 <= a < s.len() && s[a] == u[i];
        let b = choose|b: int| 0 <= b < s.len() && s[b] == u[j];
        assert(u[i] != u[j]);
        assert(a != b);
        assert(u[i].0 != u[j].0);
        assert(!bytes_lt(u[j].0, u[i].0));
        crate::index::lemma_bytes_lt_total(u[i].0, u[j].0);
    }
    crate::index::lemma_lookup_sorted(u, k);
    assert forall|i: int| 0 <= i < s.len() && (#[trigger] s[i]).0 == k implies lookup(u, k) == Some(s[i].1) by {
        assert(s.contains(s[i]));
        assert(s.to_multiset().count(s[i]) > 0);
        assert(u.to_multiset().count(s[i]) > 0);
        assert(u.contains(s[i]));
        let j = choose|j: int| 0 <= j < u.len() && u[j] == s[i];
        assert(u[j].0 == k);
    }
    if forall|i: int| 0 <= i < s.len() ==> (#[trigger] s[i]).0 != k {
        assert forall|j: int| 0 <= j < u.len() implies (#[trigger] u[j]).0 != k by {
            assert(u.contains(u[j]));
            assert(u.to_multiset().count(u[j]) > 0);
            assert(s.to_multiset().count(u[j]) > 0);
            assert(s.contains(u[j]));
            let a = choose|a: int| 0 <= a < s.len() && s[a] == u[j];
            assert(s[a].0 != k);
        }
    }
}

/// The contents of an SSTable handle: its id, path, the entries it holds in
/// memory, and the parts read from or written to its file.
pub struct SsTableView {
    pub id: u64,
    pub path: Seq<char>,
    pub entries: EntriesView,
    pub footer: Option<Footer>,
    pub block_index: Option<Seq<IndexEntryView>>,
    pub bloom: Option<BloomView>,
    pub meta: Option<SSTableMetaView>,
}

/// An SSTable: its id and file path, with the entries it holds in key order
/// and, when known, its footer, block index, Bloom filter and metadata.
#[derive(Debug)]
pub struct SsTable {
    id: u64,
    path: String,
    entries: Vec<(Key, Value)>,
    footer: Option<Footer>,
    block_index: Option<BlockIndex>,
    bloom_filter: Option<BloomFilter>,
    meta: Option<SSTableMeta>,
}

impl View for SsTable {
    type V = SsTableView;

    closed spec fn view(&self) -> SsTableView {
        SsTableView {
            id: self.id,
            path: self.path@,
            entries: Seq::new(self.entries@.len(), |i: int| (self.entries@[i].0@, self.entries@[i].1@)),
            footer: self.footer,
            block_index: match self.block_index {
                Some(b) => Some(b@),
                None => None,
            },
            bloom: match self.bloom_filter {
                Some(b) => Some(b@),
                None => None,
            },
            meta: match self.meta {
                Some(m) => Some(m@),
                None => None,
            },
        }
    }
}

impl SsTable {
    /// The entries are in key order.
    pub open spec fn wf(&self) -> bool {
        nondecreasing_keys(self@.entries)
    }

    /// A table with no entries and no parts.
    pub fn new(id: u64, path: &str) -> (t: Self)
        ensures
            t.wf(),
            t@ == (SsTableView {
                id,
                path: path@,
                entries: Seq::empty(),
                footer: None,
                block_index: None,
                bloom: None,
                meta: None,
            }),
    {
        let t = SsTable {
            id,
            path: String::from_str(path),
            entries: Vec::new(),
            footer: None,
            block_index: None,
            bloom_filter: None,
            meta: None,
        };
        assert(t@.entries =~= Seq::<(Seq<u8>, ValueView)>::empty());
        t
    }

    /// A table known by the parts of its file.
    pub fn from_parts(id: u64, path: &str, footer: Footer, block_index: BlockIndex, bloom_filter: BloomFilter) -> (t: Self)
        ensures
            t.wf(),
            t@ == (SsTableView {
                id,
                path: path@,
                entries: Seq::empty(),
                footer: Some(footer),
                block_index: Some(block_index@),
                bloom: Some(bloom_filter@),
                meta: None,
            }),
    {
        let t = SsTable {
            id,
            path: String::from_str(path),
            entries: Vec::new(),
            footer: Some(footer),
            block_index: Some(block_index),
            bloom_filter: Some(bloom_filter),
            meta: None,
        };
        assert(t@.entries =~= Seq::<(Seq<u8>, ValueView)>::empty());
        t
    }

    /// A table known by the parts of its file and its metadata.
    pub fn from_parts_with_meta(
        id: u64,
        path: &str,
        footer: Footer,
        block_index: BlockIndex,
        bloom_filter: BloomFilter,
        meta: SSTableMeta,
    ) -> (t: Self)
        ensures
            t.wf(),
            t@ == (SsTableView {
                id,
                path: path@,
                entries: Seq::empty(),
                footer: Some(footer),
                block_index: Some(block_index@),
                bloom: Some(bloom_filter@),
                meta: Some(meta@),
            }),
    {
        let t = SsTable {
            id,
            path: String::from_str(path),
            entries: Vec::new(),
            footer: Some(footer),
            block_index: Some(block_index),
            bloom_filter: Some(bloom_filter),
            meta: Some(meta),
        };
        assert(t@.entries =~= Seq::<(Seq<u8>, ValueView)>::empty());
        t
    }

    /// A table holding `entries`, sorted by key; entries with equal keys
    /// keep their order.
    pub fn from_entries(id: u64, path: &str, entries: Vec<(Key, Value)>) -> (t: Self)
        ensures
            t.wf(),
            t@ == (SsTableView {
                id,
                path: path@,
                entries: sort_entries(Seq::new(entries@.len(), |i: int| (entries@[i].0@, entries@[i].1@))),
                footer: None,
                block_index: None,
                bloom: None,
                meta: None,
            }),
    {
        let ghost input = Seq::new(entries@.len(), |i: int| (entries@[i].0@, entries@[i].1@));
        let mut sorted: Vec<(Key, Value)> = Vec::new();
        let mut rest = entries;
        let mut remaining: Vec<(Key, Value)> = Vec::new();
        // Reverse so that popping yields the entries in their original order.
        while rest.len() > 0
            invariant
                input.len() == rest@.len() + remaining@.len(),
                forall|i: int| 0 <= i < rest@.len() ==> (#[trigger] rest@[i]).0@ == input[i].0 && rest@[i].1@ == input[i].1,
                forall|i: int| 0 <= i < remaining@.len() ==> (#[trigger] remaining@[i]).0@ == input[input.len() - 1 - i].0 && remaining@[i].1@ == input[input.len() - 1 - i].1,
            decreases rest@.len(),
        {
            let e = rest.pop().unwrap();
            remaining.push(e);
        }
        let n = remaining.len();
        let mut i: usize = 0;
        while i < n
            invariant
                n == remaining@.len() + i,
                n == input.len(),
                forall|j: int| 0 <= j < remaining@.len() ==> (#[trigger] remaining@[j]).0@ == input[input.len() - 1 - j].0 && remaining@[j].1@ == input[input.len() - 1 - j].1,
                sorted@.len() == i,
                Seq::new(sorted@.len(), |j: int| (sorted@[j].0@, sorted@[j].1@)) == sort_entries(input.take(i as int)),
            decreases n - i,
        {
            let e = remaining.pop().unwrap();
            proof {
                lemma_sort_entries(input.take(i as int));
            }
            let ghost t = Seq::new(sorted@.len(), |j: int| (sorted@[j].0@, sorted@[j].1@));
            let p = position_after(&sorted, e.0.as_bytes());
            sorted.insert(p, e);
            proof {
                let s = input.take(i + 1);
                assert(s.drop_last() =~= input.take(i as int));
                assert(s.last() == input[i as int]);
                assert(e.0@ == input[i as int].0 && e.1@ == input[i as int].1);
                assert(Seq::new(sorted@.len(), |j: int| (sorted@[j].0@, sorted@[j].1@)) =~= t.insert(p as int, (e.0@, e.1@)));
            }
            i = i + 1;
        }
        proof {
            assert(input.take(n as int) =~= input);
            lemma_sort_entries(input);
        }
        let t = SsTable {
            id,
            path: String::from_str(path),
            entries: sorted,
            footer: None,
            block_index: None,
            bloom_filter: None,
            meta: None,
        };
        t
    }

    /// The table's id.
    pub fn id(&self) -> (r: u64)
        ensures
            r == self@.id,
    {
        self.id
    }

    /// The table's file path.
    pub fn path(&self) -> (r: &str)
        ensures
            r@ == self@.path,
    {
        self.path.as_str()
    }

    /// What the table holds for `key`: the first of its entries with the
    /// key, found by binary search.
    pub fn get(&self, key: &Key) -> (r: Option<&Value>)
        requires
            self.wf(),
        ensures
            match lookup(self@.entries, key@) {
                Some(v) => r matches Some(x) && x@ == v,
                None => r is None,
            },
    {
        let ghost s = self@.entries;
        let mut lo: usize = 0;
        let mut hi: usize = self.entries.len();
        while lo < hi
            invariant
                s == self@.entries,
                nondecreasing_keys(s),
                lo <= hi <= s.len(),
                s.len() == self.entries@.len(),
                forall|i: int| 0 <= i < lo ==> bytes_lt(#[trigger] s[i].0, key@),
                forall|i: int| hi <= i < s.len() ==> !bytes_lt(#[trigger] s[i].0, key@),
            decreases hi - lo,
        {
            let mid = lo + (hi - lo) / 2;
            let c = compare_bytes(self.entries[mid].0.as_bytes(), key.as_bytes());
            proof {
                crate::index::lemma_bytes_lt_order();
                assert(s[mid as int].0 == self.entries@[mid as int].0@);
            }
            match c {
                ByteOrder::Less => {
                    proof {
                        assert forall|i: int| 0 <= i < mid + 1 implies bytes_lt(#[trigger] s[i].0, key@) by {
                            if i < mid {
                                if !bytes_lt(s[i].0, key@) {
                                    assert(!bytes_lt(s[mid as int].0, s[i].0));
                                    crate::index::lemma_bytes_lt_total(s[i].0, key@);
                                    if s[i].0 == key@ {
                                    } else {
                                        assert(bytes_lt(key@, s[i].0));
                                        crate::index::lemma_bytes_lt_total(s[mid as int].0, s[i].0);
                                    }
                                }
                            }
                        }
                    }
                    lo = mid + 1;
                },
                _ => {
                    proof {
                        assert forall|i: int| mid <= i < s.len() implies !bytes_lt(#[trigger] s[i].0, key@) by {
                            if i > mid {
                                assert(!bytes_lt(s[i].0, s[mid as int].0));
                                crate::index::lemma_bytes_lt_total(s[mid as int].0, key@);
                                crate::index::lemma_bytes_lt_total(s[i].0, s[mid as int].0);
                            }
                        }
                    }
                    hi = mid;
                },
            }
        }
        proof {
            crate::index::lemma_lower_bound(s, key@, lo as int);
        }
        if lo < self.entries.len() {
            let c = compare_bytes(self.entries[lo].0.as_bytes(), key.as_bytes());
            if c == ByteOrder::Equal {
                return Some(&self.entries[lo].1);
            }
        }
        None
    }

    /// The footer, when known.
    pub fn footer(&self) -> (r: Option<&Footer>)
        ensures
            match self@.footer {
                Some(f) => r matches Some(x) && *x == f,
                None => r is None,
            },
    {
        self.footer.as_ref()
    }

    /// The block index, when known.
    pub fn block_index(&self) -> (r: Option<&BlockIndex>)
        ensures
            match self@.block_index {
                Some(b) => r matches Some(x) && x@ == b,
                None => r is None,
            },
    {
        self.block_index.as_ref()
    }

    /// The Bloom filter, when known.
    pub fn bloom_filter(&self) -> (r: Option<&BloomFilter>)
        ensures
            match self@.bloom {
                Some(b) => r matches Some(x) && x@ == b,
                None => r is None,
            },
    {
        self.bloom_filter.as_ref()
    }

    /// The metadata, when known.
    pub fn meta(&self) -> (r: Option<&SSTableMeta>)
        ensures
            match self@.meta {
                Some(m) => r matches Some(x) && x@ == m,
                None => r is None,
            },
    {
        self.meta.as_ref()
    }

    /// The entries, in key order.
    pub fn iter(&self) -> (r: &[(Key, Value)])
        ensures
            r@.len() == self@.entries.len(),
            forall|i: int| 0 <= i < r@.len() ==> ((#[trigger] r@[i]).0@, r@[i].1@) == self@.entries[i],
    {
        self.entries.as_slice()
    }

    /// The number of entries.
    pub fn len(&self) -> (r: usize)
        ensures
            r == self@.entries.len(),
    {
        self.entries.len()
    }

    /// Whether the table holds no entry.
    pub fn is_empty(&self) -> (r: bool)
        ensures
            r == (self@.entries.len() == 0),
    {
        self.entries.len() == 0
    }
}

/// Where an entry with key `key` goes among sorted entries: after every
/// entry whose key does not come after it.
fn position_after(entries: &Vec<(Key, Value)>, key: &[u8]) -> (r: usize)
    requires
        nondecreasing_keys(Seq::new(entries@.len(), |j: int| (entries@[j].0@, entries@[j].1@))),
    ensures
        r == upper_bound(Seq::new(entries@.len(), |j: int| (entries@[j].0@, entries@[j].1@)), key@),
        r <= entries@.len(),
{
    let ghost s = Seq::new(entries@.len(), |j: int| (entries@[j].0@, entries@[j].1@));
    let mut lo: usize = 0;
    let mut hi: usize = entries.len();
    proof {
        crate::index::lemma_bytes_lt_order();
    }
    while lo < hi
        invariant
            s == Seq::new(entries@.len(), |j: int| (entries@[j].0@, entries@[j].1@)),
            nondecreasing_keys(s),
            lo <= hi <= s.len(),
            forall|i: int| 0 <= i < lo ==> !bytes_lt(key@, #[trigger] s[i].0),
            forall|i: int| hi <= i < s.len() ==> bytes_lt(key@, #[trigger] s[i].0),
        decreases hi - lo,
    {
        let mid = lo + (hi - lo) / 2;
        let c = compare_bytes(key, entries[mid].0.as_bytes());
        proof {
            crate::index::lemma_bytes_lt_order();
            assert(s[mid as int].0 == entries@[mid as int].0@);
        }
        if c == ByteOrder::Less {
            proof {
                assert forall|i: int| mid <= i < s.len() implies bytes_lt(key@, #[trigger] s[i].0) by {
                    if i > mid {
                        assert(!bytes_lt(s[i].0, s[mid as int].0));
                        crate::index::lemma_bytes_lt_total(s[i].0, s[mid as int].0);
                    }
                }
            }
            hi = mid;
        } else {
            proof {
                crate::index::lemma_bytes_lt_total(key@, s[mid as int].0);
                assert forall|i: int| 0 <= i < mid + 1 implies !bytes_lt(key@, #[trigger] s[i].0) by {
                    if i < mid {
                        assert(!bytes_lt(s[mid as int].0, s[i].0));
                        crate::index::lemma_bytes_lt_total(s[i].0, s[mid as int].0);
                    }
                }
            }
            lo = mid + 1;
        }
    }
    proof {
        lemma_upper_bound(s, key@, lo as int);
    }
    lo
}

} // verus!
