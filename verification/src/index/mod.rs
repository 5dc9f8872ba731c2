pub mod btree;
pub mod memtable_manager;
pub mod skip_list;

use vstd::prelude::*;

use crate::format::copy_bytes;

verus! {

/// Encoded size of the kind tag that every memtable value carries.
pub const VALUE_KIND_SIZE: usize = 1;

/// Lexicographic order of byte strings, the order of `Vec<u8>`: the first
/// differing byte decides, and a proper prefix comes first.
pub open spec fn bytes_lt(a: Seq<u8>, b: Seq<u8>) -> bool
    decreases a.len(),
{
    if a.len() == 0 {
        b.len() > 0
    } else if b.len() == 0 {
        false
    } else if a[0] != b[0] {
        a[0] < b[0]
    } else {
        bytes_lt(a.drop_first(), b.drop_first())
    }
}

/// No byte string comes before itself.
pub proof fn lemma_bytes_lt_irreflexive(a: Seq<u8>)
    ensures
        !bytes_lt(a, a),
    decreases a.len(),
{
    if a.len() > 0 {
        lemma_bytes_lt_irreflexive(a.drop_first());
    }
}

/// The order of byte strings is transitive.
pub proof fn lemma_bytes_lt_transitive(a: Seq<u8>, b: Seq<u8>, c: Seq<u8>)
    requires
        bytes_lt(a, b),
        bytes_lt(b, c),
    ensures
        bytes_lt(a, c),
    decreases a.len(),
{
    if a.len() > 0 && b.len() > 0 && c.len() > 0 && a[0] == b[0] && b[0] == c[0] {
        lemma_bytes_lt_transitive(a.drop_first(), b.drop_first(), c.drop_first());
    }
}

/// Two distinct byte strings are ordered one way or the other, never both.
pub proof fn lemma_bytes_lt_total(a: Seq<u8>, b: Seq<u8>)
    ensures
        a != b ==> (bytes_lt(a, b) || bytes_lt(b, a)),
        !(bytes_lt(a, b) && bytes_lt(b, a)),
    decreases a.len(),
{
    if a.len() > 0 && b.len() > 0 && a[0] == b[0] {
        lemma_bytes_lt_total(a.drop_first(), b.drop_first());
        if a.drop_first() == b.drop_first() {
            assert(a =~= seq![a[0]] + a.drop_first());
            assert(b =~= seq![b[0]] + b.drop_first());
        }
    } else if a.len() == 0 && b.len() == 0 {
        assert(a =~= b);
    }
}

/// The order facts used everywhere, for all byte strings at once.
pub proof fn lemma_bytes_lt_order()
    ensures
        forall|a: Seq<u8>| !#[trigger] bytes_lt(a, a),
        forall|a: Seq<u8>, b: Seq<u8>, c: Seq<u8>|
            #[trigger] bytes_lt(a, b) && #[trigger] bytes_lt(b, c) ==> bytes_lt(a, c),
        forall|a: Seq<u8>, b: Seq<u8>|
            a != b ==> (#[trigger] bytes_lt(a, b) || #[trigger] bytes_lt(b, a)),
        forall|a: Seq<u8>, b: Seq<u8>| !(#[trigger] bytes_lt(a, b) && #[trigger] bytes_lt(b, a)),
{
    assert forall|a: Seq<u8>| !#[trigger] bytes_lt(a, a) by {
        lemma_bytes_lt_irreflexive(a);
    }
    assert forall|a: Seq<u8>, b: Seq<u8>, c: Seq<u8>|
        #[trigger] bytes_lt(a, b) && #[trigger] bytes_lt(b, c) implies bytes_lt(a, c) by {
        lemma_bytes_lt_transitive(a, b, c);
    }
    assert forall|a: Seq<u8>, b: Seq<u8>|
        a != b implies (#[trigger] bytes_lt(a, b) || #[trigger] bytes_lt(b, a)) by {
        lemma_bytes_lt_total(a, b);
    }
    assert forall|a: Seq<u8>, b: Seq<u8>| !(#[trigger] bytes_lt(a, b) && #[trigger] bytes_lt(b, a)) by {
        lemma_bytes_lt_total(a, b);
    }
}

/// Dropping a common prefix does not change how two byte strings compare.
proof fn lemma_bytes_lt_skip(a: Seq<u8>, b: Seq<u8>, i: int)
    requires
        0 <= i <= a.len(),
        i <= b.len(),
        a.subrange(0, i) == b.subrange(0, i),
    ensures
        bytes_lt(a, b) == bytes_lt(a.skip(i), b.skip(i)),
    decreases i,
{
    if i > 0 {
        assert(a[0] == a.subrange(0, i)[0]);
        assert(b[0] == b.subrange(0, i)[0]);
        assert(a.drop_first().subrange(0, i - 1) =~= a.subrange(0, i).drop_first());
        assert(b.drop_first().subrange(0, i - 1) =~= b.subrange(0, i).drop_first());
        lemma_bytes_lt_skip(a.drop_first(), b.drop_first(), i - 1);
        assert(a.drop_first().skip(i - 1) =~= a.skip(i));
        assert(b.drop_first().skip(i - 1) =~= b.skip(i));
    } else {
        assert(a.skip(0) =~= a);
        assert(b.skip(0) =~= b);
    }
}

/// How two byte strings compare.
#[derive(PartialEq, Eq, Structural, Debug, Clone, Copy)]
pub enum ByteOrder {
    Less,
    Equal,
    Greater,
}

/// Compares two byte strings in lexicographic order.
pub fn compare_bytes(a: &[u8], b: &[u8]) -> (r: ByteOrder)
    ensures
        (r == ByteOrder::Less) == bytes_lt(a@, b@),
        (r == ByteOrder::Equal) == (a@ == b@),
        (r == ByteOrder::Greater) == bytes_lt(b@, a@),
{
    proof {
        lemma_bytes_lt_total(a@, b@);
        lemma_bytes_lt_irreflexive(a@);
    }
    let mut i: usize = 0;
    while i < a.len() && i < b.len()
        invariant
            i <= a@.len(),
            i <= b@.len(),
            a@.subrange(0, i as int) == b@.subrange(0, i as int),
        decreases a@.len() - i,
    {
        if a[i] != b[i] {
            proof {
                lemma_bytes_lt_skip(a@, b@, i as int);
                lemma_bytes_lt_skip(b@, a@, i as int);
                assert(a@.skip(i as int)[0] == a@[i as int]);
                assert(b@.skip(i as int)[0] == b@[i as int]);
                if a@ == b@ {
                    assert(a@[i as int] == b@[i as int]);
                }
            }
            if a[i] < b[i] {
                return ByteOrder::Less;
            } else {
                return ByteOrder::Greater;
            }
        }
        assert(a@.subrange(0, i + 1) =~= a@.subrange(0, i as int).push(a@[i as int]));
        assert(b@.subrange(0, i + 1) =~= b@.subrange(0, i as int).push(b@[i as int]));
        i = i + 1;
    }
    proof {
        lemma_bytes_lt_skip(a@, b@, i as int);
        lemma_bytes_lt_skip(b@, a@, i as int);
    }
    if a.len() == b.len() {
        assert(a@ =~= a@.subrange(0, i as int));
        assert(b@ =~= b@.subrange(0, i as int));
        ByteOrder::Equal
    } else if a.len() < b.len() {
        assert(a@.skip(i as int).len() == 0);
        ByteOrder::Less
    } else {
        assert(b@.skip(i as int).len() == 0);
        ByteOrder::Greater
    }
}

/// A memtable key: a byte string ordered lexicographically.
#[derive(Debug, PartialEq, Eq, PartialOrd, Ord, Default)]
pub struct Key(Vec<u8>);

impl View for Key {
    type V = Seq<u8>;

    closed spec fn view(&self) -> Seq<u8> {
        self.0@
    }
}

impl Key {
    /// A key holding `bytes`.
    pub fn new(bytes: Vec<u8>) -> (k: Key)
        ensures
            k@ == bytes@,
    {
        Key(bytes)
    }

    /// The key's bytes.
    pub fn as_bytes(&self) -> (r: &[u8])
        ensures
            r@ == self@,
    {
        self.0.as_slice()
    }

    /// The key's contribution to a memtable's size: its length in bytes.
    pub fn approximate_size(&self) -> (r: usize)
        ensures
            r == self@.len(),
    {
        self.0.len()
    }

    /// An equal, separately owned key.
    pub fn duplicate(&self) -> (r: Key)
        ensures
            r@ == self@,
    {
        Key(copy_bytes(self.0.as_slice()))
    }
}

/// What a memtable holds for a key: a value, or the tombstone a deletion
/// leaves.
#[derive(Debug, PartialEq, Eq)]
pub enum Value {
    Put(Vec<u8>),
    Tombstone,
}

/// The contents of a `Value`.
pub enum ValueView {
    Put(Seq<u8>),
    Tombstone,
}

impl View for Value {
    type V = ValueView;

    open spec fn view(&self) -> ValueView {
        match self {
            Value::Put(bytes) => ValueView::Put(bytes@),
            Value::Tombstone => ValueView::Tombstone,
        }
    }
}

/// The size a value adds to a memtable: its kind tag and its bytes.
pub open spec fn value_size(v: ValueView) -> nat {
    match v {
        ValueView::Put(bytes) => (VALUE_KIND_SIZE + bytes.len()) as nat,
        ValueView::Tombstone => VALUE_KIND_SIZE as nat,
    }
}

impl Value {
    /// A value holding `bytes`.
    pub fn put(bytes: Vec<u8>) -> (v: Value)
        ensures
            v@ == ValueView::Put(bytes@),
    {
        Value::Put(bytes)
    }

    /// The tombstone; the default value.
    pub fn default_value() -> (v: Value)
        ensures
            v@ == ValueView::Tombstone,
    {
        Value::Tombstone
    }

    /// The value's bytes, or `None` for a tombstone.
    pub fn as_bytes(&self) -> (r: Option<&[u8]>)
        ensures
            match self@ {
                ValueView::Put(bytes) => r matches Some(s) && s@ == bytes,
                ValueView::Tombstone => r is None,
            },
    {
        match self {
            Value::Put(bytes) => Some(bytes.as_slice()),
            Value::Tombstone => None,
        }
    }

    /// The size the value adds to a memtable.
    pub fn approximate_size(&self) -> (r: usize)
        requires
            value_size(self@) <= usize::MAX,
        ensures
            r == value_size(self@),
    {
        match self {
            Value::Put(val) => VALUE_KIND_SIZE + val.len(),
            Value::Tombstone => VALUE_KIND_SIZE,
        }
    }

    /// An equal, separately owned value.
    pub fn duplicate(&self) -> (r: Value)
        ensures
            r@ == self@,
    {
        match self {
            Value::Put(bytes) => Value::Put(copy_bytes(bytes.as_slice())),
            Value::Tombstone => Value::Tombstone,
        }
    }
}

/// The contents of a memtable: its entries in key order.
pub type EntriesView = Seq<(Seq<u8>, ValueView)>;

/// Keys strictly increase along the entries.
pub open spec fn sorted_keys(s: EntriesView) -> bool {
    forall|i: int, j: int| 0 <= i < j < s.len() ==> bytes_lt(#[trigger] s[i].0, #[trigger] s[j].0)
}

/// Number of entries whose key comes before `k`: the position at which
/// `k` belongs.
pub open spec fn lower_bound(s: EntriesView, k: Seq<u8>) -> nat
    decreases s.len(),
{
    if s.len() == 0 {
        0
    } else {
        (if bytes_lt(s[0].0, k) {
            1nat
        } else {
            0nat
        }) + lower_bound(s.drop_first(), k)
    }
}

/// What the entries hold for `k`.
pub open spec fn lookup(s: EntriesView, k: Seq<u8>) -> Option<ValueView> {
    let p = lower_bound(s, k);
    if p < s.len() && s[p as int].0 == k {
        Some(s[p as int].1)
    } else {
        None
    }
}

/// The entries after `k` is bound to `v`: the entry of `k` replaced, or a
/// new entry inserted at its position.
pub open spec fn insert_entry(s: EntriesView, k: Seq<u8>, v: ValueView) -> EntriesView {
    let p = lower_bound(s, k);
    if p < s.len() && s[p as int].0 == k {
        s.update(p as int, (k, v))
    } else {
        s.insert(p as int, (k, v))
    }
}

/// Sum of the sizes of the entries: key bytes plus value sizes.
pub open spec fn total_size(s: EntriesView) -> nat
    decreases s.len(),
{
    if s.len() == 0 {
        0
    } else {
        total_size(s.drop_last()) + s.last().0.len() + value_size(s.last().1)
    }
}

/// In sorted entries, the position of `k` is the first entry whose key does
/// not come before `k`.
pub proof fn lemma_lower_bound(s: EntriesView, k: Seq<u8>, p: int)
    requires
        0 <= p <= s.len(),
        forall|i: int| 0 <= i < p ==> bytes_lt(#[trigger] s[i].0, k),
        forall|i: int| p <= i < s.len() ==> !bytes_lt(#[trigger] s[i].0, k),
    ensures
        lower_bound(s, k) == p,
    decreases s.len(),
{
    if s.len() > 0 {
        let t = s.drop_first();
        if p > 0 {
            assert forall|i: int| 0 <= i < p - 1 implies bytes_lt(#[trigger] t[i].0, k) by {
                assert(t[i] == s[i + 1]);
            }
            assert forall|i: int| p - 1 <= i < t.len() implies !bytes_lt(#[trigger] t[i].0, k) by {
                assert(t[i] == s[i + 1]);
            }
            lemma_lower_bound(t, k, p - 1);
        } else {
            assert forall|i: int| 0 <= i < t.len() implies !bytes_lt(#[trigger] t[i].0, k) by {
                assert(t[i] == s[i + 1]);
            }
            lemma_lower_bound(t, k, 0);
            assert(!bytes_lt(s[0].0, k));
        }
    }
}

/// Inserting an entry adds its size; replacing one swaps the old size for
/// the new.
pub proof fn lemma_total_size_insert(s: EntriesView, p: int, e: (Seq<u8>, ValueView))
    requires
        0 <= p <= s.len(),
    ensures
        total_size(s.insert(p, e)) == total_size(s) + e.0.len() + value_size(e.1),
    decreases s.len(),
{
    if p == s.len() {
        assert(s.insert(p, e).drop_last() =~= s);
    } else {
        let t = s.insert(p, e);
        assert(t.drop_last() =~= s.drop_last().insert(p, e));
        lemma_total_size_insert(s.drop_last(), p, e);
    }
}

/// Replacing an entry swaps its size for the size of the new entry.
pub proof fn lemma_total_size_update(s: EntriesView, p: int, e: (Seq<u8>, ValueView))
    requires
        0 <= p < s.len(),
    ensures
        total_size(s.update(p, e)) + s[p].0.len() + value_size(s[p].1) == total_size(s) + e.0.len()
            + value_size(e.1),
    decreases s.len(),
{
    if p == s.len() - 1 {
        assert(s.update(p, e).drop_last() =~= s.drop_last());
    } else {
        assert(s.update(p, e).drop_last() =~= s.drop_last().update(p, e));
        lemma_total_size_update(s.drop_last(), p, e);
    }
}

/// Every entry counts at least one toward the total size.
pub proof fn lemma_total_size_len(s: EntriesView)
    ensures
        total_size(s) >= s.len(),
    decreases s.len(),
{
    if s.len() > 0 {
        lemma_total_size_len(s.drop_last());
    }
}

/// In sorted entries, `lower_bound` splits the keys before `k` from the
/// others.
pub proof fn lemma_lower_bound_props(s: EntriesView, k: Seq<u8>)
    requires
        sorted_keys(s),
    ensures
        lower_bound(s, k) <= s.len(),
        forall|i: int| 0 <= i < lower_bound(s, k) ==> bytes_lt(#[trigger] s[i].0, k),
        forall|i: int| lower_bound(s, k) <= i < s.len() ==> !bytes_lt(#[trigger] s[i].0, k),
    decreases s.len(),
{
    lemma_bytes_lt_order();
    if s.len() > 0 {
        let t = s.drop_first();
        assert(sorted_keys(t)) by {
            assert forall|i: int, j: int| 0 <= i < j < t.len() implies bytes_lt(
                #[trigger] t[i].0,
                #[trigger] t[j].0,
            ) by {
                assert(t[i] == s[i + 1] && t[j] == s[j + 1]);
            }
        }
        lemma_lower_bound_props(t, k);
        let p = lower_bound(t, k);
        if bytes_lt(s[0].0, k) {
            assert forall|i: int| 0 <= i < lower_bound(s, k) implies bytes_lt(#[trigger] s[i].0, k) by {
                if i > 0 {
                    assert(s[i] == t[i - 1]);
                }
            }
            assert forall|i: int| lower_bound(s, k) <= i < s.len() implies !bytes_lt(
                #[trigger] s[i].0,
                k,
            ) by {
                assert(s[i] == t[i - 1]);
            }
        } else {
            if p > 0 {
                assert(bytes_lt(t[0].0, k));
                assert(bytes_lt(s[0].0, s[1].0));
                assert(t[0] == s[1]);
            }
            assert forall|i: int| 0 <= i < s.len() implies !bytes_lt(#[trigger] s[i].0, k) by {
                if i > 0 {
                    assert(bytes_lt(s[0].0, s[i].0));
                }
            }
        }
    }
}

/// In sorted entries, `lookup` finds the entry of `k` wherever it is, and
/// finds nothing when no entry has that key.
pub proof fn lemma_lookup_sorted(s: EntriesView, k: Seq<u8>)
    requires
        sorted_keys(s),
    ensures
        forall|i: int| 0 <= i < s.len() && (#[trigger] s[i]).0 == k ==> lookup(s, k) == Some(s[i].1),
        (forall|i: int| 0 <= i < s.len() ==> (#[trigger] s[i]).0 != k) ==> lookup(s, k) is None,
{
    lemma_bytes_lt_order();
    lemma_lower_bound_props(s, k);
    let p = lower_bound(s, k) as int;
    assert forall|i: int| 0 <= i < s.len() && (#[trigger] s[i]).0 == k implies lookup(s, k) == Some(
        s[i].1,
    ) by {
        if i < p {
            assert(bytes_lt(s[i].0, k));
        }
        if i > p {
            assert(bytes_lt(s[p].0, s[i].0));
        }
    }
}

/// Binding a key in sorted entries keeps them sorted, makes the key read
/// back its new value, and leaves every other key as it was.
pub proof fn lemma_insert_entry(s: EntriesView, k: Seq<u8>, v: ValueView)
    requires
        sorted_keys(s),
    ensures
        sorted_keys(insert_entry(s, k, v)),
        lookup(insert_entry(s, k, v), k) == Some(v),
        forall|k2: Seq<u8>| k2 != k ==> #[trigger] lookup(insert_entry(s, k, v), k2) == lookup(s, k2),
{
    lemma_bytes_lt_order();
    lemma_lower_bound_props(s, k);
    let p = lower_bound(s, k) as int;
    let t = insert_entry(s, k, v);
    if p < s.len() && s[p].0 == k {
        assert(sorted_keys(t)) by {
            assert forall|i: int, j: int| 0 <= i < j < t.len() implies bytes_lt(
                #[trigger] t[i].0,
                #[trigger] t[j].0,
            ) by {
                assert(t[i].0 == s[i].0 && t[j].0 == s[j].0);
            }
        }
        lemma_lookup_sorted(t, k);
        assert(t[p].0 == k);
        assert forall|k2: Seq<u8>| k2 != k implies #[trigger] lookup(t, k2) == lookup(s, k2) by {
            lemma_lookup_sorted(t, k2);
            lemma_lookup_sorted(s, k2);
            if exists|i: int| 0 <= i < s.len() && (#[trigger] s[i]).0 == k2 {
                let i = choose|i: int| 0 <= i < s.len() && (#[trigger] s[i]).0 == k2;
                assert(t[i] == s[i]);
            } else {
                assert forall|i: int| 0 <= i < t.len() implies (#[trigger] t[i]).0 != k2 by {
                    if i != p {
                        assert(t[i] == s[i]);
                    }
                }
            }
        }
    } else {
        assert forall|i: int| p <= i < s.len() implies bytes_lt(k, #[trigger] s[i].0) by {
            if i > p {
                assert(bytes_lt(s[p].0, s[i].0));
                assert(s[p].0 != k);
            }
        }
        assert(sorted_keys(t)) by {
            assert forall|i: int, j: int| 0 <= i < j < t.len() implies bytes_lt(
                #[trigger] t[i].0,
                #[trigger] t[j].0,
            ) by {
                if j < p {
                    assert(t[i] == s[i] && t[j] == s[j]);
                } else if j == p {
                    assert(t[i] == s[i]);
                } else if i < p {
                    assert(t[i] == s[i] && t[j] == s[j - 1]);
                    assert(bytes_lt(k, s[j - 1].0));
                } else if i == p {
                    assert(t[j] == s[j - 1]);
                } else {
                    assert(t[i] == s[i - 1] && t[j] == s[j - 1]);
                }
            }
        }
        lemma_lookup_sorted(t, k);
        assert(t[p].0 == k);
        assert forall|k2: Seq<u8>| k2 != k implies #[trigger] lookup(t, k2) == lookup(s, k2) by {
            lemma_lookup_sorted(t, k2);
            lemma_lookup_sorted(s, k2);
            if exists|i: int| 0 <= i < s.len() && (#[trigger] s[i]).0 == k2 {
                let i = choose|i: int| 0 <= i < s.len() && (#[trigger] s[i]).0 == k2;
                if i < p {
                    assert(t[i] == s[i]);
                } else {
                    assert(t[i + 1] == s[i]);
                }
            } else {
                assert forall|i: int| 0 <= i < t.len() implies (#[trigger] t[i]).0 != k2 by {
                    if i < p {
                        assert(t[i] == s[i]);
                    } else if i > p {
                        assert(t[i] == s[i - 1]);
                    }
                }
            }
        }
    }
}

/// A memtable reads back what was last written to a key: after binding `k`
/// to `v`, `k` reads `v` and every other key reads what it read before.
pub proof fn lemma_put_then_get(s: EntriesView, k: Seq<u8>, v: ValueView, other: Seq<u8>)
    requires
        sorted_keys(s),
    ensures
        lookup(insert_entry(s, k, v), k) == Some(v),
        other != k ==> lookup(insert_entry(s, k, v), other) == lookup(s, other),
{
    lemma_insert_entry(s, k, v);
}

/// A memtable: an ordered map from keys to values and tombstones that
/// tracks its approximate size.
pub trait MemTable: Sized {
    /// The memtable's invariant.
    spec fn inv(&self) -> bool;

    /// The memtable's entries in key order.
    spec fn entries(&self) -> EntriesView;

    /// Binds `key` to `value`.
    fn put(&mut self, key: Key, value: Value)
        requires
            old(self).inv(),
            total_size(old(self).entries()) + key@.len() + value_size(value@) <= usize::MAX,
        ensures
            final(self).inv(),
            final(self).entries() == insert_entry(old(self).entries(), key@, value@),
    ;

    /// What the memtable holds for `key`.
    fn get(&self, key: &Key) -> (r: Option<&Value>)
        requires
            self.inv(),
        ensures
            match lookup(self.entries(), key@) {
                Some(v) => r matches Some(x) && x@ == v,
                None => r is None,
            },
    ;

    /// Binds `key` to a tombstone.
    fn delete(&mut self, key: Key)
        requires
            old(self).inv(),
            total_size(old(self).entries()) + key@.len() + VALUE_KIND_SIZE <= usize::MAX,
        ensures
            final(self).inv(),
            final(self).entries() == insert_entry(old(self).entries(), key@, ValueView::Tombstone),
    ;

    /// The entries in key order.
    fn iter(&self) -> (r: Vec<(Key, Value)>)
        requires
            self.inv(),
        ensures
            r@.len() == self.entries().len(),
            forall|i: int|
                0 <= i < r@.len() ==> (#[trigger] r@[i]).0@ == self.entries()[i].0 && r@[i].1@
                    == self.entries()[i].1,
    ;

    /// The sum of the sizes of the entries.
    fn approximate_size(&self) -> (r: usize)
        requires
            self.inv(),
        ensures
            r == total_size(self.entries()),
    ;

    /// Whether the memtable has no entry.
    fn is_empty(&self) -> (r: bool)
        requires
            self.inv(),
        ensures
            r == (self.entries().len() == 0),
    ;
}

} // verus!
