pub mod record;

use std::collections::BTreeMap;

use vstd::std_specs::cmp::OrdSpec;
use vstd::std_specs::iter::IteratorSpec;

use vstd::prelude::*;

use crate::error::{EngineError, Result};
use crate::index::bytes_lt;
use crate::storage::manifest::record::{parse_manifest_log, replay_records, ManifestRecord, ManifestRecordView};
use crate::storage::manifest::record::{lemma_manifest_log_round_trip, lemma_parsed_log_wf, manifest_log};
use crate::storage::sstable::manager::{sstable_file_name, sstable_path_in};
use crate::storage::sstable::meta::{SSTableMeta, SSTableMetaView};
use crate::text::{ascii_chars, decimal_padded, digits_to_string, lemma_decimal, parse_decimal, parse_u64, u64_to_decimal_padded};

verus! {

/// The live SSTables after applying `records` in order: an addition binds
/// the file id to its metadata, a removal drops the file id.
pub open spec fn apply_records_spec(records: Seq<ManifestRecordView>) -> Map<u64, SSTableMetaView>
    decreases records.len(),
{
    if records.len() == 0 {
        Map::empty()
    } else {
        let m = apply_records_spec(records.drop_last());
        match records.last() {
            ManifestRecordView::AddSSTable(meta) => m.insert(meta.file_id, meta),
            ManifestRecordView::RemoveSSTable { file_id } => m.remove(file_id),
        }
    }
}

/// `v` lists the entries of `m` by increasing file id.
pub open spec fn lists_by_id(v: Seq<SSTableMetaView>, m: Map<u64, SSTableMetaView>) -> bool {
    &&& forall|i: int, j: int| 0 <= i < j < v.len() ==> (#[trigger] v[i]).file_id < (#[trigger] v[j]).file_id
    &&& forall|i: int| 0 <= i < v.len() ==> #[trigger] m.contains_key(v[i].file_id) && m[v[i].file_id] == v[i]
    &&& forall|id: u64| #[trigger] m.contains_key(id) ==> exists|i: int| 0 <= i < v.len() && (#[trigger] v[i]).file_id == id
}

/// A listing by increasing file id has one entry per live SSTable.
pub proof fn lemma_lists_by_id_len(v: Seq<SSTableMetaView>, m: Map<u64, SSTableMetaView>)
    requires
        lists_by_id(v, m),
    ensures
        v.len() == m.dom().len(),
{
    let ids = Seq::new(v.len(), |i: int| v[i].file_id);
    assert forall|i: int, j: int| 0 <= i < ids.len() && 0 <= j < ids.len() && i != j implies ids[i] != ids[j] by {
        if i < j {
            assert(v[i].file_id < v[j].file_id);
        } else {
            assert(v[j].file_id < v[i].file_id);
        }
    }
    assert(ids.no_duplicates());
    ids.unique_seq_to_set();
    assert forall|id: u64| m.dom().contains(id) implies ids.to_set().contains(id) by {
        let i = choose|i: int| 0 <= i < v.len() && (#[trigger] v[i]).file_id == id;
        assert(ids[i] == id);
    }
    assert forall|id: u64| ids.to_set().contains(id) implies m.dom().contains(id) by {
        let i = choose|i: int| 0 <= i < ids.len() && ids[i] == id;
        assert(m.contains_key(v[i].file_id));
    }
    assert(ids.to_set() =~= m.dom());
}

/// In a listing by increasing file id, the largest possible id is listed,
/// and then last, exactly when it is live.
pub proof fn lemma_lists_by_id_max(v: Seq<SSTableMetaView>, m: Map<u64, SSTableMetaView>)
    requires
        lists_by_id(v, m),
    ensures
        m.contains_key(u64::MAX) <==> (v.len() > 0 && v.last().file_id == u64::MAX),
{
    if m.contains_key(u64::MAX) {
        let i = choose|i: int| 0 <= i < v.len() && (#[trigger] v[i]).file_id == u64::MAX;
        if i < v.len() - 1 {
            assert(v[i].file_id < v[v.len() - 1].file_id);
        }
    }
    if v.len() > 0 {
        assert(m.contains_key(v[v.len() - 1].file_id));
    }
}

/// The records of manifest files read in order, or the first fault.
pub open spec fn replay_files(files: Seq<Seq<u8>>) -> Result<Seq<ManifestRecordView>>
    decreases files.len(),
{
    if files.len() == 0 {
        Ok(Seq::empty())
    } else {
        match replay_files(files.drop_last()) {
            Err(e) => Err(e),
            Ok(rs) => match parse_manifest_log(files.last(), 0) {
                Err(e) => Err(e),
                Ok(more) => Ok(rs + more),
            },
        }
    }
}

/// The file name of manifest `id`: its id in twenty digits, `.manifest`.
pub open spec fn manifest_file_name(id: u64) -> Seq<char> {
    ascii_chars(decimal_padded(id as nat, 20)) + ".manifest"@
}

/// Where the last `.` of a file name is, when it splits a stem from an
/// extension: a name that starts with its only dot has no extension.
pub open spec fn extension_dot(name: Seq<u8>) -> Option<int>
    decreases name.len(),
{
    if name.len() == 0 {
        None
    } else if name.last() == 46u8 {
        if name.len() == 1 {
            None
        } else {
            Some(name.len() - 1)
        }
    } else {
        extension_dot(name.drop_last())
    }
}

/// A dot that splits a name lies after its first byte and within it.
proof fn lemma_extension_dot(name: Seq<u8>)
    ensures
        extension_dot(name) matches Some(p) ==> 0 < p < name.len(),
    decreases name.len(),
{
    if name.len() > 0 && name.last() != 46u8 {
        lemma_extension_dot(name.drop_last());
    }
}

/// The name without its extension.
pub open spec fn file_stem(name: Seq<u8>) -> Seq<u8> {
    match extension_dot(name) {
        Some(p) => name.take(p),
        None => name,
    }
}

/// The name's extension, if it has one.
pub open spec fn file_extension(name: Seq<u8>) -> Option<Seq<u8>> {
    match extension_dot(name) {
        Some(p) => Some(name.skip(p + 1)),
        None => None,
    }
}

/// The bytes of the extension manifest files carry.
pub open spec fn manifest_extension() -> Seq<u8> {
    seq![109u8, 97u8, 110u8, 105u8, 102u8, 101u8, 115u8, 116u8]
}

/// The id a manifest file name carries: its stem read as a decimal number.
pub open spec fn manifest_id_spec(name: Seq<u8>) -> Option<u64> {
    parse_decimal(file_stem(name))
}

/// The largest id among the names that carry one.
pub open spec fn max_manifest_id(names: Seq<Seq<u8>>) -> Option<u64>
    decreases names.len(),
{
    if names.len() == 0 {
        None
    } else {
        let rest = max_manifest_id(names.drop_last());
        match manifest_id_spec(names.last()) {
            None => rest,
            Some(id) => match rest {
                Some(m) => if m >= id {
                    Some(m)
                } else {
                    Some(id)
                },
                None => Some(id),
            },
        }
    }
}

/// The largest file id among the metadata.
pub open spec fn max_file_id(metas: Seq<SSTableMetaView>) -> Option<u64>
    decreases metas.len(),
{
    if metas.len() == 0 {
        None
    } else {
        let id = metas.last().file_id;
        match max_file_id(metas.drop_last()) {
            Some(m) => if m >= id {
                Some(m)
            } else {
                Some(id)
            },
            None => Some(id),
        }
    }
}

/// The id after the largest, or 0 when there is none.
pub open spec fn next_after(m: Option<u64>) -> int {
    match m {
        Some(id) => id + 1,
        None => 0,
    }
}

/// Where the last dot of `name` is, when it splits a stem from an
/// extension.
fn find_extension_dot(name: &[u8]) -> (r: Option<usize>)
    ensures
        match extension_dot(name@) {
            Some(p) => r == Some(p as usize),
            None => r is None,
        },
        r matches Some(p) ==> 0 < p < name@.len(),
{
    proof {
        lemma_extension_dot(name@);
    }
    let mut i = name.len();
    assert(name@.take(i as int) =~= name@);
    while i > 0
        invariant
            i <= name@.len(),
            extension_dot(name@) == extension_dot(name@.take(i as int)),
        decreases i,
    {
        proof {
            assert(name@.take(i as int).last() == name@[i - 1]);
            assert(name@.take(i as int).drop_last() =~= name@.take(i - 1));
        }
        if name[i - 1] == 46u8 {
            if i == 1 {
                return None;
            }
            return Some(i - 1);
        }
        i = i - 1;
    }
    None
}

/// The id a manifest file name carries.
pub fn manifest_id(name: &[u8]) -> (r: Option<u64>)
    ensures
        r == manifest_id_spec(name@),
{
    let n = name.len();
    proof {
        lemma_extension_dot(name@);
    }
    match find_extension_dot(name) {
        Some(p) => {
            let stem = vstd::slice::slice_subrange(name, 0, p);
            assert(stem@ =~= name@.take(p as int));
            parse_u64(stem)
        },
        None => parse_u64(name),
    }
}

/// Whether a file name carries the manifest extension.
pub fn is_manifest_name(name: &[u8]) -> (r: bool)
    ensures
        r == (file_extension(name@) == Some(manifest_extension())),
{
    let n = name.len();
    proof {
        lemma_extension_dot(name@);
    }
    match find_extension_dot(name) {
        Some(p) => {
            assert(p < name@.len());
            let ext = vstd::slice::slice_subrange(name, p + 1, n);
            let want: [u8; 8] = [109u8, 97u8, 110u8, 105u8, 102u8, 101u8, 115u8, 116u8];
            assert(want@ =~= manifest_extension());
            let same = crate::index::compare_bytes(ext, &want) == crate::index::ByteOrder::Equal;
            assert(ext@ =~= name@.skip(p + 1));
            same
        },
        None => false,
    }
}

/// The manifest files among `names`, in name order.
pub fn manifest_names(names: &[Vec<u8>]) -> (r: Vec<Vec<u8>>)
    ensures
        forall|i: int| 0 <= i < r@.len() ==> file_extension(#[trigger] r@[i]@) == Some(manifest_extension()),
        forall|i: int, j: int| 0 <= i < j < r@.len() ==> !bytes_lt(#[trigger] r@[j]@, #[trigger] r@[i]@),
        forall|i: int|
            0 <= i < names@.len() && file_extension(#[trigger] names@[i]@) == Some(manifest_extension()) ==> exists|j: int|
                0 <= j < r@.len() && r@[j]@ == names@[i]@,
{
    let mut out: Vec<Vec<u8>> = Vec::new();
    let mut k: usize = 0;
    proof {
        crate::index::lemma_bytes_lt_order();
    }
    while k < names.len()
        invariant
            k <= names@.len(),
            forall|i: int| 0 <= i < out@.len() ==> file_extension(#[trigger] out@[i]@) == Some(manifest_extension()),
            forall|i: int, j: int| 0 <= i < j < out@.len() ==> !bytes_lt(#[trigger] out@[j]@, #[trigger] out@[i]@),
            forall|i: int|
                0 <= i < k && file_extension(#[trigger] names@[i]@) == Some(manifest_extension()) ==> exists|j: int|
                    0 <= j < out@.len() && out@[j]@ == names@[i]@,
        decreases names@.len() - k,
    {
        let name = &names[k];
        if is_manifest_name(name.as_slice()) {
            let mut p: usize = 0;
            while p < out.len() && crate::index::compare_bytes(out[p].as_slice(), name.as_slice()) != crate::index::ByteOrder::Greater
                invariant
                    p <= out@.len(),
                    forall|i: int, j: int| 0 <= i < j < out@.len() ==> !bytes_lt(#[trigger] out@[j]@, #[trigger] out@[i]@),
                    forall|i: int| 0 <= i < p ==> !bytes_lt(name@, #[trigger] out@[i]@),
                decreases out@.len() - p,
            {
                proof {
                    crate::index::lemma_bytes_lt_total(out@[p as int]@, name@);
                }
                p = p + 1;
            }
            proof {
                if p < out@.len() {
                    crate::index::lemma_bytes_lt_total(out@[p as int]@, name@);
                }
            }
            let ghost before = out@;
            out.insert(p, crate::format::copy_bytes(name.as_slice()));
            proof {
                assert forall|i: int, j: int| 0 <= i < j < out@.len() implies !bytes_lt(#[trigger] out@[j]@, #[trigger] out@[i]@) by {
                    if j < p {
                        assert(out@[i] == before[i] && out@[j] == before[j]);
                    } else if j == p {
                        assert(out@[i] == before[i]);
                    } else if i < p {
                        assert(out@[i] == before[i] && out@[j] == before[j - 1]);
                    } else if i == p {
                        assert(out@[j] == before[j - 1]);
                        assert(bytes_lt(name@, before[p as int]@));
                        if j - 1 > p {
                            assert(!bytes_lt(before[j - 1]@, before[p as int]@));
                            crate::index::lemma_bytes_lt_total(before[j - 1]@, before[p as int]@);
                            if before[j - 1]@ != before[p as int]@ {
                                crate::index::lemma_bytes_lt_transitive(name@, before[p as int]@, before[j - 1]@);
                            }
                        }
                        crate::index::lemma_bytes_lt_total(name@, before[j - 1]@);
                    } else {
                        assert(out@[i] == before[i - 1] && out@[j] == before[j - 1]);
                    }
                }
                assert forall|i: int| 0 <= i < out@.len() implies file_extension(#[trigger] out@[i]@) == Some(manifest_extension()) by {
                    if i < p {
                        assert(out@[i] == before[i]);
                    } else if i > p {
                        assert(out@[i] == before[i - 1]);
                    }
                }
                assert forall|i: int|
                    0 <= i < k + 1 && file_extension(#[trigger] names@[i]@) == Some(manifest_extension()) implies exists|j: int|
                        0 <= j < out@.len() && out@[j]@ == names@[i]@ by {
                    if i < k {
                        let j = choose|j: int| 0 <= j < before.len() && before[j]@ == names@[i]@;
                        if j < p {
                            assert(out@[j] == before[j]);
                        } else {
                            assert(out@[j + 1] == before[j]);
                        }
                    } else {
                        assert(out@[p as int]@ == names@[i]@);
                    }
                }
            }
        }
        k = k + 1;
    }
    out
}

/// The largest id among the manifest file names that carry one.
pub fn max_manifest_id_of(names: &[Vec<u8>]) -> (r: Option<u64>)
    ensures
        r == max_manifest_id(Seq::new(names@.len(), |i: int| names@[i]@)),
{
    let ghost all = Seq::new(names@.len(), |i: int| names@[i]@);
    let mut best: Option<u64> = None;
    let mut k: usize = 0;
    while k < names.len()
        invariant
            k <= names@.len(),
            all == Seq::new(names@.len(), |i: int| names@[i]@),
            best == max_manifest_id(all.take(k as int)),
        decreases names@.len() - k,
    {
        let id = manifest_id(names[k].as_slice());
        proof {
            assert(all.take(k + 1).drop_last() =~= all.take(k as int));
            assert(all.take(k + 1).last() == names@[k as int]@);
        }
        best = match id {
            None => best,
            Some(id) => match best {
                Some(m) => if m >= id {
                    Some(m)
                } else {
                    Some(id)
                },
                None => Some(id),
            },
        };
        k = k + 1;
    }
    proof {
        assert(all.take(k as int) =~= all);
    }
    best
}

/// The id the next manifest gets: one past the largest id among the
/// manifest file names, or 0.
pub fn next_manifest_id(names: &[Vec<u8>]) -> (r: u64)
    requires
        next_after(max_manifest_id(Seq::new(names@.len(), |i: int| names@[i]@))) <= u64::MAX,
    ensures
        r == next_after(max_manifest_id(Seq::new(names@.len(), |i: int| names@[i]@))),
{
    match max_manifest_id_of(names) {
        Some(id) => id + 1,
        None => 0,
    }
}

/// The file ids, as keys of an ordered map, obey the laws of a total order.
spec fn ids_ordered() -> bool {
    vstd::laws_cmp::obeys_cmp::<u64>()
}

proof fn lemma_ids_ordered()
    ensures
        ids_ordered(),
        vstd::std_specs::btree::key_obeys_cmp_spec::<u64>(),
{
    broadcast use vstd::laws_cmp::group_laws_cmp;
    broadcast use vstd::std_specs::btree::group_btree_axioms;
}

/// The keys of an ordered map of file ids come in increasing order, once
/// each, and are the map's keys.
proof fn lemma_ids_listed<V>(m: &BTreeMap<u64, V>)
    ensures
        ({
            let ks = vstd::std_specs::btree::spec_keys_iter(m).remaining();
            &&& forall|i: int, j: int| 0 <= i < j < ks.len() ==> *ks[i] < *ks[j]
            &&& forall|id: u64| #[trigger] m@.contains_key(id) ==> exists|i: int| 0 <= i < ks.len() && *ks[i] == id
            &&& forall|i: int| 0 <= i < ks.len() ==> m@.contains_key(*ks[i])
        }),
{
    broadcast use vstd::laws_cmp::group_laws_cmp;
    broadcast use vstd::std_specs::btree::group_btree_axioms;
    let ks = vstd::std_specs::btree::spec_keys_iter(m).remaining();
    assert(ks.unref().to_set() == m@.dom());
    assert(vstd::laws_cmp::obeys_cmp::<u64>());
    assert(vstd::laws_cmp::obeys_cmp::<&u64>());
    vstd::std_specs::btree::axiom_increasing_seq_meaning::<&u64>(ks);
    assert(vstd::std_specs::btree::increasing_seq(ks));
    assert forall|i: int, j: int| 0 <= i < j < ks.len() implies *ks[i] < *ks[j] by {
        assert((&ks[i]).cmp_spec(&ks[j]) is Less);
    }
    assert forall|id: u64| #[trigger] m@.contains_key(id) implies exists|i: int| 0 <= i < ks.len() && *ks[i] == id by {
        assert(ks.unref().to_set().contains(id));
        let i = choose|i: int| 0 <= i < ks.unref().len() && ks.unref()[i] == id;
        assert(*ks[i] == id);
    }
    assert forall|i: int| 0 <= i < ks.len() implies m@.contains_key(*ks[i]) by {
        assert(ks.unref()[i] == *ks[i]);
        assert(ks.unref().to_set().contains(*ks[i]));
    }
}

/// `m` maps each live file id to metadata whose view is the live entry,
/// which carries that file id.
spec fn holds_live(m: Map<u64, SSTableMeta>, live: Map<u64, SSTableMetaView>) -> bool {
    &&& m.dom() == live.dom()
    &&& forall|id: u64| #[trigger] m.contains_key(id) ==> m[id]@ == live[id] && live[id].file_id == id
}

/// The live SSTables after applying `records` in order, by increasing file
/// id.
pub fn apply_records(records: Vec<ManifestRecord>) -> (r: Vec<SSTableMeta>)
    ensures
        lists_by_id(metas_view(r@), apply_records_spec(Seq::new(records@.len(), |i: int| records@[i]@))),
{
    proof {
        lemma_ids_ordered();
    }
    let ghost all = Seq::new(records@.len(), |i: int| records@[i]@);
    let mut rest = records;
    let mut reversed: Vec<ManifestRecord> = Vec::new();
    while rest.len() > 0
        invariant
            all.len() == rest@.len() + reversed@.len(),
            forall|i: int| 0 <= i < rest@.len() ==> (#[trigger] rest@[i])@ == all[i],
            forall|i: int| 0 <= i < reversed@.len() ==> (#[trigger] reversed@[i])@ == all[all.len() - 1 - i],
        decreases rest@.len(),
    {
        let r = rest.pop().unwrap();
        reversed.push(r);
    }
    let n = reversed.len();
    let mut sstables: BTreeMap<u64, SSTableMeta> = BTreeMap::new();
    let mut k: usize = 0;
    proof {
        assert(apply_records_spec(all.take(0)) =~= Map::<u64, SSTableMetaView>::empty()) by {
            assert(all.take(0) =~= Seq::<ManifestRecordView>::empty());
        }
        assert(sstables@.dom() =~= Map::<u64, SSTableMetaView>::empty().dom());
    }
    while k < n
        invariant
            ids_ordered(),
            n == all.len(),
            n == reversed@.len() + k,
            forall|i: int| 0 <= i < reversed@.len() ==> (#[trigger] reversed@[i])@ == all[all.len() - 1 - i],
            holds_live(sstables@, apply_records_spec(all.take(k as int))),
        decreases n - k,
    {
        let record = reversed.pop().unwrap();
        let ghost live = apply_records_spec(all.take(k as int));
        proof {
            assert(all.take(k + 1).drop_last() =~= all.take(k as int));
            assert(all.take(k + 1).last() == all[k as int]);
            assert(record@ == all[k as int]);
        }
        match record {
            ManifestRecord::AddSSTable(meta) => {
                let ghost mv = meta@;
                let id = meta.file_id();
                sstables.insert(id, meta);
                proof {
                    assert(sstables@.dom() =~= live.insert(id, mv).dom());
                }
            },
            ManifestRecord::RemoveSSTable { file_id } => {
                sstables.remove(&file_id);
                proof {
                    broadcast use vstd::std_specs::btree::group_btree_axioms;
                    assert(sstables@.dom() =~= live.remove(file_id).dom());
                }
            },
        }
        k = k + 1;
    }
    proof {
        assert(all.take(n as int) =~= all);
    }
    let ghost live = apply_records_spec(all);
    let ghost before = sstables@;
    let mut ids: Vec<u64> = Vec::new();
    for id in it: sstables.keys()
        invariant
            ids@.len() == it.index(),
            forall|i: int| 0 <= i < it.index() ==> ids@[i] == *it.seq()[i],
    {
        ids.push(*id);
    }
    let ghost ks = vstd::std_specs::btree::spec_keys_iter(&sstables).remaining();
    proof {
        lemma_ids_listed(&sstables);
        assert(ids@.len() == ks.len());
    }
    let mut out: Vec<SSTableMeta> = Vec::new();
    let mut j: usize = 0;
    while j < ids.len()
        invariant
            ids_ordered(),
            ids@.len() == ks.len(),
            forall|i: int| 0 <= i < ks.len() ==> ids@[i] == *ks[i],
            forall|a: int, b: int| 0 <= a < b < ks.len() ==> *ks[a] < *ks[b],
            forall|i: int| 0 <= i < ks.len() ==> before.contains_key(*ks[i]),
            holds_live(before, live),
            j <= ids@.len(),
            out@.len() == j,
            forall|i: int| 0 <= i < j ==> (#[trigger] out@[i])@ == live[ids@[i]],
            forall|i: int| j <= i < ids@.len() ==> sstables@.contains_key(#[trigger] ids@[i]) && sstables@[ids@[i]] == before[ids@[i]],
        decreases ids@.len() - j,
    {
        let id = ids[j];
        let ghost m0 = sstables@;
        proof {
            assert(ids@[j as int] == *ks[j as int]);
            assert(before.contains_key(id));
        }
        let removed = sstables.remove(&id);
        proof {
            broadcast use vstd::std_specs::btree::group_btree_axioms;
            assert(sstables@ == m0.remove(id));
            assert forall|i: int| j + 1 <= i < ids@.len() implies sstables@.contains_key(#[trigger] ids@[i]) && sstables@[ids@[i]] == before[ids@[i]] by {
                assert(ids@[j as int] == *ks[j as int]);
                assert(ids@[i] == *ks[i]);
                assert(*ks[j as int] < *ks[i]);
            }
        }
        match removed {
            Some(meta) => {
                proof {
                    broadcast use vstd::std_specs::btree::group_btree_axioms;
                    assert(meta == before[id]);
                }
                out.push(meta);
            },
            None => {
                proof {
                    broadcast use vstd::std_specs::btree::group_btree_axioms;
                    assert(false);
                }
            },
        }
        j = j + 1;
    }
    proof {
        let v = metas_view(out@);
        assert forall|i: int| 0 <= i < v.len() implies #[trigger] v[i].file_id == ids@[i] && live.contains_key(v[i].file_id) && live[v[i].file_id] == v[i] by {
            assert(before.contains_key(ids@[i]));
        }
        assert forall|i: int, b: int| 0 <= i < b < v.len() implies (#[trigger] v[i]).file_id < (#[trigger] v[b]).file_id by {
            assert(v[i].file_id == ids@[i] && v[b].file_id == ids@[b]);
        }
        assert forall|id: u64| #[trigger] live.contains_key(id) implies exists|i: int| 0 <= i < v.len() && (#[trigger] v[i]).file_id == id by {
            assert(before.contains_key(id));
            let i = choose|i: int| 0 <= i < ks.len() && *ks[i] == id;
            assert(v[i].file_id == ids@[i]);
        }
    }
    out
}

/// The metadata views of a vector of metadata.
pub open spec fn metas_view(v: Seq<SSTableMeta>) -> Seq<SSTableMetaView> {
    Seq::new(v.len(), |i: int| v[i]@)
}

/// The directory, under the data directory, that holds manifest files.
pub open spec fn manifest_dir_of(data_dir: Seq<char>) -> Seq<char> {
    data_dir + "/manifest"@
}

/// Where manifest `id` lives in `manifest_dir`.
pub(crate) fn manifest_path(manifest_dir: &str, id: u64) -> (r: String)
    ensures
        r@ == manifest_dir@ + "/"@ + manifest_file_name(id),
{
    let digits = u64_to_decimal_padded(id, 20);
    proof {
        lemma_decimal(id as nat);
    }
    let name = digits_to_string(digits.as_slice());
    let mut path = String::from_str(manifest_dir);
    path.append("/");
    path.append(name.as_str());
    path.append(".manifest");
    proof {
        assert(path@ =~= manifest_dir@ + "/"@ + manifest_file_name(id));
    }
    path
}

/// The records that add each of `metas`, in order.
pub open spec fn additions(metas: Seq<SSTableMetaView>) -> Seq<ManifestRecordView> {
    Seq::new(metas.len(), |i: int| ManifestRecordView::AddSSTable(metas[i]))
}

/// Adding metadata with distinct file ids, one after the other, binds each
/// file id to its metadata.
proof fn lemma_apply_additions(v: Seq<SSTableMetaView>)
    requires
        forall|i: int, j: int| 0 <= i < j < v.len() ==> (#[trigger] v[i]).file_id < (#[trigger] v[j]).file_id,
    ensures
        forall|i: int| 0 <= i < v.len() ==> #[trigger] apply_records_spec(additions(v)).contains_key(v[i].file_id)
            && apply_records_spec(additions(v))[v[i].file_id] == v[i],
        forall|id: u64| #[trigger] apply_records_spec(additions(v)).contains_key(id) ==> exists|i: int|
            0 <= i < v.len() && (#[trigger] v[i]).file_id == id,
    decreases v.len(),
{
    if v.len() > 0 {
        let w = v.drop_last();
        assert forall|i: int, j: int| 0 <= i < j < w.len() implies (#[trigger] w[i]).file_id < (#[trigger] w[j]).file_id by {
            assert(w[i] == v[i] && w[j] == v[j]);
        }
        lemma_apply_additions(w);
        assert(additions(v).drop_last() =~= additions(w));
        let m = apply_records_spec(additions(w));
        let last = v.last();
        assert(apply_records_spec(additions(v)) == m.insert(last.file_id, last));
        assert forall|i: int| 0 <= i < v.len() implies #[trigger] apply_records_spec(additions(v)).contains_key(v[i].file_id)
            && apply_records_spec(additions(v))[v[i].file_id] == v[i] by {
            if i < w.len() {
                assert(w[i] == v[i]);
                assert(v[i].file_id < last.file_id);
            }
        }
        assert forall|id: u64| #[trigger] apply_records_spec(additions(v)).contains_key(id) implies exists|i: int|
            0 <= i < v.len() && (#[trigger] v[i]).file_id == id by {
            if id != last.file_id {
                let i = choose|i: int| 0 <= i < w.len() && (#[trigger] w[i]).file_id == id;
                assert(v[i] == w[i]);
            } else {
                assert(v[v.len() - 1].file_id == id);
            }
        }
    }
}

/// Compaction keeps the live SSTables: a manifest that adds each live
/// SSTable, in file id order, reads back and applies to the same set.
pub proof fn lemma_compaction_keeps_live_set(v: Seq<SSTableMetaView>, m: Map<u64, SSTableMetaView>)
    requires
        lists_by_id(v, m),
        forall|i: int| 0 <= i < v.len() ==> (#[trigger] additions(v)[i]).wf(),
    ensures
        parse_manifest_log(manifest_log(additions(v)), 0) == Ok::<Seq<ManifestRecordView>, EngineError>(additions(v)),
        apply_records_spec(additions(v)) == m,
{
    lemma_manifest_log_round_trip(additions(v), 0);
    lemma_apply_additions(v);
    let a = apply_records_spec(additions(v));
    assert forall|id: u64| a.contains_key(id) <==> m.contains_key(id) by {
        if a.contains_key(id) {
            let i = choose|i: int| 0 <= i < v.len() && (#[trigger] v[i]).file_id == id;
            assert(m.contains_key(v[i].file_id));
        }
        if m.contains_key(id) {
            let i = choose|i: int| 0 <= i < v.len() && (#[trigger] v[i]).file_id == id;
            assert(a.contains_key(v[i].file_id));
        }
    }
    assert forall|id: u64| #[trigger] a.contains_key(id) implies a[id] == m[id] by {
        let i = choose|i: int| 0 <= i < v.len() && (#[trigger] v[i]).file_id == id;
        assert(a[v[i].file_id] == v[i]);
        assert(m[v[i].file_id] == v[i]);
    }
    assert(a =~= m);
}

/// The byte views of manifest files.
pub open spec fn files_view(files: Seq<Vec<u8>>) -> Seq<Seq<u8>> {
    Seq::new(files.len(), |i: int| files[i]@)
}

/// Keeps the manifest of live SSTables: which manifest file is current,
/// which id the next one gets, and the records that files hold.
#[derive(Debug)]
pub struct ManifestManager {
    data_dir: String,
    manifest_dir: String,
    current_manifest_id: u64,
    next_manifest_id: u64,
}

impl ManifestManager {
    /// The data directory.
    pub closed spec fn data_dir_spec(&self) -> Seq<char> {
        self.data_dir@
    }

    /// The directory of the manifest files.
    pub closed spec fn manifest_dir_spec(&self) -> Seq<char> {
        self.manifest_dir@
    }

    /// The id of the manifest file appended to.
    pub closed spec fn current_id_spec(&self) -> u64 {
        self.current_manifest_id
    }

    /// The id the next manifest file gets.
    pub closed spec fn next_id_spec(&self) -> u64 {
        self.next_manifest_id
    }

    /// A manager for `data_dir` that appends to manifest `next_manifest_id`.
    pub fn open_with_next_manifest_id(data_dir: &str, next_manifest_id: u64) -> (m: Self)
        requires
            next_manifest_id < u64::MAX,
        ensures
            m.data_dir_spec() == data_dir@,
            m.manifest_dir_spec() == manifest_dir_of(data_dir@),
            m.current_id_spec() == next_manifest_id,
            m.next_id_spec() == next_manifest_id + 1,
    {
        let mut manifest_dir = String::from_str(data_dir);
        manifest_dir.append("/manifest");
        ManifestManager {
            data_dir: String::from_str(data_dir),
            manifest_dir,
            current_manifest_id: next_manifest_id,
            next_manifest_id: next_manifest_id + 1,
        }
    }

    /// A manager for `data_dir` whose manifest directory holds files named
    /// `names`: it appends to a new manifest, one past the largest there.
    pub fn open(data_dir: &str, names: &[Vec<u8>]) -> (m: Self)
        requires
            next_after(max_manifest_id(Seq::new(names@.len(), |i: int| names@[i]@))) < u64::MAX,
        ensures
            m.data_dir_spec() == data_dir@,
            m.manifest_dir_spec() == manifest_dir_of(data_dir@),
            m.current_id_spec() == next_after(max_manifest_id(Seq::new(names@.len(), |i: int| names@[i]@))),
            m.next_id_spec() == m.current_id_spec() + 1,
    {
        let id = next_manifest_id(names);
        Self::open_with_next_manifest_id(data_dir, id)
    }

    /// The data directory.
    pub fn data_dir(&self) -> (r: &str)
        ensures
            r@ == self.data_dir_spec(),
    {
        self.data_dir.as_str()
    }

    /// The directory of the manifest files.
    pub fn manifest_dir(&self) -> (r: &str)
        ensures
            r@ == self.manifest_dir_spec(),
    {
        self.manifest_dir.as_str()
    }

    /// The id of the manifest file appended to.
    pub fn current_manifest_id(&self) -> (r: u64)
        ensures
            r == self.current_id_spec(),
    {
        self.current_manifest_id
    }

    /// The id the next manifest file gets.
    pub fn next_manifest_id(&self) -> (r: u64)
        ensures
            r == self.next_id_spec(),
    {
        self.next_manifest_id
    }

    /// Where the manifest file appended to lives.
    pub fn current_manifest_path(&self) -> (r: String)
        ensures
            r@ == self.manifest_dir_spec() + "/"@ + manifest_file_name(self.current_id_spec()),
    {
        manifest_path(self.manifest_dir.as_str(), self.current_manifest_id)
    }

    /// The bytes to append to the current manifest file for `record`.
    pub fn append(&self, record: &ManifestRecord) -> (r: Vec<u8>)
        ensures
            r@ == crate::storage::manifest::record::manifest_record_bytes(record@),
    {
        record.encode()
    }

    /// The bytes to append for adding an SSTable.
    pub fn add_sstable(&self, meta: SSTableMeta) -> (r: Vec<u8>)
        ensures
            r@ == crate::storage::manifest::record::manifest_record_bytes(ManifestRecordView::AddSSTable(meta@)),
    {
        self.append(&ManifestRecord::AddSSTable(meta))
    }

    /// The bytes to append for removing an SSTable.
    pub fn remove_sstable(&self, file_id: u64) -> (r: Vec<u8>)
        ensures
            r@ == crate::storage::manifest::record::manifest_record_bytes(ManifestRecordView::RemoveSSTable { file_id }),
    {
        self.append(&ManifestRecord::RemoveSSTable { file_id })
    }

    /// Moves on to a new manifest file.
    pub fn rotate(&mut self)
        requires
            old(self).next_id_spec() < u64::MAX,
        ensures
            final(self).current_id_spec() == old(self).next_id_spec(),
            final(self).next_id_spec() == old(self).next_id_spec() + 1,
            final(self).data_dir_spec() == old(self).data_dir_spec(),
            final(self).manifest_dir_spec() == old(self).manifest_dir_spec(),
    {
        self.current_manifest_id = self.next_manifest_id;
        self.next_manifest_id = self.next_manifest_id + 1;
    }

    /// The records that the manifest files hold, file after file.
    pub fn replay(&self, files: &[Vec<u8>]) -> (r: Result<Vec<ManifestRecord>>)
        ensures
            match replay_files(files_view(files@)) {
                Ok(rs) => r matches Ok(v) && records_view(v@) == rs,
                Err(e) => r == Err::<Vec<ManifestRecord>, EngineError>(e),
            },
    {
        replay_manifest_files(files)
    }

    /// The live SSTables that the manifest files describe, by increasing
    /// file id.
    pub fn load_sstables(&self, files: &[Vec<u8>]) -> (r: Result<Vec<SSTableMeta>>)
        ensures
            match replay_files(files_view(files@)) {
                Ok(rs) => r matches Ok(v) && lists_by_id(metas_view(v@), apply_records_spec(rs)),
                Err(e) => r == Err::<Vec<SSTableMeta>, EngineError>(e),
            },
    {
        let records = self.replay(files)?;
        let ghost rs = records_view(records@);
        let metas = apply_records(records);
        proof {
            assert(Seq::new(rs.len(), |i: int| rs[i]) =~= rs);
        }
        Ok(metas)
    }

    /// Where SSTable `file_id` lives.
    pub fn sstable_path(&self, file_id: u64) -> (r: String)
        ensures
            r@ == self.data_dir_spec() + "/"@ + sstable_file_name(file_id),
    {
        sstable_path_in(self.data_dir.as_str(), file_id)
    }

    /// The id the next SSTable gets: one past the largest live file id, or
    /// 0 when none is live.
    pub fn next_sstable_id(&self, files: &[Vec<u8>]) -> (r: Result<u64>)
        requires
            replay_files(files_view(files@)) matches Ok(rs) ==> forall|id: u64|
                #[trigger] apply_records_spec(rs).contains_key(id) ==> id < u64::MAX,
        ensures
            match replay_files(files_view(files@)) {
                Ok(rs) => r matches Ok(n) && is_next_id(apply_records_spec(rs), n),
                Err(e) => r == Err::<u64, EngineError>(e),
            },
    {
        let metas = self.load_sstables(files)?;
        let ghost m = apply_records_spec(replay_files(files_view(files@)).unwrap());
        let ghost v = metas_view(metas@);
        let n = metas.len();
        if n == 0 {
            proof {
                assert forall|id: u64| !m.contains_key(id) by {
                    if m.contains_key(id) {
                        let i = choose|i: int| 0 <= i < v.len() && (#[trigger] v[i]).file_id == id;
                    }
                }
            }
            return Ok(0);
        }
        let last = metas[n - 1].file_id();
        proof {
            assert(m.contains_key(v[n - 1].file_id));
            assert forall|id: u64| #[trigger] m.contains_key(id) implies id < last + 1 by {
                let i = choose|i: int| 0 <= i < v.len() && (#[trigger] v[i]).file_id == id;
                if i < n - 1 {
                    assert(v[i].file_id < v[n - 1].file_id);
                }
            }
        }
        Ok(last + 1)
    }

    /// Compacts the manifest into a new file that adds each live SSTable,
    /// in file id order: returns that file's bytes, which become the
    /// current manifest.
    pub fn compact(&mut self, files: &[Vec<u8>]) -> (r: Result<Vec<u8>>)
        requires
            old(self).next_id_spec() < u64::MAX,
        ensures
            match replay_files(files_view(files@)) {
                Ok(rs) => r matches Ok(bytes) && {
                    &&& parse_manifest_log(bytes@, 0) matches Ok(adds) && apply_records_spec(adds) == apply_records_spec(rs)
                    &&& final(self).current_id_spec() == old(self).next_id_spec()
                    &&& final(self).next_id_spec() == old(self).next_id_spec() + 1
                },
                Err(e) => r == Err::<Vec<u8>, EngineError>(e) && final(self).current_id_spec() == old(self).current_id_spec()
                    && final(self).next_id_spec() == old(self).next_id_spec(),
            },
            final(self).data_dir_spec() == old(self).data_dir_spec(),
            final(self).manifest_dir_spec() == old(self).manifest_dir_spec(),
    {
        let metas = self.load_sstables(files)?;
        let ghost rs = replay_files(files_view(files@)).unwrap();
        let ghost m = apply_records_spec(rs);
        let ghost v = metas_view(metas@);
        proof {
            lemma_replay_files_wf(files_view(files@));
            lemma_apply_wf(rs);
            assert forall|k: int| 0 <= k < v.len() implies (#[trigger] additions(v)[k]).wf() by {
                assert(m.contains_key(v[k].file_id));
            }
        }
        self.rotate();
        let mut encoder = crate::format::Encoder::new();
        let mut i: usize = 0;
        while i < metas.len()
            invariant
                i <= metas@.len(),
                v == metas_view(metas@),
                lists_by_id(v, m),
                forall|k: int| 0 <= k < v.len() ==> (#[trigger] additions(v)[k]).wf(),
                encoder@ == manifest_log(additions(v.take(i as int))),
            decreases metas@.len() - i,
        {
            let record = ManifestRecord::AddSSTable(metas[i].duplicate());
            proof {
                assert(additions(v)[i as int] == record@);
            }
            record.encode_to(&mut encoder);
            proof {
                lemma_manifest_log_push(additions(v.take(i as int)), record@);
                assert(additions(v.take(i + 1)) =~= additions(v.take(i as int)).push(record@));
            }
            i = i + 1;
        }
        proof {
            assert(v.take(i as int) =~= v);
            lemma_compaction_keeps_live_set(v, m);
        }
        Ok(encoder.finish())
    }

    /// The manifest files among `names` that compaction leaves behind:
    /// those whose id comes before the current manifest's.
    pub fn older_manifests(&self, names: &[Vec<u8>]) -> (r: Vec<Vec<u8>>)
        ensures
            forall|i: int| 0 <= i < r@.len() ==> #[trigger] is_older(r@[i]@, self.current_id_spec()),
            forall|i: int|
                0 <= i < names@.len() && #[trigger] is_older(names@[i]@, self.current_id_spec()) ==> exists|j: int|
                    0 <= j < r@.len() && r@[j]@ == names@[i]@,
    {
        let mut out: Vec<Vec<u8>> = Vec::new();
        let mut k: usize = 0;
        while k < names.len()
            invariant
                k <= names@.len(),
                forall|i: int| 0 <= i < out@.len() ==> #[trigger] is_older(out@[i]@, self.current_id_spec()),
                forall|i: int|
                    0 <= i < k && #[trigger] is_older(names@[i]@, self.current_id_spec()) ==> exists|j: int|
                        0 <= j < out@.len() && out@[j]@ == names@[i]@,
            decreases names@.len() - k,
        {
            let ghost before = out@;
            match manifest_id(names[k].as_slice()) {
                Some(id) => {
                    if id < self.current_manifest_id {
                        let copy = crate::format::copy_bytes(names[k].as_slice());
                        out.push(copy);
                        proof {
                            assert(out@[out@.len() - 1]@ == names@[k as int]@);
                            assert forall|i: int|
                                0 <= i < k + 1 && #[trigger] is_older(names@[i]@, self.current_id_spec()) implies exists|j: int|
                                    0 <= j < out@.len() && out@[j]@ == names@[i]@ by {
                                if i < k {
                                    let j = choose|j: int| 0 <= j < before.len() && before[j]@ == names@[i]@;
                                    assert(out@[j] == before[j]);
                                } else {
                                    assert(out@[out@.len() - 1]@ == names@[i]@);
                                }
                            }
                            assert forall|i: int| 0 <= i < out@.len() implies #[trigger] is_older(out@[i]@, self.current_id_spec()) by {
                                if i < before.len() {
                                    assert(out@[i] == before[i]);
                                }
                            }
                        }
                    }
                },
                None => {},
            }
            k = k + 1;
        }
        out
    }
}

/// The name carries a manifest id that comes before `current`.
pub open spec fn is_older(name: Seq<u8>, current: u64) -> bool {
    match manifest_id_spec(name) {
        Some(id) => id < current,
        None => false,
    }
}

/// `n` is one past the largest file id bound in `m`, or 0 when none is.
pub open spec fn is_next_id(m: Map<u64, SSTableMetaView>, n: u64) -> bool {
    &&& forall|id: u64| #[trigger] m.contains_key(id) ==> id < n
    &&& n == 0 || m.contains_key((n - 1) as u64)
}

/// The record views of manifest records.
pub open spec fn records_view(v: Seq<ManifestRecord>) -> Seq<ManifestRecordView> {
    Seq::new(v.len(), |i: int| v[i]@)
}

/// Appending a record to a manifest appends its bytes.
proof fn lemma_manifest_log_push(rs: Seq<ManifestRecordView>, r: ManifestRecordView)
    ensures
        manifest_log(rs.push(r)) == manifest_log(rs) + crate::storage::manifest::record::manifest_record_bytes(r),
    decreases rs.len(),
{
    if rs.len() == 0 {
        assert(rs.push(r).drop_first() =~= Seq::<ManifestRecordView>::empty());
        assert(manifest_log(rs.push(r).drop_first()) == Seq::<u8>::empty());
        assert(manifest_log(rs.push(r)) =~= manifest_log(rs) + crate::storage::manifest::record::manifest_record_bytes(r));
    } else {
        lemma_manifest_log_push(rs.drop_first(), r);
        assert(rs.push(r).drop_first() =~= rs.drop_first().push(r));
        assert(manifest_log(rs.push(r)) =~= manifest_log(rs) + crate::storage::manifest::record::manifest_record_bytes(r));
    }
}

/// Records read from manifest files encode back to the same bytes.
proof fn lemma_replay_files_wf(files: Seq<Seq<u8>>)
    ensures
        replay_files(files) matches Ok(rs) ==> forall|i: int| 0 <= i < rs.len() ==> (#[trigger] rs[i]).wf(),
    decreases files.len(),
{
    if files.len() > 0 {
        let init = files.drop_last();
        lemma_replay_files_wf(init);
        lemma_parsed_log_wf(files.last(), 0);
        if let Ok(rs) = replay_files(files) {
            let a = replay_files(init).unwrap();
            let b = parse_manifest_log(files.last(), 0).unwrap();
            assert(rs == a + b);
            assert forall|i: int| 0 <= i < rs.len() implies (#[trigger] rs[i]).wf() by {
                if i < a.len() {
                    assert(rs[i] == a[i]);
                } else {
                    assert(rs[i] == b[i - a.len()]);
                }
            }
        }
    }
}

/// Applying records that fit their length fields binds only metadata that
/// fits them.
proof fn lemma_apply_wf(rs: Seq<ManifestRecordView>)
    requires
        forall|i: int| 0 <= i < rs.len() ==> (#[trigger] rs[i]).wf(),
    ensures
        forall|id: u64| #[trigger] apply_records_spec(rs).contains_key(id) ==> apply_records_spec(rs)[id].wf(),
    decreases rs.len(),
{
    if rs.len() > 0 {
        let init = rs.drop_last();
        assert forall|i: int| 0 <= i < init.len() implies (#[trigger] init[i]).wf() by {
            assert(init[i] == rs[i]);
        }
        lemma_apply_wf(init);
        assert(rs.last().wf());
        let m = apply_records_spec(init);
        assert forall|id: u64| #[trigger] apply_records_spec(rs).contains_key(id) implies apply_records_spec(rs)[id].wf() by {
            match rs.last() {
                ManifestRecordView::AddSSTable(meta) => {
                    if id != meta.file_id {
                        assert(m.contains_key(id));
                    }
                },
                ManifestRecordView::RemoveSSTable { file_id } => {
                    assert(m.contains_key(id));
                },
            }
        }
    }
}

/// A fault in the first files is the fault of all of them.
proof fn lemma_replay_error(files: Seq<Seq<u8>>, j: int)
    requires
        0 <= j <= files.len(),
        replay_files(files.take(j)) is Err,
    ensures
        replay_files(files) == replay_files(files.take(j)),
    decreases files.len() - j,
{
    if j < files.len() {
        assert(files.take(j + 1).drop_last() =~= files.take(j));
        lemma_replay_error(files, j + 1);
    } else {
        assert(files.take(j) =~= files);
    }
}

/// The records that manifest files hold, file after file.
pub fn replay_manifest_files(files: &[Vec<u8>]) -> (r: Result<Vec<ManifestRecord>>)
    ensures
        match replay_files(files_view(files@)) {
            Ok(rs) => r matches Ok(v) && records_view(v@) == rs,
            Err(e) => r == Err::<Vec<ManifestRecord>, EngineError>(e),
        },
{
    let ghost all = files_view(files@);
    let mut out: Vec<ManifestRecord> = Vec::new();
    let mut k: usize = 0;
    proof {
        assert(all.take(0) =~= Seq::<Seq<u8>>::empty());
        assert(records_view(out@) =~= Seq::<ManifestRecordView>::empty());
    }
    while k < files.len()
        invariant
            k <= files@.len(),
            all == files_view(files@),
            replay_files(all.take(k as int)) == Ok::<Seq<ManifestRecordView>, EngineError>(records_view(out@)),
        decreases files@.len() - k,
    {
        proof {
            assert(all.take(k + 1).drop_last() =~= all.take(k as int));
            assert(all.take(k + 1).last() == files@[k as int]@);
        }
        let mut records = match replay_records(files[k].as_slice()) {
            Ok(records) => records,
            Err(e) => {
                proof {
                    lemma_replay_error(all, k + 1);
                }
                return Err(e);
            },
        };
        let ghost before = records_view(out@);
        let ghost more = records_view(records@);
        proof {
            assert(more =~= parse_manifest_log(files@[k as int]@, 0).unwrap());
        }
        out.append(&mut records);
        proof {
            assert(records_view(out@) =~= before + more);
        }
        k = k + 1;
    }
    proof {
        assert(all.take(k as int) =~= all);
    }
    Ok(out)
}

} // verus!
