//! The files of a data directory as the engine's file changes leave them,
//! and the names those files have.
use vstd::prelude::*;

use crate::engine::FileOpView;
use crate::text::{ascii_chars, decimal, decimal_padded, lemma_decimal, lemma_parse_decimal};
use crate::wal::manager::{fresh_segment, wal_file_name, WalManagerView};
use crate::wal::record::{wal_frame, wal_log, WalRecordView};

verus! {

/// What the file at `p` holds: its bytes, or nothing when there is no file.
pub open spec fn file_of(disk: Map<Seq<char>, Seq<u8>>, p: Seq<char>) -> Seq<u8> {
    if disk.contains_key(p) {
        disk[p]
    } else {
        Seq::empty()
    }
}

/// The files after one change.
pub open spec fn apply_op(disk: Map<Seq<char>, Seq<u8>>, op: FileOpView) -> Map<Seq<char>, Seq<u8>> {
    match op {
        FileOpView::Append { path, bytes } => disk.insert(path, file_of(disk, path) + bytes),
        FileOpView::Write { path, bytes } => disk.insert(path, bytes),
        FileOpView::Remove { path } => disk.remove(path),
    }
}

/// The files after the changes, in order.
pub open spec fn apply_ops(disk: Map<Seq<char>, Seq<u8>>, ops: Seq<FileOpView>) -> Map<Seq<char>, Seq<u8>>
    decreases ops.len(),
{
    if ops.len() == 0 {
        disk
    } else {
        apply_ops(apply_op(disk, ops[0]), ops.drop_first())
    }
}

/// The path a change is made at.
pub open spec fn op_path(op: FileOpView) -> Seq<char> {
    match op {
        FileOpView::Append { path, .. } => path,
        FileOpView::Write { path, .. } => path,
        FileOpView::Remove { path } => path,
    }
}

/// Where WAL segment `id` of data directory `data_dir` lives.
pub open spec fn wal_file_path(data_dir: Seq<char>, id: u64) -> Seq<char> {
    data_dir + "/wal"@ + "/"@ + wal_file_name(id)
}

/// A change at another path leaves a file as it was.
pub proof fn lemma_apply_op_other(disk: Map<Seq<char>, Seq<u8>>, op: FileOpView, p: Seq<char>)
    requires
        op_path(op) != p,
    ensures
        file_of(apply_op(disk, op), p) == file_of(disk, p),
{
}

/// Changes at other paths leave a file as it was.
pub proof fn lemma_apply_ops_other(disk: Map<Seq<char>, Seq<u8>>, ops: Seq<FileOpView>, p: Seq<char>)
    requires
        forall|i: int| 0 <= i < ops.len() ==> op_path(#[trigger] ops[i]) != p,
    ensures
        file_of(apply_ops(disk, ops), p) == file_of(disk, p),
    decreases ops.len(),
{
    if ops.len() > 0 {
        lemma_apply_op_other(disk, ops[0], p);
        assert forall|i: int| 0 <= i < ops.drop_first().len() implies op_path(#[trigger] ops.drop_first()[i]) != p by {
            assert(ops.drop_first()[i] == ops[i + 1]);
        }
        lemma_apply_ops_other(apply_op(disk, ops[0]), ops.drop_first(), p);
    }
}

/// Applying two runs of changes applies the first, then the second.
pub proof fn lemma_apply_ops_concat(disk: Map<Seq<char>, Seq<u8>>, a: Seq<FileOpView>, b: Seq<FileOpView>)
    ensures
        apply_ops(disk, a + b) == apply_ops(apply_ops(disk, a), b),
    decreases a.len(),
{
    if a.len() == 0 {
        assert(a + b =~= b);
    } else {
        assert((a + b).drop_first() =~= a.drop_first() + b);
        assert((a + b)[0] == a[0]);
        lemma_apply_ops_concat(apply_op(disk, a[0]), a.drop_first(), b);
    }
}

/// ASCII bytes map to distinct characters.
proof fn lemma_ascii_chars_injective(a: Seq<u8>, b: Seq<u8>)
    requires
        ascii_chars(a) == ascii_chars(b),
    ensures
        a == b,
{
    assert(a.len() == ascii_chars(a).len());
    assert forall|i: int| 0 <= i < a.len() implies a[i] == b[i] by {
        assert(b.len() == ascii_chars(b).len());
        assert(ascii_chars(a)[i] == a[i] as char);
        assert(ascii_chars(b)[i] == b[i] as char);
        assert(ascii_chars(a)[i] == ascii_chars(b)[i]);
        let x = a[i];
        let y = b[i];
        assert((x as char) as int == x as int);
        assert((y as char) as int == y as int);
    }
    assert(a =~= b);
}

/// Distinct segment ids have distinct files.
pub proof fn lemma_wal_file_path_injective(data_dir: Seq<char>, a: u64, b: u64)
    requires
        wal_file_path(data_dir, a) == wal_file_path(data_dir, b),
    ensures
        a == b,
{
    reveal_strlit("/wal");
    reveal_strlit("/");
    reveal_strlit("wal_");
    reveal_strlit(".log");
    let pa = wal_file_path(data_dir, a);
    let pb = wal_file_path(data_dir, b);
    let da = ascii_chars(decimal(a as nat));
    let db = ascii_chars(decimal(b as nat));
    let start: int = data_dir.len() + 9int;
    assert(pa.len() == start + da.len() + 4);
    assert(pb.len() == start + db.len() + 4);
    assert(pa.subrange(start, start + da.len() as int) =~= da);
    assert(pb.subrange(start, start + db.len() as int) =~= db);
    lemma_ascii_chars_injective(decimal(a as nat), decimal(b as nat));
    lemma_parse_decimal(a, 0);
    lemma_parse_decimal(b, 0);
}

/// A path under the data directory whose name does not start with `w`
/// is no WAL segment's file.
pub proof fn lemma_not_wal_file(data_dir: Seq<char>, rest: Seq<char>, id: u64)
    requires
        rest.len() >= 2,
        rest[0] == '/',
        rest[1] != 'w',
    ensures
        data_dir + rest != wal_file_path(data_dir, id),
{
    reveal_strlit("/wal");
    let p = data_dir + rest;
    let q = wal_file_path(data_dir, id);
    assert(p[data_dir.len() + 1int] == rest[1]);
    assert(q[data_dir.len() + 1int] == 'w');
}

/// The `CURRENT` file is no WAL segment's file.
pub proof fn lemma_current_not_wal(data_dir: Seq<char>, id: u64)
    ensures
        data_dir + "/CURRENT"@ != wal_file_path(data_dir, id),
{
    reveal_strlit("/CURRENT");
    lemma_not_wal_file(data_dir, "/CURRENT"@, id);
}

/// A manifest file is no WAL segment's file.
pub proof fn lemma_manifest_not_wal(data_dir: Seq<char>, name: Seq<char>, id: u64)
    ensures
        data_dir + "/manifest"@ + "/"@ + name != wal_file_path(data_dir, id),
{
    reveal_strlit("/manifest");
    let rest = "/manifest"@ + "/"@ + name;
    assert(data_dir + "/manifest"@ + "/"@ + name =~= data_dir + rest);
    lemma_not_wal_file(data_dir, rest, id);
}

/// An SSTable file is no WAL segment's file.
pub proof fn lemma_sstable_not_wal(data_dir: Seq<char>, file_id: u64, id: u64)
    ensures
        data_dir + "/"@ + crate::storage::sstable::manager::sstable_file_name(file_id) != wal_file_path(data_dir, id),
{
    reveal_strlit("/");
    let digits = decimal_padded(file_id as nat, 20);
    lemma_parse_decimal(file_id, 20);
    let rest = "/"@ + crate::storage::sstable::manager::sstable_file_name(file_id);
    assert(data_dir + "/"@ + crate::storage::sstable::manager::sstable_file_name(file_id) =~= data_dir + rest);
    assert(rest[1] == ascii_chars(digits)[0]);
    assert(48 <= digits[0] <= 57);
    lemma_not_wal_file(data_dir, rest, id);
}

/// A log with one more record has that record's frame appended.
pub proof fn lemma_wal_log_push(rs: Seq<WalRecordView>, r: WalRecordView)
    ensures
        wal_log(rs.push(r)) == wal_log(rs) + wal_frame(r),
    decreases rs.len(),
{
    if rs.len() == 0 {
        assert(rs.push(r).drop_first() =~= Seq::<WalRecordView>::empty());
        assert(wal_log(Seq::<WalRecordView>::empty()) =~= Seq::<u8>::empty());
        assert(wal_frame(r) + Seq::<u8>::empty() =~= wal_frame(r));
        assert(Seq::<u8>::empty() + wal_frame(r) =~= wal_frame(r));
    } else {
        lemma_wal_log_push(rs.drop_first(), r);
        assert(rs.push(r).drop_first() =~= rs.drop_first().push(r));
        assert(rs.push(r)[0] == rs[0]);
        assert(wal_frame(rs[0]) + (wal_log(rs.drop_first()) + wal_frame(r)) =~= (wal_frame(rs[0]) + wal_log(
            rs.drop_first(),
        )) + wal_frame(r));
    }
}

/// Applying one more change applies it after the others.
pub proof fn lemma_apply_ops_push(disk: Map<Seq<char>, Seq<u8>>, ops: Seq<FileOpView>, op: FileOpView)
    ensures
        apply_ops(disk, ops.push(op)) == apply_op(apply_ops(disk, ops), op),
{
    lemma_apply_ops_concat(disk, ops, seq![op]);
    assert(ops + seq![op] =~= ops.push(op));
    let x = apply_ops(disk, ops);
    let one = seq![op];
    assert(one.drop_first() =~= Seq::<FileOpView>::empty());
    assert(one[0] == op);
    assert(apply_ops(apply_op(x, op), Seq::<FileOpView>::empty()) == apply_op(x, op));
    assert(apply_ops(x, one) == apply_ops(apply_op(x, one[0]), one.drop_first()));
}

/// The files `disk` hold the WAL `w` of data directory `data_dir`: every
/// segment's file, named by its id counted back from the next id, holds the
/// log of the segment's records, and no id not yet handed out has a file
/// with anything in it.
pub open spec fn wal_on_disk(w: WalManagerView, data_dir: Seq<char>, disk: Map<Seq<char>, Seq<u8>>) -> bool {
    let n = w.segments.len();
    &&& w.dir == data_dir + "/wal"@
    &&& n <= w.next_wal_id
    &&& forall|i: int|
        0 <= i < n ==> (#[trigger] w.segments[i]).path == Some(wal_file_path(data_dir, (w.next_wal_id - n + i) as u64))
            && file_of(disk, wal_file_path(data_dir, (w.next_wal_id - n + i) as u64)) == wal_log(w.segments[i].records)
    &&& forall|id: u64| id >= w.next_wal_id ==> #[trigger] file_of(disk, wal_file_path(data_dir, id)) == Seq::<u8>::empty()
}

/// A change at a path that is no WAL segment's file keeps the WAL on disk.
pub proof fn lemma_wal_on_disk_other(w: WalManagerView, data_dir: Seq<char>, disk: Map<Seq<char>, Seq<u8>>, op: FileOpView)
    requires
        wal_on_disk(w, data_dir, disk),
        forall|id: u64| op_path(op) != #[trigger] wal_file_path(data_dir, id),
    ensures
        wal_on_disk(w, data_dir, apply_op(disk, op)),
{
    let d2 = apply_op(disk, op);
    let n = w.segments.len();
    assert forall|i: int| 0 <= i < n implies (#[trigger] w.segments[i]).path == Some(
        wal_file_path(data_dir, (w.next_wal_id - n + i) as u64),
    ) && file_of(d2, wal_file_path(data_dir, (w.next_wal_id - n + i) as u64)) == wal_log(w.segments[i].records) by {
        lemma_apply_op_other(disk, op, wal_file_path(data_dir, (w.next_wal_id - n + i) as u64));
    }
    assert forall|id: u64| id >= w.next_wal_id implies #[trigger] file_of(d2, wal_file_path(data_dir, id)) == Seq::<u8>::empty() by {
        lemma_apply_op_other(disk, op, wal_file_path(data_dir, id));
    }
}

/// Appending a record's frame to the file it is logged to keeps the WAL
/// on disk, with the record in its segment.
pub proof fn lemma_wal_on_disk_append(
    w0: WalManagerView,
    w1: WalManagerView,
    data_dir: Seq<char>,
    disk: Map<Seq<char>, Seq<u8>>,
    r: WalRecordView,
    path: Seq<char>,
)
    requires
        wal_on_disk(w0, data_dir, disk),
        w1.dir == w0.dir,
        w1.segments.len() > 0,
        w0.segments.len() == 0 ==> {
            &&& path == w0.dir + "/"@ + wal_file_name(w0.next_wal_id)
            &&& w1.segments.len() == 1
            &&& w1.segments[0].path == Some(path)
            &&& w1.segments[0].records == seq![r]
            &&& w1.next_wal_id == w0.next_wal_id + 1
        },
        w0.segments.len() > 0 ==> {
            &&& Some(path) == w0.segments.last().path
            &&& w1.segments.len() == w0.segments.len()
            &&& w1.segments.drop_last() == w0.segments.drop_last()
            &&& w1.segments.last().path == w0.segments.last().path
            &&& w1.segments.last().records == w0.segments.last().records.push(r)
            &&& w1.next_wal_id == w0.next_wal_id
        },
    ensures
        wal_on_disk(w1, data_dir, apply_op(disk, FileOpView::Append { path, bytes: wal_frame(r) })),
{
    let op = FileOpView::Append { path, bytes: wal_frame(r) };
    let d2 = apply_op(disk, op);
    let n0 = w0.segments.len();
    let n1 = w1.segments.len();
    let w = w0.next_wal_id;
    let id0: u64 = if n0 == 0 {
        w
    } else {
        (w - 1) as u64
    };
    assert(path == wal_file_path(data_dir, id0)) by {
        if n0 > 0 {
            assert(w0.segments[n0 - 1].path == Some(wal_file_path(data_dir, (w - n0 + (n0 - 1)) as u64)));
        }
    }
    assert(file_of(d2, path) == wal_log(w1.segments[n1 - 1].records)) by {
        if n0 == 0 {
            assert(file_of(disk, path) == Seq::<u8>::empty());
            lemma_wal_log_push(Seq::<WalRecordView>::empty(), r);
            assert(Seq::<WalRecordView>::empty().push(r) =~= seq![r]);
            assert(Seq::<u8>::empty() + wal_frame(r) =~= wal_frame(r));
        } else {
            lemma_wal_log_push(w0.segments[n0 - 1].records, r);
        }
    }
    assert forall|i: int| 0 <= i < n1 implies (#[trigger] w1.segments[i]).path == Some(
        wal_file_path(data_dir, (w1.next_wal_id - n1 + i) as u64),
    ) && file_of(d2, wal_file_path(data_dir, (w1.next_wal_id - n1 + i) as u64)) == wal_log(w1.segments[i].records) by {
        if i < n1 - 1 {
            assert(w1.segments[i] == w1.segments.drop_last()[i]);
            assert(w0.segments[i] == w0.segments.drop_last()[i]);
            let q = wal_file_path(data_dir, (w1.next_wal_id - n1 + i) as u64);
            if path == q {
                lemma_wal_file_path_injective(data_dir, id0, (w1.next_wal_id - n1 + i) as u64);
            }
            lemma_apply_op_other(disk, op, q);
        }
    }
    assert forall|id: u64| id >= w1.next_wal_id implies #[trigger] file_of(d2, wal_file_path(data_dir, id))
        == Seq::<u8>::empty() by {
        if path == wal_file_path(data_dir, id) {
            lemma_wal_file_path_injective(data_dir, id0, id);
        }
        lemma_apply_op_other(disk, op, wal_file_path(data_dir, id));
    }
}

/// Starting a fresh segment keeps the WAL on disk: its file has nothing
/// in it yet.
pub proof fn lemma_wal_on_disk_rotate(w0: WalManagerView, w1: WalManagerView, data_dir: Seq<char>, disk: Map<Seq<char>, Seq<u8>>)
    requires
        wal_on_disk(w0, data_dir, disk),
        w1.dir == w0.dir,
        w1.segments == w0.segments.push(fresh_segment(w0.dir + "/"@ + wal_file_name(w0.next_wal_id))),
        w1.next_wal_id == w0.next_wal_id + 1,
    ensures
        wal_on_disk(w1, data_dir, disk),
{
    let n0 = w0.segments.len();
    assert forall|i: int| 0 <= i < n0 + 1 implies (#[trigger] w1.segments[i]).path == Some(
        wal_file_path(data_dir, (w1.next_wal_id - (n0 + 1) + i) as u64),
    ) && file_of(disk, wal_file_path(data_dir, (w1.next_wal_id - (n0 + 1) + i) as u64)) == wal_log(w1.segments[i].records) by {
        if i < n0 {
            assert(w1.segments[i] == w0.segments[i]);
        } else {
            assert(file_of(disk, wal_file_path(data_dir, w0.next_wal_id)) == Seq::<u8>::empty());
            assert(wal_log(Seq::<WalRecordView>::empty()) =~= Seq::<u8>::empty());
        }
    }
}

/// Dropping the oldest segment and removing its file keeps the WAL on
/// disk.
pub proof fn lemma_wal_on_disk_pop(w0: WalManagerView, w1: WalManagerView, data_dir: Seq<char>, disk: Map<Seq<char>, Seq<u8>>)
    requires
        wal_on_disk(w0, data_dir, disk),
        w0.segments.len() > 0,
        w1.dir == w0.dir,
        w1.segments == w0.segments.drop_first(),
        w1.next_wal_id == w0.next_wal_id,
    ensures
        wal_on_disk(w1, data_dir, apply_op(disk, FileOpView::Remove { path: w0.segments[0].path.unwrap() })),
{
    let n0 = w0.segments.len();
    let w = w0.next_wal_id;
    let id0 = (w - n0) as u64;
    let op = FileOpView::Remove { path: w0.segments[0].path.unwrap() };
    let d2 = apply_op(disk, op);
    assert(w0.segments[0].path == Some(wal_file_path(data_dir, (w - n0 + 0) as u64)));
    assert forall|i: int| 0 <= i < n0 - 1 implies (#[trigger] w1.segments[i]).path == Some(
        wal_file_path(data_dir, (w - (n0 - 1) + i) as u64),
    ) && file_of(d2, wal_file_path(data_dir, (w - (n0 - 1) + i) as u64)) == wal_log(w1.segments[i].records) by {
        assert(w1.segments[i] == w0.segments[i + 1]);
        assert(w0.segments[i + 1].path == Some(wal_file_path(data_dir, (w - n0 + (i + 1)) as u64)));
        let q = wal_file_path(data_dir, (w - (n0 - 1) + i) as u64);
        if op_path(op) == q {
            lemma_wal_file_path_injective(data_dir, id0, (w - (n0 - 1) + i) as u64);
        }
        lemma_apply_op_other(disk, op, q);
    }
    assert forall|id: u64| id >= w implies #[trigger] file_of(d2, wal_file_path(data_dir, id)) == Seq::<u8>::empty() by {
        if op_path(op) == wal_file_path(data_dir, id) {
            lemma_wal_file_path_injective(data_dir, id0, id);
        }
        lemma_apply_op_other(disk, op, wal_file_path(data_dir, id));
    }
}

} // verus!
