use vstd::prelude::*;

use crate::constants::{MANIFEST_RECORD_DELETE, MANIFEST_RECORD_MAGIC, MANIFEST_RECORD_PUT};
use crate::error::{EngineError, Result};
use crate::format::{lemma_le_round_trip, take_error, u64_at, u64_le, Decoder, Encoder};
use crate::storage::sstable::meta::{
    lemma_meta_round_trip, meta_bytes, parse_meta, SSTableMeta, SSTableMetaView,
};

verus! {

/// A change to the set of live SSTables.
#[derive(Debug, PartialEq, Eq)]
pub enum ManifestRecord {
    AddSSTable(SSTableMeta),
    RemoveSSTable { file_id: u64 },
}

/// The contents of a `ManifestRecord`.
pub enum ManifestRecordView {
    AddSSTable(SSTableMetaView),
    RemoveSSTable { file_id: u64 },
}

impl View for ManifestRecord {
    type V = ManifestRecordView;

    open spec fn view(&self) -> ManifestRecordView {
        match self {
            ManifestRecord::AddSSTable(meta) => ManifestRecordView::AddSSTable(meta@),
            ManifestRecord::RemoveSSTable { file_id } => ManifestRecordView::RemoveSSTable {
                file_id: *file_id,
            },
        }
    }
}

impl ManifestRecordView {
    pub open spec fn wf(self) -> bool {
        match self {
            ManifestRecordView::AddSSTable(m) => m.wf(),
            ManifestRecordView::RemoveSSTable { .. } => true,
        }
    }
}

/// The bytes of a manifest record: magic, tag, then the metadata or the
/// removed file id.
pub open spec fn manifest_record_bytes(r: ManifestRecordView) -> Seq<u8> {
    match r {
        ManifestRecordView::AddSSTable(m) => u64_le(MANIFEST_RECORD_MAGIC) + seq![
            MANIFEST_RECORD_PUT,
        ] + meta_bytes(m),
        ManifestRecordView::RemoveSSTable { file_id } => u64_le(MANIFEST_RECORD_MAGIC) + seq![
            MANIFEST_RECORD_DELETE,
        ] + u64_le(file_id),
    }
}

/// What the manifest record at the start of `s` decodes to and how many
/// bytes it spans, or why it does not decode; `base` is the offset of `s`
/// in the decoder's input.
pub open spec fn parse_manifest_record(s: Seq<u8>, base: int) -> core::result::Result<
    (ManifestRecordView, nat),
    EngineError,
> {
    if s.len() < 8 {
        Err(take_error(base, 8))
    } else if u64_at(s, 0) != MANIFEST_RECORD_MAGIC {
        Err(EngineError::CorruptFormat("invalid manifest record magic"))
    } else if s.len() < 9 {
        Err(EngineError::CorruptFormat("truncated u8"))
    } else if s[8] == MANIFEST_RECORD_PUT {
        match parse_meta(s.skip(9), base + 9) {
            Ok((m, n)) => Ok((ManifestRecordView::AddSSTable(m), 9 + n)),
            Err(e) => Err(e),
        }
    } else if s[8] == MANIFEST_RECORD_DELETE {
        if s.len() < 17 {
            Err(take_error(base + 9, 8))
        } else {
            Ok((ManifestRecordView::RemoveSSTable { file_id: u64_at(s, 9) }, 17))
        }
    } else {
        Err(EngineError::CorruptFormat("unknown manifest record type"))
    }
}

/// A manifest record at the start of any byte string decodes to the
/// record and spans exactly its encoding.
pub proof fn lemma_manifest_record_round_trip(r: ManifestRecordView, rest: Seq<u8>, base: int)
    requires
        r.wf(),
    ensures
        parse_manifest_record(manifest_record_bytes(r) + rest, base) == Ok::<
            (ManifestRecordView, nat),
            EngineError,
        >((r, manifest_record_bytes(r).len())),
{
    lemma_le_round_trip();
    let s = manifest_record_bytes(r) + rest;
    let m0 = u64_le(MANIFEST_RECORD_MAGIC);
    assert(s.subrange(0, 8) =~= m0.subrange(0, 8));
    match r {
        ManifestRecordView::AddSSTable(m) => {
            lemma_meta_round_trip(m, rest, base + 9);
            assert(s.skip(9) =~= meta_bytes(m) + rest);
        },
        ManifestRecordView::RemoveSSTable { file_id } => {
            let f = u64_le(file_id);
            assert(s.subrange(9, 17) =~= f.subrange(0, 8));
        },
    }
}

/// What a manifest file holds: records one after another.
pub open spec fn parse_manifest_log(s: Seq<u8>, base: int) -> core::result::Result<
    Seq<ManifestRecordView>,
    EngineError,
>
    decreases s.len(),
{
    if s.len() == 0 {
        Ok(Seq::empty())
    } else {
        match parse_manifest_record(s, base) {
            Ok((r, n)) => if 0 < n <= s.len() {
                match parse_manifest_log(s.skip(n as int), base + n) {
                    Ok(rest) => Ok(seq![r] + rest),
                    Err(e) => Err(e),
                }
            } else {
                Err(EngineError::CorruptFormat("truncated bytes"))
            },
            Err(e) => Err(e),
        }
    }
}

/// The bytes of a manifest file that holds `rs`, in order.
pub open spec fn manifest_log(rs: Seq<ManifestRecordView>) -> Seq<u8>
    decreases rs.len(),
{
    if rs.len() == 0 {
        Seq::empty()
    } else {
        manifest_record_bytes(rs[0]) + manifest_log(rs.drop_first())
    }
}

/// A manifest file decodes back to the records appended to it, in order.
pub proof fn lemma_manifest_log_round_trip(rs: Seq<ManifestRecordView>, base: int)
    requires
        forall|i: int| 0 <= i < rs.len() ==> (#[trigger] rs[i]).wf(),
    ensures
        parse_manifest_log(manifest_log(rs), base) == Ok::<Seq<ManifestRecordView>, EngineError>(rs),
    decreases rs.len(),
{
    if rs.len() > 0 {
        let rest = manifest_log(rs.drop_first());
        let n = manifest_record_bytes(rs[0]).len();
        lemma_manifest_record_round_trip(rs[0], rest, base);
        assert forall|i: int| 0 <= i < rs.drop_first().len() implies (#[trigger] rs.drop_first()[i]).wf() by {
            assert(rs.drop_first()[i] == rs[i + 1]);
        }
        lemma_manifest_log_round_trip(rs.drop_first(), base + n);
        let s = manifest_log(rs);
        assert(s.skip(n as int) =~= rest);
        assert(seq![rs[0]] + rs.drop_first() =~= rs);
        assert(n > 0) by {
            assert(manifest_record_bytes(rs[0]).len() >= 8);
        }
    } else {
        assert(rs =~= Seq::<ManifestRecordView>::empty());
    }
}

/// Records read from bytes fit their length fields, so they encode back to
/// the same bytes.
pub proof fn lemma_parsed_log_wf(s: Seq<u8>, base: int)
    ensures
        parse_manifest_log(s, base) matches Ok(rs) ==> forall|i: int| 0 <= i < rs.len() ==> (#[trigger] rs[i]).wf(),
    decreases s.len(),
{
    if s.len() > 0 {
        if let Ok((r, n)) = parse_manifest_record(s, base) {
            if 0 < n <= s.len() {
                lemma_parsed_log_wf(s.skip(n as int), base + n);
                lemma_record_len(s, base);
                if s[8] == MANIFEST_RECORD_PUT {
                    let (m, k) = parse_meta(s.skip(9), base + 9).unwrap();
                    assert(r.wf());
                }
                if let Ok(rest) = parse_manifest_log(s.skip(n as int), base + n) {
                    let all = seq![r] + rest;
                    assert forall|i: int| 0 <= i < all.len() implies (#[trigger] all[i]).wf() by {
                        if i > 0 {
                            assert(all[i] == rest[i - 1]);
                        }
                    }
                }
            }
        }
    }
}

proof fn lemma_record_len(s: Seq<u8>, base: int)
    ensures
        parse_manifest_record(s, base) matches Ok((v, n)) ==> 9 <= n <= s.len(),
{
    if parse_manifest_record(s, base) is Ok && s[8] == MANIFEST_RECORD_PUT {
        let (m, k) = parse_meta(s.skip(9), base + 9).unwrap();
    }
}

impl ManifestRecord {
    /// Length of the encoding.
    pub fn encoded_len(&self) -> (r: usize)
        requires
            self@.wf(),
            self@ matches ManifestRecordView::AddSSTable(m) ==> 9 + 28 + m.smallest_key.len() + m.largest_key.len() <= usize::MAX,
        ensures
            r == manifest_record_bytes(self@).len(),
    {
        proof {
            lemma_le_round_trip();
        }
        match self {
            ManifestRecord::AddSSTable(meta) => 8 + 1 + meta.encoded_len(),
            ManifestRecord::RemoveSSTable { .. } => 8 + 1 + 8,
        }
    }

    /// Appends the encoding.
    pub fn encode_to(&self, encoder: &mut Encoder)
        ensures
            final(encoder)@ == old(encoder)@ + manifest_record_bytes(self@),
    {
        encoder.write_u64(MANIFEST_RECORD_MAGIC);
        match self {
            ManifestRecord::AddSSTable(meta) => {
                encoder.write_u8(MANIFEST_RECORD_PUT);
                meta.encode_to(encoder);
            },
            ManifestRecord::RemoveSSTable { file_id } => {
                encoder.write_u8(MANIFEST_RECORD_DELETE);
                encoder.write_u64(*file_id);
            },
        }
        assert(encoder@ =~= old(encoder)@ + manifest_record_bytes(self@));
    }

    /// The record's bytes.
    pub fn encode(&self) -> (r: Vec<u8>)
        ensures
            r@ == manifest_record_bytes(self@),
    {
        let mut encoder = Encoder::new();
        self.encode_to(&mut encoder);
        assert(encoder@ =~= manifest_record_bytes(self@));
        encoder.finish()
    }

    /// Decodes the record at the decoder's cursor.
    pub fn decode_from(decoder: &mut Decoder<'_>) -> (r: Result<Self>)
        ensures
            final(decoder).data() == old(decoder).data(),
            final(decoder).pos() <= final(decoder).data().len(),
            match parse_manifest_record(old(decoder).rest(), old(decoder).pos()) {
                Ok((v, n)) => r matches Ok(x) && x@ == v && final(decoder).pos() == old(decoder).pos() + n,
                Err(e) => r == Err::<Self, EngineError>(e),
            },
    {
        let ghost d = decoder.data();
        let ghost p0 = decoder.pos();
        let ghost s = old(decoder).rest();
        let magic = decoder.read_u64()?;
        assert(s.subrange(0, 8) =~= d.subrange(p0, p0 + 8));
        if magic != MANIFEST_RECORD_MAGIC {
            return Err(EngineError::CorruptFormat("invalid manifest record magic"));
        }
        let tag = decoder.read_u8()?;
        assert(decoder.rest() =~= s.skip(9));
        if tag == MANIFEST_RECORD_PUT {
            let meta = SSTableMeta::decode_from(decoder)?;
            Ok(ManifestRecord::AddSSTable(meta))
        } else if tag == MANIFEST_RECORD_DELETE {
            let file_id = decoder.read_u64()?;
            assert(s.subrange(9, 17) =~= d.subrange(p0 + 9, p0 + 17));
            Ok(ManifestRecord::RemoveSSTable { file_id })
        } else {
            Err(EngineError::CorruptFormat("unknown manifest record type"))
        }
    }

    /// Decodes a record that must span all of `bytes`.
    pub fn decode(bytes: &[u8]) -> (r: Result<Self>)
        ensures
            match parse_manifest_record(bytes@, 0) {
                Ok((v, n)) => if n == bytes@.len() {
                    r matches Ok(x) && x@ == v
                } else {
                    r == Err::<Self, EngineError>(EngineError::CorruptFormat("trailing bytes"))
                },
                Err(e) => r == Err::<Self, EngineError>(e),
            },
    {
        let mut decoder = Decoder::new(bytes);
        assert(decoder.rest() =~= bytes@);
        let record = Self::decode_from(&mut decoder)?;
        if !decoder.is_finished() {
            return Err(EngineError::CorruptFormat("trailing bytes"));
        }
        Ok(record)
    }
}

/// Decodes a whole manifest file: records one after another until the
/// bytes run out.
pub fn replay_records(bytes: &[u8]) -> (r: Result<Vec<ManifestRecord>>)
    ensures
        match parse_manifest_log(bytes@, 0) {
            Ok(rs) => r matches Ok(v) && v@.len() == rs.len() && forall|i: int|
                0 <= i < rs.len() ==> (#[trigger] v@[i])@ == rs[i],
            Err(e) => r == Err::<Vec<ManifestRecord>, EngineError>(e),
        },
{
    let mut decoder = Decoder::new(bytes);
    let mut records: Vec<ManifestRecord> = Vec::new();
    let ghost mut done: Seq<ManifestRecordView> = Seq::empty();
    assert(decoder.rest() =~= bytes@);
    assert(forall|t: Seq<ManifestRecordView>| done + t =~= t);
    while !decoder.is_finished()
        invariant
            decoder.data() == bytes@,
            0 <= decoder.pos() <= bytes@.len(),
            records@.len() == done.len(),
            forall|i: int| 0 <= i < done.len() ==> (#[trigger] records@[i])@ == done[i],
            match parse_manifest_log(bytes@, 0) {
                Ok(rs) => parse_manifest_log(decoder.rest(), decoder.pos()) matches Ok(tail) && rs
                    == done + tail,
                Err(e) => parse_manifest_log(decoder.rest(), decoder.pos()) == Err::<
                    Seq<ManifestRecordView>,
                    EngineError,
                >(e),
            },
        decreases bytes@.len() - decoder.pos(),
    {
        let ghost before = decoder.rest();
        let ghost pos = decoder.pos();
        let record = ManifestRecord::decode_from(&mut decoder)?;
        proof {
            let (v, n) = parse_manifest_record(before, pos).unwrap();
            lemma_record_len(before, pos);
            assert(decoder.rest() =~= before.skip(n as int));
            if let Ok(tail) = parse_manifest_log(before, pos) {
                let t2 = parse_manifest_log(before.skip(n as int), pos + n).unwrap();
                assert(tail =~= seq![v] + t2);
                assert(done.push(v) + t2 =~= done + tail);
            }
            done = done.push(v);
        }
        records.push(record);
    }
    proof {
        assert(decoder.rest().len() == 0);
        if let Ok(rs) = parse_manifest_log(bytes@, 0) {
            assert(rs =~= done);
        }
    }
    Ok(records)
}

} // verus!
