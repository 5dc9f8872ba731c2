use vstd::prelude::*;

use crate::constants::{WAL_CHECKSUM_SEED, WAL_RECORD_DELETE, WAL_RECORD_PUT};
use crate::error::{EngineError, Result};
use crate::format::{
    copy_bytes, lemma_le_round_trip, take_error, u32_at, u32_le, u64_at, u64_le, Decoder, Encoder,
};
use crate::storage::bloom::hash::{xxh3_64, xxh3_64_with_seed};

verus! {

/// A write-ahead log record: a write or a deletion, with the sequence
/// number it was given.
#[derive(Debug, PartialEq, Eq)]
pub enum WalRecord {
    Put { sequence_id: u64, key: Vec<u8>, value: Vec<u8> },
    Delete { sequence_id: u64, key: Vec<u8> },
}

/// The contents of a `WalRecord`.
pub enum WalRecordView {
    Put { sequence_id: u64, key: Seq<u8>, value: Seq<u8> },
    Delete { sequence_id: u64, key: Seq<u8> },
}

impl View for WalRecord {
    type V = WalRecordView;

    open spec fn view(&self) -> WalRecordView {
        match self {
            WalRecord::Put { sequence_id, key, value } => WalRecordView::Put {
                sequence_id: *sequence_id,
                key: key@,
                value: value@,
            },
            WalRecord::Delete { sequence_id, key } => WalRecordView::Delete {
                sequence_id: *sequence_id,
                key: key@,
            },
        }
    }
}

/// Length of the fixed part of a payload: tag, sequence number and the two
/// lengths.
pub const WAL_PAYLOAD_HEADER_LEN: usize = 17;

/// Length of a record's frame header: payload length and checksum.
pub const WAL_FRAME_HEADER_LEN: usize = 12;

impl WalRecordView {
    pub open spec fn sequence_id(self) -> u64 {
        match self {
            WalRecordView::Put { sequence_id, .. } => sequence_id,
            WalRecordView::Delete { sequence_id, .. } => sequence_id,
        }
    }

    pub open spec fn key(self) -> Seq<u8> {
        match self {
            WalRecordView::Put { key, .. } => key,
            WalRecordView::Delete { key, .. } => key,
        }
    }

    /// Number of value bytes the payload carries.
    pub open spec fn value_len(self) -> nat {
        match self {
            WalRecordView::Put { value, .. } => value.len(),
            WalRecordView::Delete { .. } => 0,
        }
    }

    /// The payload's length fits the frame's 32-bit length field.
    pub open spec fn wf(self) -> bool {
        WAL_PAYLOAD_HEADER_LEN + self.key().len() + self.value_len() <= u32::MAX
    }
}

/// The bytes of a record's payload: tag, sequence number, key length, value
/// length, key, value.
pub open spec fn wal_payload(r: WalRecordView) -> Seq<u8> {
    match r {
        WalRecordView::Put { sequence_id, key, value } => seq![WAL_RECORD_PUT] + u64_le(sequence_id)
            + u32_le(key.len() as u32) + u32_le(value.len() as u32) + key + value,
        WalRecordView::Delete { sequence_id, key } => seq![WAL_RECORD_DELETE] + u64_le(sequence_id)
            + u32_le(key.len() as u32) + u32_le(0) + key,
    }
}

/// The checksum of a payload.
pub open spec fn wal_checksum(payload: Seq<u8>) -> u64 {
    xxh3_64(WAL_CHECKSUM_SEED, payload)
}

/// The bytes of a framed record: payload length, payload checksum, payload.
pub open spec fn wal_frame(r: WalRecordView) -> Seq<u8> {
    let p = wal_payload(r);
    u32_le(p.len() as u32) + u64_le(wal_checksum(p)) + p
}

/// What the payload at the start of `s` decodes to and how many bytes it
/// spans, or why it does not decode.
pub open spec fn parse_wal_payload_prefix(s: Seq<u8>) -> core::result::Result<
    (WalRecordView, nat),
    EngineError,
> {
    if s.len() < 1 {
        Err(EngineError::CorruptFormat("truncated u8"))
    } else if s.len() < 9 {
        Err(take_error(1, 8))
    } else if s.len() < 13 {
        Err(take_error(9, 4))
    } else if s.len() < 17 {
        Err(take_error(13, 4))
    } else {
        let kl = u32_at(s, 9) as int;
        let vl = u32_at(s, 13) as int;
        let seq_id = u64_at(s, 1);
        if 17 + kl > s.len() {
            Err(take_error(17, kl))
        } else if s[0] == WAL_RECORD_PUT {
            if 17 + kl + vl > s.len() {
                Err(take_error(17 + kl, vl))
            } else {
                Ok(
                    (
                        WalRecordView::Put {
                            sequence_id: seq_id,
                            key: s.subrange(17, 17 + kl),
                            value: s.subrange(17 + kl, 17 + kl + vl),
                        },
                        (17 + kl + vl) as nat,
                    ),
                )
            }
        } else if s[0] == WAL_RECORD_DELETE {
            if vl != 0 {
                Err(EngineError::CorruptWal("delete record has value bytes"))
            } else {
                Ok(
                    (
                        WalRecordView::Delete { sequence_id: seq_id, key: s.subrange(17, 17 + kl) },
                        (17 + kl) as nat,
                    ),
                )
            }
        } else {
            Err(EngineError::CorruptWal("unknown record type"))
        }
    }
}

/// What a payload that must span all of `s` decodes to, or why it does not.
pub open spec fn parse_wal_payload(s: Seq<u8>) -> core::result::Result<WalRecordView, EngineError> {
    match parse_wal_payload_prefix(s) {
        Ok((r, n)) => if n < s.len() {
            Err(EngineError::CorruptWal("trailing record bytes"))
        } else {
            Ok(r)
        },
        Err(e) => Err(e),
    }
}

/// What the framed record at the start of `s` decodes to and how many bytes
/// it spans, or why it does not decode; `base` is the offset of `s` in the
/// decoder's input.
pub open spec fn parse_wal_frame(s: Seq<u8>, base: int) -> core::result::Result<
    (WalRecordView, nat),
    EngineError,
> {
    if s.len() < 4 {
        Err(take_error(base, 4))
    } else if s.len() < 12 {
        Err(take_error(base + 4, 8))
    } else {
        let len = u32_at(s, 0) as int;
        if 12 + len > s.len() {
            Err(take_error(base + 12, len))
        } else {
            let payload = s.subrange(12, 12 + len);
            if wal_checksum(payload) != u64_at(s, 4) {
                Err(EngineError::CorruptWal("checksum mismatch"))
            } else {
                match parse_wal_payload(payload) {
                    Ok(r) => Ok((r, (12 + len) as nat)),
                    Err(e) => Err(e),
                }
            }
        }
    }
}

/// What a log of framed records decodes to, or the first reason it does not;
/// `base` is the offset of `s` in the decoder's input.
pub open spec fn parse_wal_log(s: Seq<u8>, base: int) -> core::result::Result<
    Seq<WalRecordView>,
    EngineError,
>
    decreases s.len(),
{
    if s.len() == 0 {
        Ok(Seq::empty())
    } else {
        match parse_wal_frame(s, base) {
            Ok((r, n)) => if 12 <= n <= s.len() {
                match parse_wal_log(s.skip(n as int), base + n) {
                    Ok(rest) => Ok(seq![r] + rest),
                    Err(e) => Err(e),
                }
            } else {
                Err(EngineError::CorruptWal("checksum mismatch"))
            },
            Err(e) => Err(e),
        }
    }
}

/// The bytes of a log that holds `rs`, in order.
pub open spec fn wal_log(rs: Seq<WalRecordView>) -> Seq<u8>
    decreases rs.len(),
{
    if rs.len() == 0 {
        Seq::empty()
    } else {
        wal_frame(rs[0]) + wal_log(rs.drop_first())
    }
}

/// A record read from a log has a key and value no longer than their
/// 32-bit length fields, and spans at least its key, value and a byte
/// more.
proof fn lemma_parsed_frame(s: Seq<u8>, base: int)
    ensures
        parse_wal_frame(s, base) matches Ok((r, n)) ==> {
            &&& r.key().len() <= u32::MAX
            &&& r.value_len() <= u32::MAX
            &&& r.key().len() + r.value_len() + 1 <= n
        },
{
    if let Ok((r, n)) = parse_wal_frame(s, base) {
        let len = u32_at(s, 0) as int;
        let payload = s.subrange(12, 12 + len);
        let (r2, m) = parse_wal_payload_prefix(payload).unwrap();
        assert(m <= payload.len());
    }
}

/// The records a log holds have keys and values that fit their 32-bit
/// length fields, and together no more bytes than the log.
pub proof fn lemma_parsed_log(s: Seq<u8>, base: int)
    ensures
        parse_wal_log(s, base) matches Ok(rs) ==> {
            &&& forall|i: int| 0 <= i < rs.len() ==> (#[trigger] rs[i]).key().len() <= u32::MAX && rs[i].value_len() <= u32::MAX
            &&& log_bytes(rs) <= s.len()
        },
    decreases s.len(),
{
    if s.len() > 0 {
        lemma_parsed_frame(s, base);
        if let Ok((r, n)) = parse_wal_frame(s, base) {
            if 12 <= n <= s.len() {
                lemma_parsed_log(s.skip(n as int), base + n);
                if let Ok(rest) = parse_wal_log(s.skip(n as int), base + n) {
                    let all = seq![r] + rest;
                    assert(all.drop_first() =~= rest);
                    assert forall|i: int| 0 <= i < all.len() implies (#[trigger] all[i]).key().len() <= u32::MAX && all[i].value_len() <= u32::MAX by {
                        if i > 0 {
                            assert(all[i] == rest[i - 1]);
                        }
                    }
                }
            }
        }
    }
}

/// The bytes that records' keys and values take, with a byte more each.
pub open spec fn log_bytes(rs: Seq<WalRecordView>) -> nat
    decreases rs.len(),
{
    if rs.len() == 0 {
        0
    } else {
        rs[0].key().len() + rs[0].value_len() + 1 + log_bytes(rs.drop_first())
    }
}

/// A payload decodes back to the record it encodes.
pub proof fn lemma_payload_round_trip(r: WalRecordView)
    requires
        r.wf(),
    ensures
        wal_payload(r).len() == WAL_PAYLOAD_HEADER_LEN + r.key().len() + r.value_len(),
        parse_wal_payload(wal_payload(r)) == Ok::<WalRecordView, EngineError>(r),
{
    lemma_le_round_trip();
    let s = wal_payload(r);
    match r {
        WalRecordView::Put { sequence_id, key, value } => {
            let a = u64_le(sequence_id);
            let b = u32_le(key.len() as u32);
            let c = u32_le(value.len() as u32);
            assert(s.subrange(1, 9) =~= a);
            assert(s.subrange(9, 13) =~= b);
            assert(s.subrange(13, 17) =~= c);
            assert(a.subrange(0, 8) =~= a);
            assert(b.subrange(0, 4) =~= b);
            assert(c.subrange(0, 4) =~= c);
            assert(s.subrange(17, 17 + key.len() as int) =~= key);
            assert(s.subrange(17 + key.len() as int, 17 + key.len() + value.len() as int) =~= value);
        },
        WalRecordView::Delete { sequence_id, key } => {
            let a = u64_le(sequence_id);
            let b = u32_le(key.len() as u32);
            let c = u32_le(0);
            assert(s.subrange(1, 9) =~= a);
            assert(s.subrange(9, 13) =~= b);
            assert(s.subrange(13, 17) =~= c);
            assert(a.subrange(0, 8) =~= a);
            assert(b.subrange(0, 4) =~= b);
            assert(c.subrange(0, 4) =~= c);
            assert(s.subrange(17, 17 + key.len() as int) =~= key);
        },
    }
}

/// A framed record at the start of any byte string decodes to the record and
/// spans exactly its frame.
pub proof fn lemma_frame_round_trip(r: WalRecordView, rest: Seq<u8>)
    requires
        r.wf(),
    ensures
        forall|base: int| parse_wal_frame(wal_frame(r) + rest, base) == Ok::<(WalRecordView, nat), EngineError>(
            (r, wal_frame(r).len()),
        ),
        wal_frame(r).len() == WAL_FRAME_HEADER_LEN + wal_payload(r).len(),
{
    lemma_le_round_trip();
    lemma_payload_round_trip(r);
    let p = wal_payload(r);
    let a = u32_le(p.len() as u32);
    let b = u64_le(wal_checksum(p));
    let s = wal_frame(r) + rest;
    assert(s.subrange(0, 4) =~= a);
    assert(s.subrange(4, 12) =~= b);
    assert(a.subrange(0, 4) =~= a);
    assert(b.subrange(0, 8) =~= b);
    assert(s.subrange(12, 12 + p.len() as int) =~= p);
}

/// A log decodes back to the records it holds, in order.
pub proof fn lemma_log_round_trip(rs: Seq<WalRecordView>)
    requires
        forall|i: int| 0 <= i < rs.len() ==> (#[trigger] rs[i]).wf(),
    ensures
        forall|base: int| parse_wal_log(wal_log(rs), base) == Ok::<Seq<WalRecordView>, EngineError>(rs),
    decreases rs.len(),
{
    if rs.len() > 0 {
        let rest = wal_log(rs.drop_first());
        lemma_frame_round_trip(rs[0], rest);
        assert forall|i: int| 0 <= i < rs.drop_first().len() implies (#[trigger] rs.drop_first()[i]).wf() by {
            assert(rs.drop_first()[i] == rs[i + 1]);
        }
        lemma_log_round_trip(rs.drop_first());
        let s = wal_log(rs);
        assert forall|base: int| parse_wal_log(s, base) == Ok::<Seq<WalRecordView>, EngineError>(rs) by {
            assert(s.skip(wal_frame(rs[0]).len() as int) =~= rest);
            assert(seq![rs[0]] + rs.drop_first() =~= rs);
            assert(wal_frame(rs[0]).len() <= s.len());
            assert(parse_wal_frame(s, base) == Ok::<(WalRecordView, nat), EngineError>((rs[0], wal_frame(rs[0]).len())));
            assert(parse_wal_log(rest, base + wal_frame(rs[0]).len()) == Ok::<Seq<WalRecordView>, EngineError>(rs.drop_first()));
        }
    } else {
        assert(rs =~= Seq::<WalRecordView>::empty());
    }
}

/// The checksum of `bytes` under the log's seed.
pub(crate) fn checksum(bytes: &[u8]) -> (r: u64)
    ensures
        r == wal_checksum(bytes@),
{
    xxh3_64_with_seed(WAL_CHECKSUM_SEED, bytes)
}

impl WalRecord {
    /// A write of `value` to `key`.
    pub fn put(sequence_id: u64, key: Vec<u8>, value: Vec<u8>) -> (r: Self)
        ensures
            r@ == (WalRecordView::Put { sequence_id, key: key@, value: value@ }),
    {
        WalRecord::Put { sequence_id, key, value }
    }

    /// A deletion of `key`.
    pub fn delete(sequence_id: u64, key: Vec<u8>) -> (r: Self)
        ensures
            r@ == (WalRecordView::Delete { sequence_id, key: key@ }),
    {
        WalRecord::Delete { sequence_id, key }
    }

    /// The record's sequence number.
    pub fn sequence_id(&self) -> (r: u64)
        ensures
            r == self@.sequence_id(),
    {
        match self {
            WalRecord::Put { sequence_id, .. } => *sequence_id,
            WalRecord::Delete { sequence_id, .. } => *sequence_id,
        }
    }

    /// The key the record writes or deletes.
    pub fn key(&self) -> (r: &[u8])
        ensures
            r@ == self@.key(),
    {
        match self {
            WalRecord::Put { key, .. } => key.as_slice(),
            WalRecord::Delete { key, .. } => key.as_slice(),
        }
    }

    /// An equal, separately owned record.
    pub fn duplicate(&self) -> (r: Self)
        ensures
            r@ == self@,
    {
        match self {
            WalRecord::Put { sequence_id, key, value } => WalRecord::Put {
                sequence_id: *sequence_id,
                key: copy_bytes(key.as_slice()),
                value: copy_bytes(value.as_slice()),
            },
            WalRecord::Delete { sequence_id, key } => WalRecord::Delete {
                sequence_id: *sequence_id,
                key: copy_bytes(key.as_slice()),
            },
        }
    }

    /// Length of the payload.
    fn payload_len(&self) -> (r: usize)
        requires
            self@.wf(),
        ensures
            r == wal_payload(self@).len(),
    {
        proof {
            lemma_payload_round_trip(self@);
        }
        match self {
            WalRecord::Put { key, value, .. } => 1 + 8 + 4 + 4 + key.len() + value.len(),
            WalRecord::Delete { key, .. } => 1 + 8 + 4 + 4 + key.len(),
        }
    }

    /// Appends the payload to `payload`.
    fn encode_payload_to(&self, payload: &mut Encoder)
        requires
            self@.wf(),
        ensures
            final(payload)@ == old(payload)@ + wal_payload(self@),
    {
        match self {
            WalRecord::Put { sequence_id, key, value } => {
                payload.write_u8(WAL_RECORD_PUT);
                payload.write_u64(*sequence_id);
                payload.write_u32(key.len() as u32);
                payload.write_u32(value.len() as u32);
                payload.write_bytes(key.as_slice());
                payload.write_bytes(value.as_slice());
                assert(payload@ =~= old(payload)@ + wal_payload(self@));
            },
            WalRecord::Delete { sequence_id, key } => {
                payload.write_u8(WAL_RECORD_DELETE);
                payload.write_u64(*sequence_id);
                payload.write_u32(key.len() as u32);
                payload.write_u32(0);
                payload.write_bytes(key.as_slice());
                assert(payload@ =~= old(payload)@ + wal_payload(self@));
            },
        }
    }

    /// The payload's checksum.
    fn checksum_payload(&self) -> (r: u64)
        requires
            self@.wf(),
        ensures
            r == wal_checksum(wal_payload(self@)),
    {
        let mut payload = Encoder::new();
        self.encode_payload_to(&mut payload);
        let bytes = payload.finish();
        checksum(bytes.as_slice())
    }

    /// Length of the framed record.
    pub fn encoded_len(&self) -> (r: usize)
        requires
            self@.wf(),
            WAL_FRAME_HEADER_LEN + WAL_PAYLOAD_HEADER_LEN + self@.key().len() + self@.value_len() <= usize::MAX,
        ensures
            r == wal_frame(self@).len(),
    {
        proof {
            lemma_frame_round_trip(self@, Seq::empty());
            lemma_payload_round_trip(self@);
        }
        WAL_FRAME_HEADER_LEN + self.payload_len()
    }

    /// Appends the framed record: payload length, checksum, payload.
    pub fn encode_to(&self, encoder: &mut Encoder)
        requires
            self@.wf(),
        ensures
            final(encoder)@ == old(encoder)@ + wal_frame(self@),
    {
        let len = self.payload_len();
        encoder.write_u32(len as u32);
        encoder.write_u64(self.checksum_payload());
        self.encode_payload_to(encoder);
        assert(encoder@ =~= old(encoder)@ + wal_frame(self@));
    }

    /// The framed record's bytes.
    pub fn encode(&self) -> (r: Vec<u8>)
        requires
            self@.wf(),
        ensures
            r@ == wal_frame(self@),
    {
        let mut encoder = Encoder::new();
        self.encode_to(&mut encoder);
        assert(encoder@ =~= wal_frame(self@));
        encoder.finish()
    }

    /// Decodes the framed record at the decoder's cursor, checking its
    /// checksum.
    pub fn decode_from(decoder: &mut Decoder<'_>) -> (r: Result<Self>)
        ensures
            final(decoder).data() == old(decoder).data(),
            final(decoder).pos() <= final(decoder).data().len(),
            match parse_wal_frame(old(decoder).rest(), old(decoder).pos()) {
                Ok((v, n)) => r matches Ok(x) && x@ == v && final(decoder).pos() == old(decoder).pos() + n,
                Err(e) => r == Err::<Self, EngineError>(e),
            },
    {
        let ghost d = decoder.data();
        let ghost p0 = decoder.pos();
        let ghost rest = old(decoder).rest();
        let record_len = match decoder.read_u32() {
            Ok(v) => v as usize,
            Err(e) => {
                assert(rest.len() == d.len() - p0);
                return Err(e);
            },
        };
        proof {
            assert(rest.len() == d.len() - p0);
            assert(rest.subrange(0, 4) =~= d.subrange(p0, p0 + 4));
        }
        let expected_checksum = match decoder.read_u64() {
            Ok(v) => v,
            Err(e) => {
                return Err(e);
            },
        };
        proof {
            assert(rest.subrange(4, 12) =~= d.subrange(p0 + 4, p0 + 12));
        }
        let record_bytes = match decoder.read_bytes(record_len) {
            Ok(b) => b,
            Err(e) => {
                return Err(e);
            },
        };
        proof {
            assert(rest.subrange(12, 12 + record_len) =~= record_bytes@);
        }
        let actual_checksum = checksum(record_bytes);
        if actual_checksum != expected_checksum {
            return Err(EngineError::CorruptWal("checksum mismatch"));
        }
        Self::decode_payload(record_bytes)
    }

    /// Decodes a payload that must span all of `bytes`.
    pub(crate) fn decode_payload(bytes: &[u8]) -> (r: Result<Self>)
        ensures
            match parse_wal_payload(bytes@) {
                Ok(v) => r matches Ok(x) && x@ == v,
                Err(e) => r == Err::<Self, EngineError>(e),
            },
    {
        let mut decoder = Decoder::new(bytes);
        let record = Self::decode_payload_from(&mut decoder)?;
        if !decoder.is_finished() {
            return Err(EngineError::CorruptWal("trailing record bytes"));
        }
        Ok(record)
    }

    /// Decodes a payload from the decoder's cursor on.
    fn decode_payload_from(decoder: &mut Decoder<'_>) -> (r: Result<Self>)
        requires
            old(decoder).pos() == 0,
        ensures
            final(decoder).data() == old(decoder).data(),
            final(decoder).pos() <= final(decoder).data().len(),
            match parse_wal_payload_prefix(old(decoder).data()) {
                Ok((v, n)) => r matches Ok(x) && x@ == v && final(decoder).pos() == n,
                Err(e) => r == Err::<Self, EngineError>(e),
            },
    {
        let ghost s = decoder.data();
        let record_type = decoder.read_u8()?;
        let sequence_id = decoder.read_u64()?;
        let key_len = decoder.read_u32()? as usize;
        let value_len = decoder.read_u32()? as usize;
        let key = copy_bytes(decoder.read_bytes(key_len)?);
        if record_type == WAL_RECORD_PUT {
            let value = copy_bytes(decoder.read_bytes(value_len)?);
            Ok(WalRecord::Put { sequence_id, key, value })
        } else if record_type == WAL_RECORD_DELETE {
            if value_len != 0 {
                return Err(EngineError::CorruptWal("delete record has value bytes"));
            }
            Ok(WalRecord::Delete { sequence_id, key })
        } else {
            Err(EngineError::CorruptWal("unknown record type"))
        }
    }
}

/// Decodes a whole log: framed records one after another, each with its
/// checksum checked, until the bytes run out.
pub fn replay_bytes(bytes: &[u8]) -> (r: Result<Vec<WalRecord>>)
    ensures
        match parse_wal_log(bytes@, 0) {
            Ok(rs) => r matches Ok(v) && v@.len() == rs.len() && forall|i: int|
                0 <= i < rs.len() ==> (#[trigger] v@[i])@ == rs[i],
            Err(e) => r == Err::<Vec<WalRecord>, EngineError>(e),
        },
{
    let mut decoder = Decoder::new(bytes);
    let mut records: Vec<WalRecord> = Vec::new();
    let ghost mut done: Seq<WalRecordView> = Seq::empty();
    assert(decoder.rest() =~= bytes@);
    assert(forall|t: Seq<WalRecordView>| done + t =~= t);
    while !decoder.is_finished()
        invariant
            decoder.data() == bytes@,
            0 <= decoder.pos() <= bytes@.len(),
            records@.len() == done.len(),
            forall|i: int| 0 <= i < done.len() ==> (#[trigger] records@[i])@ == done[i],
            match parse_wal_log(bytes@, 0) {
                Ok(rs) => parse_wal_log(decoder.rest(), decoder.pos()) matches Ok(tail) && rs == done + tail,
                Err(e) => parse_wal_log(decoder.rest(), decoder.pos()) == Err::<Seq<WalRecordView>, EngineError>(e),
            },
        decreases bytes@.len() - decoder.pos(),
    {
        let ghost before = decoder.rest();
        let ghost pos = decoder.pos();
        let record = WalRecord::decode_from(&mut decoder)?;
        proof {
            let (v, n) = parse_wal_frame(before, pos).unwrap();
            lemma_frame_len(before, pos);
            assert(decoder.rest() =~= before.skip(n as int));
            if let Ok(tail) = parse_wal_log(before, pos) {
                let t2 = parse_wal_log(before.skip(n as int), pos + n).unwrap();
                assert(tail =~= seq![v] + t2);
                assert(done.push(v) + t2 =~= done + tail);
            }
            done = done.push(v);
        }
        records.push(record);
    }
    proof {
        assert(decoder.rest().len() == 0);
        if let Ok(rs) = parse_wal_log(bytes@, 0) {
            assert(rs =~= done);
        }
    }
    Ok(records)
}

/// A frame that decodes spans its header and at most the bytes given.
proof fn lemma_frame_len(s: Seq<u8>, base: int)
    ensures
        parse_wal_frame(s, base) matches Ok((v, n)) ==> 12 <= n <= s.len(),
{
}

} // verus!
