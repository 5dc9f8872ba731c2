use vstd::prelude::*;

use crate::error::{EngineError, Result};
use crate::format::{
    copy_bytes, lemma_le_round_trip, take_error, u32_at, u32_le, u64_at, u64_le, Decoder, Encoder,
};

verus! {

/// What the manifest records of an SSTable: its file id, level, key range
/// and file size.
#[derive(Debug, PartialEq, Eq)]
pub struct SSTableMeta {
    file_id: u64,
    level: u32,
    smallest_key: Vec<u8>,
    largest_key: Vec<u8>,
    file_size: u64,
}

/// The contents of an `SSTableMeta`.
pub struct SSTableMetaView {
    pub file_id: u64,
    pub level: u32,
    pub smallest_key: Seq<u8>,
    pub largest_key: Seq<u8>,
    pub file_size: u64,
}

impl View for SSTableMeta {
    type V = SSTableMetaView;

    closed spec fn view(&self) -> SSTableMetaView {
        SSTableMetaView {
            file_id: self.file_id,
            level: self.level,
            smallest_key: self.smallest_key@,
            largest_key: self.largest_key@,
            file_size: self.file_size,
        }
    }
}

impl SSTableMetaView {
    /// The key lengths fit their 32-bit length fields.
    pub open spec fn wf(self) -> bool {
        &&& self.smallest_key.len() <= u32::MAX
        &&& self.largest_key.len() <= u32::MAX
    }
}

/// The bytes of a metadata record: file id, level, the two length-prefixed
/// keys, file size.
pub open spec fn meta_bytes(m: SSTableMetaView) -> Seq<u8> {
    u64_le(m.file_id) + u32_le(m.level) + u32_le(m.smallest_key.len() as u32) + m.smallest_key
        + u32_le(m.largest_key.len() as u32) + m.largest_key + u64_le(m.file_size)
}

/// What the metadata record at the start of `s` decodes to and how many
/// bytes it spans, or why it does not decode; `base` is the offset of `s`
/// in the decoder's input.
pub open spec fn parse_meta(s: Seq<u8>, base: int) -> core::result::Result<
    (SSTableMetaView, nat),
    EngineError,
> {
    if s.len() < 8 {
        Err(take_error(base, 8))
    } else if s.len() < 12 {
        Err(take_error(base + 8, 4))
    } else if s.len() < 16 {
        Err(take_error(base + 12, 4))
    } else {
        let a = u32_at(s, 12) as int;
        if 16 + a > s.len() {
            Err(take_error(base + 16, a))
        } else if 16 + a + 4 > s.len() {
            Err(take_error(base + 16 + a, 4))
        } else {
            let b = u32_at(s, 16 + a) as int;
            if 20 + a + b > s.len() {
                Err(take_error(base + 20 + a, b))
            } else if 28 + a + b > s.len() {
                Err(take_error(base + 20 + a + b, 8))
            } else {
                Ok(
                    (
                        SSTableMetaView {
                            file_id: u64_at(s, 0),
                            level: u32_at(s, 8),
                            smallest_key: s.subrange(16, 16 + a),
                            largest_key: s.subrange(20 + a, 20 + a + b),
                            file_size: u64_at(s, 20 + a + b),
                        },
                        (28 + a + b) as nat,
                    ),
                )
            }
        }
    }
}

/// A metadata record at the start of any byte string decodes to the
/// metadata and spans exactly its encoding.
pub proof fn lemma_meta_round_trip(m: SSTableMetaView, rest: Seq<u8>, base: int)
    requires
        m.wf(),
    ensures
        meta_bytes(m).len() == 28 + m.smallest_key.len() + m.largest_key.len(),
        parse_meta(meta_bytes(m) + rest, base) == Ok::<(SSTableMetaView, nat), EngineError>(
            (m, meta_bytes(m).len()),
        ),
{
    lemma_le_round_trip();
    let s = meta_bytes(m) + rest;
    let a = m.smallest_key.len() as int;
    let b = m.largest_key.len() as int;
    let e0 = u64_le(m.file_id);
    let e1 = u32_le(m.level);
    let e2 = u32_le(a as u32);
    let e3 = u32_le(b as u32);
    let e4 = u64_le(m.file_size);
    assert(s.subrange(0, 8) =~= e0.subrange(0, 8));
    assert(s.subrange(8, 12) =~= e1.subrange(0, 4));
    assert(s.subrange(12, 16) =~= e2.subrange(0, 4));
    assert(s.subrange(16, 16 + a) =~= m.smallest_key);
    assert(s.subrange(16 + a, 20 + a) =~= e3.subrange(0, 4));
    assert(s.subrange(20 + a, 20 + a + b) =~= m.largest_key);
    assert(s.subrange(20 + a + b, 28 + a + b) =~= e4.subrange(0, 8));
}

impl SSTableMeta {
    /// Metadata with the given fields.
    pub fn new(
        file_id: u64,
        level: u32,
        smallest_key: Vec<u8>,
        largest_key: Vec<u8>,
        file_size: u64,
    ) -> (m: Self)
        ensures
            m@ == (SSTableMetaView {
                file_id,
                level,
                smallest_key: smallest_key@,
                largest_key: largest_key@,
                file_size,
            }),
    {
        SSTableMeta { file_id, level, smallest_key, largest_key, file_size }
    }

    pub fn file_id(&self) -> (r: u64)
        ensures
            r == self@.file_id,
    {
        self.file_id
    }

    pub fn level(&self) -> (r: u32)
        ensures
            r == self@.level,
    {
        self.level
    }

    pub fn smallest_key(&self) -> (r: &[u8])
        ensures
            r@ == self@.smallest_key,
    {
        self.smallest_key.as_slice()
    }

    pub fn largest_key(&self) -> (r: &[u8])
        ensures
            r@ == self@.largest_key,
    {
        self.largest_key.as_slice()
    }

    pub fn file_size(&self) -> (r: u64)
        ensures
            r == self@.file_size,
    {
        self.file_size
    }

    /// An equal, separately owned copy.
    pub fn duplicate(&self) -> (r: Self)
        ensures
            r@ == self@,
    {
        SSTableMeta {
            file_id: self.file_id,
            level: self.level,
            smallest_key: copy_bytes(self.smallest_key.as_slice()),
            largest_key: copy_bytes(self.largest_key.as_slice()),
            file_size: self.file_size,
        }
    }

    /// Length of the encoding.
    pub fn encoded_len(&self) -> (r: usize)
        requires
            self@.wf(),
            28 + self@.smallest_key.len() + self@.largest_key.len() <= usize::MAX,
        ensures
            r == meta_bytes(self@).len(),
    {
        proof {
            lemma_meta_round_trip(self@, Seq::empty(), 0);
        }
        8 + 4 + 4 + self.smallest_key.len() + 4 + self.largest_key.len() + 8
    }

    /// Appends the encoding.
    pub fn encode_to(&self, encoder: &mut Encoder)
        ensures
            final(encoder)@ == old(encoder)@ + meta_bytes(self@),
    {
        encoder.write_u64(self.file_id);
        encoder.write_u32(self.level);
        encoder.write_u32(self.smallest_key.len() as u32);
        encoder.write_bytes(self.smallest_key.as_slice());
        encoder.write_u32(self.largest_key.len() as u32);
        encoder.write_bytes(self.largest_key.as_slice());
        encoder.write_u64(self.file_size);
        assert(encoder@ =~= old(encoder)@ + meta_bytes(self@));
    }

    /// Decodes the metadata record at the decoder's cursor.
    pub fn decode_from(decoder: &mut Decoder<'_>) -> (r: Result<Self>)
        ensures
            final(decoder).data() == old(decoder).data(),
            final(decoder).pos() <= final(decoder).data().len(),
            match parse_meta(old(decoder).rest(), old(decoder).pos()) {
                Ok((v, n)) => r matches Ok(x) && x@ == v && final(decoder).pos() == old(decoder).pos() + n,
                Err(e) => r == Err::<Self, EngineError>(e),
            },
    {
        let ghost d = decoder.data();
        let ghost p0 = decoder.pos();
        let ghost s = old(decoder).rest();
        let file_id = decoder.read_u64()?;
        assert(s.subrange(0, 8) =~= d.subrange(p0, p0 + 8));
        let level = decoder.read_u32()?;
        assert(s.subrange(8, 12) =~= d.subrange(p0 + 8, p0 + 12));
        let smallest_key_len = decoder.read_u32()? as usize;
        assert(s.subrange(12, 16) =~= d.subrange(p0 + 12, p0 + 16));
        let smallest_key = copy_bytes(decoder.read_bytes(smallest_key_len)?);
        let ghost a = smallest_key_len as int;
        assert(s.subrange(16, 16 + a) =~= d.subrange(p0 + 16, p0 + 16 + a));
        let largest_key_len = decoder.read_u32()? as usize;
        assert(s.subrange(16 + a, 20 + a) =~= d.subrange(p0 + 16 + a, p0 + 20 + a));
        let largest_key = copy_bytes(decoder.read_bytes(largest_key_len)?);
        let ghost b = largest_key_len as int;
        assert(s.subrange(20 + a, 20 + a + b) =~= d.subrange(p0 + 20 + a, p0 + 20 + a + b));
        let file_size = decoder.read_u64()?;
        assert(s.subrange(20 + a + b, 28 + a + b) =~= d.subrange(p0 + 20 + a + b, p0 + 28 + a + b));
        Ok(SSTableMeta { file_id, level, smallest_key, largest_key, file_size })
    }
}

} // verus!
