use vstd::prelude::*;

use crate::constants::SSTABLE_MAGIC;
use crate::error::{EngineError, Result};
use crate::format::{lemma_le_round_trip, u64_at, u64_le, Decoder, Encoder};

verus! {

/// Length of an encoded footer: five 64-bit fields.
pub const FOOTER_LEN: usize = 40;

/// The end of an SSTable file: where its block index and Bloom filter are.
#[derive(Debug, Clone, Copy, PartialEq, Eq, Structural)]
pub struct Footer {
    pub magic: u64,
    pub block_index_offset: u64,
    pub block_index_len: u64,
    pub bloom_offset: u64,
    pub bloom_len: u64,
}

/// The bytes of a footer: its five fields, little-endian, in order.
pub open spec fn footer_bytes(f: Footer) -> Seq<u8> {
    u64_le(f.magic) + u64_le(f.block_index_offset) + u64_le(f.block_index_len) + u64_le(
        f.bloom_offset,
    ) + u64_le(f.bloom_len)
}

/// What a footer decodes to, or why it does not.
pub open spec fn parse_footer(s: Seq<u8>) -> core::result::Result<Footer, EngineError> {
    if s.len() != FOOTER_LEN {
        Err(EngineError::CorruptFormat("invalid footer length"))
    } else if u64_at(s, 0) != SSTABLE_MAGIC {
        Err(EngineError::CorruptFormat("invalid footer magic"))
    } else {
        Ok(
            Footer {
                magic: u64_at(s, 0),
                block_index_offset: u64_at(s, 8),
                block_index_len: u64_at(s, 16),
                bloom_offset: u64_at(s, 24),
                bloom_len: u64_at(s, 32),
            },
        )
    }
}

/// A footer with the SSTable magic decodes back to itself.
pub proof fn lemma_footer_round_trip(f: Footer)
    requires
        f.magic == SSTABLE_MAGIC,
    ensures
        footer_bytes(f).len() == FOOTER_LEN,
        parse_footer(footer_bytes(f)) == Ok::<Footer, EngineError>(f),
{
    lemma_le_round_trip();
    let s = footer_bytes(f);
    assert(s.subrange(0, 8) =~= u64_le(f.magic).subrange(0, 8));
    assert(s.subrange(8, 16) =~= u64_le(f.block_index_offset).subrange(0, 8));
    assert(s.subrange(16, 24) =~= u64_le(f.block_index_len).subrange(0, 8));
    assert(s.subrange(24, 32) =~= u64_le(f.bloom_offset).subrange(0, 8));
    assert(s.subrange(32, 40) =~= u64_le(f.bloom_len).subrange(0, 8));
}

impl Footer {
    /// A footer with the SSTable magic and the given locations.
    pub fn new(block_index_offset: u64, block_index_len: u64, bloom_offset: u64, bloom_len: u64) -> (f: Self)
        ensures
            f == (Footer { magic: SSTABLE_MAGIC, block_index_offset, block_index_len, bloom_offset, bloom_len }),
    {
        Footer { magic: SSTABLE_MAGIC, block_index_offset, block_index_len, bloom_offset, bloom_len }
    }

    /// The footer's bytes.
    pub fn encode(&self) -> (r: Vec<u8>)
        ensures
            r@ == footer_bytes(*self),
    {
        let mut encoder = Encoder::with_capacity(FOOTER_LEN);
        encoder.write_u64(self.magic);
        encoder.write_u64(self.block_index_offset);
        encoder.write_u64(self.block_index_len);
        encoder.write_u64(self.bloom_offset);
        encoder.write_u64(self.bloom_len);
        assert(encoder@ =~= footer_bytes(*self));
        encoder.finish()
    }

    /// Decodes a footer, checking its length and magic.
    pub fn decode(bytes: &[u8]) -> (r: Result<Self>)
        ensures
            r == parse_footer(bytes@),
    {
        if bytes.len() != FOOTER_LEN {
            return Err(EngineError::CorruptFormat("invalid footer length"));
        }
        let mut decoder = Decoder::new(bytes);
        let magic = decoder.read_u64()?;
        if magic != SSTABLE_MAGIC {
            return Err(EngineError::CorruptFormat("invalid footer magic"));
        }
        let block_index_offset = decoder.read_u64()?;
        let block_index_len = decoder.read_u64()?;
        let bloom_offset = decoder.read_u64()?;
        let bloom_len = decoder.read_u64()?;
        Ok(Footer { magic, block_index_offset, block_index_len, bloom_offset, bloom_len })
    }
}

} // verus!
