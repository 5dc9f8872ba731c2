use vstd::prelude::*;

verus! {

/// Tag byte of a `Put` record in the write-ahead log.
pub const WAL_RECORD_PUT: u8 = 1;

/// Tag byte of a `Delete` record in the write-ahead log.
pub const WAL_RECORD_DELETE: u8 = 2;

/// Seed of the checksum that guards each write-ahead log record.
pub const WAL_CHECKSUM_SEED: u64 = 0x5741_4c5f_4352_4353;

/// Magic number that opens every manifest record.
pub const MANIFEST_RECORD_MAGIC: u64 = 0x4d41_4e49_4645_5354;

/// Tag byte of a manifest record that adds an SSTable.
pub const MANIFEST_RECORD_PUT: u8 = 1;

/// Tag byte of a manifest record that removes an SSTable.
pub const MANIFEST_RECORD_DELETE: u8 = 2;

/// Magic number at the start of an SSTable footer.
pub const SSTABLE_MAGIC: u64 = 0x5353_5441_424c_4501;

/// Largest encoded size of a data block the writer aims for.
pub const SSTABLE_DEFAULT_BLOCK_LEN: usize = 4096;

/// Kind byte of a data-block entry that holds a value.
pub const SSTABLE_VALUE_KIND_PUT: u8 = 0;

/// Kind byte of a data-block entry that holds a tombstone.
pub const SSTABLE_VALUE_KIND_TOMBSTONE: u8 = 1;

/// Number of forward levels of a skip-list head node.
pub const SKIP_LIST_DEFAULT_LEVEL: usize = 12;

/// Initial state of the skip list's level generator.
pub const SKIP_LIST_DEFAULT_RNG_SEED: u64 = 0x9e37_79b9_7f4a_7c15;

} // verus!
