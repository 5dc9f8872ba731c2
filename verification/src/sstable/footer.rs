use vstd::prelude::*;

verus! {

/// Magic number that ends an SSTable file.
pub const SSTABLE_MAGIC: u64 = 0x5353_5441_424c_4501;

/// Where an SSTable's index lies, with the file's magic number.
#[derive(Debug, Clone, Copy, PartialEq, Eq, Structural)]
pub struct Footer {
    pub index_offset: u64,
    pub index_len: u64,
    pub magic: u64,
}

impl Footer {
    /// A footer locating the index, with the SSTable magic.
    pub fn new(index_offset: u64, index_len: u64) -> (f: Self)
        ensures
            f == (Footer { index_offset, index_len, magic: SSTABLE_MAGIC }),
    {
        Footer { index_offset, index_len, magic: SSTABLE_MAGIC }
    }
}

} // verus!
