use vstd::prelude::*;

verus! {

/// Size in bytes at which the active memtable is rotated, by default.
pub const DEFAULT_MEMTABLE_THRESHOLD: usize = 4096;

/// Number of immutable memtables kept before flushing, by default.
pub const DEFAULT_MAXIMUM_MEMTABLES: usize = 4;

/// Where the engine keeps its files and when it rotates and flushes
/// memtables.
#[derive(Debug, Clone)]
pub struct EngineConfig {
    pub data_dir: String,
    pub memtable_threshold: usize,
    pub maximum_memtables: usize,
}

impl EngineConfig {
    /// The default configuration for `data_dir`.
    pub fn new(data_dir: &str) -> (c: Self)
        ensures
            c.data_dir@ == data_dir@,
            c.memtable_threshold == DEFAULT_MEMTABLE_THRESHOLD,
            c.maximum_memtables == DEFAULT_MAXIMUM_MEMTABLES,
    {
        EngineConfig {
            data_dir: String::from_str(data_dir),
            memtable_threshold: DEFAULT_MEMTABLE_THRESHOLD,
            maximum_memtables: DEFAULT_MAXIMUM_MEMTABLES,
        }
    }
}

} // verus!
