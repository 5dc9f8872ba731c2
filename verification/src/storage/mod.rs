pub mod bloom;
pub mod manifest;
pub mod sstable;
