//! A small log-structured merge storage engine: memtables, write-ahead log
//! records, SSTable blocks with Bloom filters, manifest records and the
//! recovery metadata file, with their byte formats and contracts.
pub mod config;
pub mod constants;
pub mod current;
pub mod disk;
pub mod ebpf;
pub mod engine;
pub mod error;
pub mod format;
pub mod index;
pub mod sstable;
pub mod storage;
pub mod text;
pub mod wal;
pub mod workload;

pub use config::EngineConfig;
pub use error::{EngineError, Result};
