use vstd::prelude::*;

verus! {

/// The errors of the storage engine.
///
/// `Io` carries the description of an operating-system error raised by the
/// code that reads and writes files; the `Corrupt*` variants name the check
/// of a byte format that failed.
#[derive(Debug, PartialEq, Eq)]
pub enum EngineError {
    Io(String),
    InvalidPageSize { expected: usize, actual: usize },
    KeyNotFound,
    ClockWentBackwards,
    CorruptFormat(&'static str),
    CorruptWal(&'static str),
    CorruptBloomFilter(&'static str),
}

/// Result of the engine's operations.
pub type Result<T> = core::result::Result<T, EngineError>;

} // verus!
