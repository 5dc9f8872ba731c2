# pocket_lsm

A small log-structured merge storage engine whose logic is proved with Verus.

## Layout

- `src/` — the verified library.
  - `index/` — keys, values, the `MemTable` trait and its two memtables
    (a skip list and an ordered vector), and the memtable manager that rotates
    a full active memtable into a queue of immutable ones.
  - `wal/` — write-ahead log records and their framed byte format, segments,
    and the manager that numbers writes and rotates segments.
  - `storage/sstable/` — data blocks, the block index, the footer, SSTable
    metadata, the writer that lays a sorted run out as an SSTable file and the
    reader that looks keys up in one.
  - `storage/bloom/` — the Bloom filter over XXH3 hashes and its encoding.
  - `storage/manifest/` — manifest records, their replay into the set of live
    SSTables, manifest rotation and compaction.
  - `current.rs` — the `CURRENT` file that records the ids to resume at.
  - `engine.rs` — the engine: recovery from the files of a data directory,
    writes, flushes and reads. Each operation returns the file changes
    (`FileOp`) that make it durable, in order.
  - `disk.rs` — the files of a data directory as those changes leave them.
  - `workload.rs` — the keys, values, options and steps of the harness
    programs.
- `app/` — the programs: a file-backed engine that performs the file changes
  the library lists, a demonstration run, a performance harness and a crash
  harness.
- `tests/` — tests of the library on concrete values, including a file
  system held in memory for the engine.

## What is proved

Besides a contract on every function, `src/` proves, among others: a write is
read back from the memtables or from the SSTable a flush laid out; writes and
flushes keep each WAL segment's file equal to the log of its records, and those
files recover into the same memtables; every byte format decodes back
what it encodes (WAL records, manifest records, SSTable blocks, block index,
footer, metadata, Bloom filters, `CURRENT`); an SSTable file answers every key
as the sorted entries it was laid out from; a Bloom filter has no false
negatives; manifest compaction keeps the live set; a replayed WAL segment
binds each key to what its last record writes; a `CURRENT` text with a
refused line does not decode.
