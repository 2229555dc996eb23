# mini_lsm

A log-structured merge tree with multi-version concurrency control, verified with Verus.

Keys carry a commit timestamp. A write goes to the memtable; full memtables are frozen and
flushed to sorted tables; compactions merge tables and drop the versions that no reader may see
any more. Transactions read a snapshot and their own writes, and can be checked for conflicts
when they commit.

## Layout

- `src/` is the engine. It holds everything in memory as values and bytes: it encodes blocks,
  tables, logs and manifests, but it does no input or output.
  - `key`, `order`, `entry`, `codec`, `bound`: keys, their order, entries and byte encodings.
  - `block`, `table`: blocks and tables, their builders, iterators and filters.
  - `merge`, `iterators`: sorted runs and the iterators that merge them.
  - `version_map`, `mem_table`, `wal`, `manifest`: memtables and logs.
  - `snapshot`, `sources`, `gc`: what readers see, and what a compaction may drop.
  - `lsm_iterator`, `lsm_storage`: scans, reads, writes, flushes, and the laws that tie them
    together (`lsm_storage/laws`).
  - `compact`: the compaction strategies and the compactions themselves.
  - `mvcc`: timestamps, the watermark and transactions.
- `app/` puts the engine on files and threads.
- `tests/` runs the engine.

## How the engine is described

The content of an engine is one sorted sequence of versioned entries: the merge of its sources,
from the memtable to the last level (`LsmStorageState::content`). `lookup` and `snapshot` say
what a reader at a timestamp finds in it. Every operation states what it does to the content, or
to the lookups of readers that are not below the watermark.

## What is taken on trust

- `hash`: FarmHash and CRC-32 depend on their input alone.
- `version_map`: the concurrent skip list behaves as a sorted map.
