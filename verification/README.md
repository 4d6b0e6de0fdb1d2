# mini-lsm-starter

The core of a small LSM-tree storage engine, written in Verus and proved against
its contracts.

- `src/block*`: blocks of sorted, prefix-compressed key-value entries; the
  builder, the iterator (with binary-search seeks) and a checking decoder that
  reads back what the encoder writes.
- `src/table*`: the SST builder, which splits entries into blocks and keeps block
  metadata and key hashes.
- `src/compact*`: simple leveled, leveled and tiered compaction: generating tasks
  and applying their results to the engine's state.
- `src/lsm_storage.rs`: the engine's state (memtable ids, L0, levels, SST table),
  flushes, full compaction, recovery from manifest records, and the SSTs that
  lookups and scans read.
- `src/iterators*`: seeking in a sorted run of SSTs.
- `src/manifest.rs`, `src/wal.rs`: the framed manifest and write-ahead log formats.
- `app/`: files, serde forms of manifest records, and the floating-point choices of
  compaction, around the verified core.

The laws the library keeps (read-back of logs, frames and encoded blocks,
conservation of SSTs by compaction, sortedness of levels, ...) are public proof
functions beside the code they speak of.
