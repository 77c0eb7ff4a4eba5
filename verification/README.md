# easy_lsm

The logic of a small LSM-tree database (`put`, `get`, `del`), verified with Verus.

- `src/` is the library. `data_stores` holds the formats and the stores: keys, values, write-ahead
  logs, memtables, tables, Bloom filters and manifests. `write_req` is the group-commit protocol,
  `db` recovers the state and reads through its layers, and `compact` plans, merges, commits and
  collects garbage. `compact/laws.rs`, `compact/answers.rs`, `compact/numbers.rs` and `order.rs`
  state what holds across operations: levels stay sorted and apart, no number is given out
  twice, and a read finds the newest version of a key.
- `app/` does the I/O: files, threads and locks around the library's steps.
- `tests/` runs the library on files that are kept in memory.
