# FluxDB

An embedded, transactional key-value store: a B+Tree with multi-version
concurrency control, a buffer pool, a write-ahead log and crash recovery.

`src/` is the engine itself, verified with Verus. It performs no I/O and starts no
threads. Operations change the state in memory and queue file operations; the host
takes the queue and performs it in order.

`app/` is such a host: files in a directory, a lock around the engine, and the
background threads.

Where to start reading:

- `engine.rs` and `txn.rs`: the operations, and what each of them does to the
  records of the index.
- `session.rs` and `versions.rs`: what a transaction reads of its own writes and of
  those of others, and why it sees at most one version of a key.
- `engine_open.rs`, `ledger.rs` and `reopen.rs`: opening a database after a crash, and
  what is there then.
- `chronicle.rs` and `interruption.rs`: the states inside an operation, and what a crash
  leaves of one that it cuts short.
- `store.rs`, `history.rs` and `change.rs`: pages, their log, and how the one is
  rebuilt from the other.
- `tree_spec.rs` and `index*.rs`, `smo.rs`, `unlink.rs`, `compact.rs`, `sweep.rs`,
  `scan.rs`: the B+Tree.
- `downlinks.rs`: every page has one downlink, or the split of its left neighbour is
  incomplete.
- `batch.rs`, `pacing.rs` and `workers.rs`: vacuum in batches, what it has achieved
  whatever others do in between, and the turns of the background threads.
- `transaction_manager.rs` and `mvcc.rs`: snapshots, visibility, conflicts and the
  vacuum horizon.
