//! FluxDB: an embedded, transactional storage engine.
//!
//! The crate is the engine's logic, free of I/O and threads: page formats, the
//! write-ahead log, MVCC bookkeeping, the buffer pool, the B+Tree and recovery.
//! A host program reads and writes the files and serialises access.

pub mod aftermath;
pub mod batch;
pub mod bytes;
pub mod change;
pub mod checkpoint;
pub mod chronicle;
pub mod codec;
pub mod compact;
pub mod conduct;
pub mod constants;
pub mod disk;
pub mod downlinks;
pub mod engine;
pub mod engine_open;
pub mod error;
pub mod free_space;
pub mod history;
pub mod id_map;
pub mod index;
pub mod index_edit;
pub mod index_open;
pub mod index_write;
pub mod key;
pub mod leaf_lemmas;
pub mod interruption;
pub mod ledger;
pub mod lock_manager;
pub mod log_codec;
pub mod manager;
pub mod meta;
pub mod mvcc;
pub mod node;
pub mod overflow;
pub mod overflow_page;
pub mod pacing;
pub mod page;
pub mod page_table;
pub mod pool_ops;
pub mod recovery;
pub mod redo;
pub mod reopen;
pub mod replacer;
pub mod scan;
pub mod session;
pub mod shard;
pub mod slotted;
pub mod smo;
pub mod store;
pub mod sweep;
pub mod trace;
pub mod transaction;
pub mod transaction_manager;
pub mod tree_spec;
pub mod txn;
pub mod unique;
pub mod unlink;
pub mod value_lemmas;
pub mod versions;
pub mod wal;
pub mod workers;
