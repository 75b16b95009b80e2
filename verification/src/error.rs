//! Error types of every layer.

use vstd::prelude::*;

verus! {

/// Failures of the lock manager.
#[derive(Debug, Clone, Copy, PartialEq, Eq, Structural)]
pub enum LockManagerError {
    RecordNotFound,
    InvalidLockState,
    UpgradeConflict,
}

/// Failures of operations on one page.
#[derive(Debug, Clone, Copy, PartialEq, Eq, Structural)]
pub enum PageError {
    InsufficientSpace { needed: usize, available: usize },
}

/// Failures of the write-ahead log.
#[derive(Debug, Clone, Copy, PartialEq, Eq, Structural)]
pub enum WalError {
    /// The log ends inside a record.
    UnexpectedEof,
    InvalidEntryType(u8),
    ChecksumMismatch { lsn: u64, expected: u32, actual: u32 },
    /// A record that passes its checksum does not describe a change to its pages.
    CorruptedLog,
}

/// Failures of the data file.
#[derive(Debug, Clone, Copy, PartialEq, Eq, Structural)]
pub enum DiskError {
    /// The page lies behind the end of the file.
    OutOfBounds(u64),
}

/// Failures of the buffer pool.
#[derive(Debug, Clone, Copy, PartialEq, Eq, Structural)]
pub enum BufferPoolError {
    PageNotFound(u64),
    NoEvictableFrames,
    PinCountError,
    PageCorruption { page_id: u64, expected: u32, actual: u32 },
    Disk(DiskError),
}

/// Failures of the index.
#[derive(Debug, Clone, Copy, PartialEq, Eq, Structural)]
pub enum IndexError {
    KeyTooLarge { size: usize, max: usize },
    ValueTooLarge { size: usize, max: usize },
    DuplicateKey,
    KeyNotFound,
    /// A committed transaction changed the version first, or waiting could deadlock.
    WriteConflict,
    /// The version is held by this running transaction.
    WaitFor(u64),
    UnexpectedPageType { expected: u8, found: u8 },
    CorruptMetadata,
    Page(PageError),
    Wal(WalError),
    BufferPool(BufferPoolError),
}

/// Failures of the engine.
#[derive(Debug, Clone, Copy, PartialEq, Eq, Structural)]
pub enum EngineError {
    /// Another transaction was first; the transaction has to be given up.
    TransactionConflict,
    /// This transaction has to settle before the operation can be tried again.
    WaitFor(u64),
    /// There is a database already.
    AlreadyExists,
    /// There is no database.
    NotFound,
    BackgroundThreadPanicked,
    /// There may not be enough record numbers or page ids left.
    OutOfNumbers,
    /// There are too many transactions for one checkpoint record.
    CheckpointTooLarge,
    Index(IndexError),
}

} // verus!
