//! Sizes and limits shared by the whole engine.

use vstd::prelude::*;

verus! {

/// Bytes in one page.
pub const PAGE_SIZE: usize = 4096;

/// Bytes in one buffer-pool frame.
pub const MAX_PAGE_SIZE: usize = 4096;

/// Frames in the whole buffer pool.
pub const MAX_FRAMES: usize = 80;

/// Page id of a frame that caches nothing.
pub const INVALID_FRAME_ID: u64 = 0xffff_ffff_ffff_ffff;

/// Shards of the buffer pool.
pub const NUM_SHARDS: usize = 8;

/// Mask that picks a page's shard.
pub const SHARD_MASK: u64 = 7;

/// Dead row versions that make the autovacuum worker sweep.
pub const AUTOVACUUM_DEAD_THRESHOLD: u64 = 1_000;

/// Milliseconds of nap per page that a vacuum batch dirtied.
pub const AUTOVACUUM_COST_DELAY_MS: u64 = 10;

/// Leaves swept per vacuum batch before yielding to foreground work.
pub const VACUUM_BATCH_MAX_LEAVES: usize = 64;

/// Largest key, in bytes.
pub const MAX_KEY_SIZE: usize = 512;

/// Largest value, in bytes.
pub const MAX_VALUE_SIZE: usize = 2048;

/// Values up to this size stay inside their leaf record; larger ones spill to
/// a chain of overflow pages.
pub const OVERFLOW_THRESHOLD: usize = 1024;

} // verus!
