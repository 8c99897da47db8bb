//! A single-node, embedded key-value store organized as a leveled
//! log-structured merge tree.
//!
//! Keys and values are 32-bit signed integers.  Writes go to an in-memory
//! buffer (`MemLevel`); when it fills up it is frozen into an immutable
//! sorted run (`Table`) and merged into a cascade of disk levels
//! (`DiskLevel`), each a list of tables with pairwise-disjoint key ranges.
//! Reads probe the memory level and then each disk level in order; the
//! first conclusive answer (a value or a tombstone) wins.
//!
//! The library models a table's backing file as its sequence of 4096-byte
//! blocks; the surrounding process performs the actual file reads and
//! writes with the byte images and names this crate computes and checks.

use vstd::prelude::*;

pub mod block;
pub mod bloom;
pub mod command;
pub mod db;
pub mod laws;
pub mod decimal;
pub mod disk_level;
pub mod mem_level;
pub mod merge;
pub mod table;

verus! {

/// Size of one on-disk block: a table file is a raw concatenation of these.
pub const BLOCK_SIZE_BYTES: usize = 4096;

/// Growth factor of the per-level file budget.
pub const SIZE_MULTIPLIER: usize = 2;

/// Number of disk levels a database owns.
pub const NUM_LEVELS: usize = 6;

/// A table file stops growing at this many bytes (4 MiB).
pub const MAX_FILE_SIZE_BYTES: usize = 4194304;

/// A table file stops growing at this many blocks
/// (`MAX_FILE_SIZE_BYTES / BLOCK_SIZE_BYTES`).
pub const MAX_FILE_SIZE_BLOCKS: usize = 1024;

/// File budget of the first disk level; level L holds
/// `LEVEL1_FILE_CAPACITY * SIZE_MULTIPLIER^(L-1)` files.
pub const LEVEL1_FILE_CAPACITY: usize = 4;

/// Default bound on the number of entries the memory level holds before
/// it is flushed; chosen so one flush always fits in a single table file
/// (`MAX_FILE_SIZE_BYTES` divided by the 9 bytes of the largest record).
pub const MEM_CAPACITY: usize = 466033;

/// Number of bits in a table's Bloom filter (2^16).
pub const BLOOM_CAPACITY: usize = 65536;

} // verus!
