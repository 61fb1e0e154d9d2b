//! NeutronFS core: a skiplist-indexed, cluster-addressed filesystem core.
//!
//! The crate covers the on-disk indexing structures (superblock, skiplist
//! index, free-cluster list) together with the block I/O layer that
//! serializes read/write requests into single-block operations against a
//! backing medium of fixed 4096-byte clusters.

use vstd::prelude::*;

pub mod block;
pub mod cli;
pub mod manager;
pub mod neutronfs;
pub mod partition;
pub mod ram;
pub mod simple_block;
pub mod skiplist;

verus! {

/// Error taxonomy of the filesystem core.
#[derive(Debug, Clone, Copy, PartialEq, Eq, Structural)]
pub enum NeFSError {
    /// Cluster number beyond partition bounds; fatal to the single request,
    /// not to the handler loop.
    OutOfRange,
    /// The allocator is exhausted; surfaced to the caller of create/write.
    OutOfSpace,
    /// An inode number was inserted twice into the index.
    DuplicateKey,
    /// A key was asked of the index that is not present.
    NotFound,
    /// No superblock copy validated at mount time.
    CorruptSuperblock,
    /// The file is shorter than an exact read demanded.
    UnexpectedEof,
    /// A cluster was freed while already free: an allocator invariant
    /// violation.
    DoubleFree,
}

} // verus!

