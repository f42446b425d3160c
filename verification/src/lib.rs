//! A size-indexed free-block memory allocator.
//!
//! The allocator tracks a contiguous address range, carved into
//! power-of-two-sized blocks. Free blocks are kept in a height-balanced
//! search structure keyed by `(size, start)`, so allocation finds the
//! best-fitting free block in logarithmic time; freeing re-coalesces a
//! block with its buddy whenever that buddy is also free.

use vstd::prelude::*;

pub mod allocator;
pub mod index;

verus! {

/// A contiguous, power-of-two-sized range of the managed address space.
#[derive(Clone, Copy, PartialEq, Eq, Structural, Debug)]
pub struct Block {
    /// First address of the block.
    pub start: usize,
    /// Length of the block in bytes; always a power of two.
    pub size: usize,
}

/// Everything that an allocator call can fail with.
#[derive(Clone, Copy, PartialEq, Eq, Structural, Debug)]
pub enum AllocError {
    /// A zero-sized allocation was requested.
    InvalidSize,
    /// No free block is large enough for the request.
    OutOfMemory,
    /// An entry with an identical `(size, start)` key is already indexed.
    DuplicateBlock,
    /// The key asked to be removed is not in the index.
    NotFound,
    /// The block handed to `free` is not currently allocated.
    InvalidFree,
    /// The range given at initialization is below the minimum block size.
    RangeTooSmall,
}

} // verus!
