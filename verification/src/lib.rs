//! A fixed-capacity pool allocator whose bookkeeping is a bounded table of regions.

pub mod allocator;
pub mod boxed;
pub mod counting;
pub mod index;
pub mod normalize;
pub mod partition;
pub mod placement;
pub mod rc;
pub mod release;

pub use allocator::IndexAllocator;
use vstd::prelude::*;

verus! {

/// The failures that the allocator and its region table can report.
#[derive(Debug, Clone, Copy, PartialEq, Eq, Structural)]
pub enum IndexError {
    /// The slot that was accessed holds no region.
    NoSuchRegion,
    /// Every slot of the table is occupied, so no region can be added.
    NoIndexAvailable,
    /// No free region admits the aligned request.
    NoFittingRegion,
    /// The address lies in no region of the pool.
    OutOfMemory,
    /// The region cannot be cut into two non-empty pieces at the requested size.
    RegionTooThin,
    /// A reference into the pool turned out to be null.
    EmptyPtr,
    /// The table is already in use by another operation.
    IndexAlreadyBorrowed,
}

} // verus!
