//! A single-owner handle to a value that lives in the pool of an allocator.

use vstd::prelude::*;

use crate::allocator::{stored, IndexAllocator};
use crate::placement::reservation;
use crate::release::{release, released};
use crate::IndexError;

verus! {

/// A handle that owns a value of bytes stored in the pool of an
/// `IndexAllocator<MEMORY_SIZE, INDEX_SIZE>`.
///
/// The handle records where the value lies. It does not borrow the allocator: every
/// operation takes the allocator that the value was stored in.
pub struct Box<const MEMORY_SIZE: usize, const INDEX_SIZE: usize> {
    offset: usize,
    len: usize,
}

impl<const MEMORY_SIZE: usize, const INDEX_SIZE: usize> Box<MEMORY_SIZE, INDEX_SIZE> {
    /// The offset of the value in the pool.
    pub closed spec fn offset(&self) -> usize {
        self.offset
    }

    /// The number of bytes of the value.
    pub closed spec fn len(&self) -> usize {
        self.len
    }

    /// The value lies inside the pool.
    #[verifier::type_invariant]
    closed spec fn in_pool(&self) -> bool {
        self.offset + self.len <= MEMORY_SIZE
    }

    /// The value that the handle owns, as the allocator holds it.
    pub open spec fn value(&self, allocator: &IndexAllocator<MEMORY_SIZE, INDEX_SIZE>) -> Seq<u8> {
        allocator.bytes().subrange(self.offset() as int, self.offset() + self.len())
    }

    /// Stores `val` in the pool at alignment `align` and returns the handle that owns
    /// it. The pool starts at the address `memory_start`.
    ///
    /// The reservation succeeds or fails as `reservation` says; an empty value takes one
    /// byte of the pool. On success the bytes of the value stand at the offset reserved;
    /// on an error the allocator is unchanged.
    pub fn try_new(
        val: &[u8],
        align: usize,
        memory_start: usize,
        allocator: &mut IndexAllocator<MEMORY_SIZE, INDEX_SIZE>,
    ) -> (r: Result<Self, IndexError>)
        requires
            old(allocator).wf(),
            align > 0,
        ensures
            final(allocator).wf(),
            match r {
                Ok(b) => {
                    &&& reservation(old(allocator).regions(), memory_start, val@.len() as usize, align) == (
                        Ok::<usize, IndexError>(b.offset()),
                        final(allocator).regions(),
                    )
                    &&& b.len() == val@.len()
                    &&& b.offset() < MEMORY_SIZE
                    &&& b.offset() + b.len() <= MEMORY_SIZE
                    &&& final(allocator).bytes() == stored(old(allocator).bytes(), b.offset() as int, val@)
                    &&& b.value(final(allocator)) == val@
                },
                Err(e) => {
                    &&& e == IndexError::NoFittingRegion || e == IndexError::NoIndexAvailable
                    &&& reservation(old(allocator).regions(), memory_start, val@.len() as usize, align) == (
                        Err::<usize, IndexError>(e),
                        old(allocator).regions(),
                    )
                    &&& final(allocator).regions() == old(allocator).regions()
                    &&& final(allocator).bytes() == old(allocator).bytes()
                },
            },
    {
        let offset = allocator.try_alloc_value(memory_start, val, align)?;
        let made = Self::from_raw_ref(offset, val.len());
        proof {
            assert(made.value(allocator) =~= val@);
        }
        Ok(made)
    }

    /// Makes a handle of a value of `len` bytes that already lies at `offset`.
    pub fn from_raw_ref(offset: usize, len: usize) -> (r: Self)
        requires
            offset + len <= MEMORY_SIZE,
        ensures
            r.offset() == offset,
            r.len() == len,
    {
        Self { offset, len }
    }

    /// Releases the region that holds the value, and consumes the handle.
    pub fn try_free(self, allocator: &mut IndexAllocator<MEMORY_SIZE, INDEX_SIZE>) -> (r: Result<
        (),
        IndexError,
    >)
        requires
            old(allocator).wf(),
        ensures
            final(allocator).wf(),
            release(old(allocator).regions(), self.offset() as int, r, final(allocator).regions()),
            r is Ok <==> self.offset() < MEMORY_SIZE,
            r is Ok ==> final(allocator).regions() == released(
                old(allocator).regions(),
                self.offset() as int,
            ),
            final(allocator).bytes() == old(allocator).bytes(),
    {
        allocator.try_free_addr(self.offset)
    }

    /// Releases the region that holds the value, as the end of the owner's scope does.
    pub fn drop(self, allocator: &mut IndexAllocator<MEMORY_SIZE, INDEX_SIZE>)
        requires
            old(allocator).wf(),
            self.offset() < MEMORY_SIZE,
        ensures
            final(allocator).wf(),
            final(allocator).regions() == released(old(allocator).regions(), self.offset() as int),
            final(allocator).bytes() == old(allocator).bytes(),
    {
        let freed = allocator.try_free_addr(self.offset);
        assert(freed is Ok);
    }

    /// The value.
    pub fn deref<'a>(&self, allocator: &'a IndexAllocator<MEMORY_SIZE, INDEX_SIZE>) -> (r: &'a [u8])
        ensures
            r@ == self.value(allocator),
    {
        proof {
            use_type_invariant(self);
        }
        allocator.read(self.offset, self.len)
    }

    /// Overwrites the value with `val`, which has as many bytes.
    pub fn deref_mut(&self, allocator: &mut IndexAllocator<MEMORY_SIZE, INDEX_SIZE>, val: &[u8])
        requires
            old(allocator).wf(),
            val@.len() == self.len(),
        ensures
            final(allocator).wf(),
            final(allocator).regions() == old(allocator).regions(),
            final(allocator).bytes() == stored(old(allocator).bytes(), self.offset() as int, val@),
            self.value(final(allocator)) == val@,
    {
        proof {
            use_type_invariant(self);
        }
        allocator.write(self.offset, val);
        proof {
            assert(self.value(allocator) =~= val@);
        }
    }
}

} // verus!
