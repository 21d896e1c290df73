//! The allocator: a pool of bytes and the table that says which of them are in use.

use vstd::prelude::*;

use crate::boxed::Box;
use crate::index::{MemoryIndex, MemoryRegion};
use crate::partition::{
    covered, covers, fresh, has_region, holds, holds_region, is_region, lemma_fresh,
    lemma_marked_covers, lemma_region_count, marked, normal, region_count,
};
use crate::placement::{
    encloses, first_fit, is_first_fit, lemma_pad_for, lemma_reservation_apart,
    lemma_reservation_covers, lemma_reservation_placed, lemma_reservation_shape, lemma_wanted,
    pad_to_align, reservation, reserved_region, slot_fits, wanted,
};
use crate::release::{lemma_holder, lemma_release_covers, lemma_released, release, released};
use crate::IndexError;

verus! {

/// The bytes `b` after `val` has been written at the offset `at`.
pub open spec fn stored(b: Seq<u8>, at: int, val: Seq<u8>) -> Seq<u8> {
    Seq::new(
        b.len(),
        |i: int|
            if at <= i < at + val.len() {
                val[i - at]
            } else {
                b[i]
            },
    )
}

/// A pool of `MEMORY_SIZE` bytes together with a table of `INDEX_SIZE` slots that
/// partitions it into free and used regions.
pub struct IndexAllocator<const MEMORY_SIZE: usize, const INDEX_SIZE: usize> {
    memory: [u8; MEMORY_SIZE],
    index: MemoryIndex<INDEX_SIZE>,
}

impl<const MEMORY_SIZE: usize, const INDEX_SIZE: usize> IndexAllocator<MEMORY_SIZE, INDEX_SIZE> {
    /// The slots of the table, in stored order.
    pub closed spec fn regions(&self) -> Seq<Option<MemoryRegion>> {
        self.index@
    }

    /// The bytes of the pool.
    pub closed spec fn bytes(&self) -> Seq<u8> {
        self.memory@
    }

    /// The allocator is well formed: the table has `INDEX_SIZE` slots and tiles the
    /// `MEMORY_SIZE` bytes of the pool.
    pub open spec fn wf(&self) -> bool {
        &&& self.regions().len() == INDEX_SIZE
        &&& self.bytes().len() == MEMORY_SIZE
        &&& covers(self.regions(), MEMORY_SIZE as int)
    }

    /// Puts a pool and a table that tiles it together.
    fn new(memory: [u8; MEMORY_SIZE], index: MemoryIndex<INDEX_SIZE>) -> (r: Self)
        requires
            covers(index@, MEMORY_SIZE as int),
        ensures
            r.wf(),
            r.regions() == index@,
            r.bytes() == memory@,
    {
        proof {
            index.lemma_len();
        }
        Self { memory, index }
    }

    /// Creates an allocator whose pool is all zeroes and wholly free.
    #[must_use]
    pub fn empty() -> (r: Self)
        requires
            MEMORY_SIZE >= 1,
            INDEX_SIZE >= 1,
        ensures
            r.wf(),
            r.regions() == fresh(INDEX_SIZE as nat, MEMORY_SIZE),
            r.bytes() == Seq::new(MEMORY_SIZE as nat, |i: int| 0u8),
    {
        proof {
            lemma_fresh(INDEX_SIZE as nat, MEMORY_SIZE);
        }
        let memory = [0u8;MEMORY_SIZE];
        assert(memory@ =~= Seq::new(MEMORY_SIZE as nat, |i: int| 0u8));
        Self::new(memory, MemoryIndex::empty(MEMORY_SIZE))
    }

    /// The table.
    pub fn index(&self) -> (r: &MemoryIndex<INDEX_SIZE>)
        ensures
            r@ == self.regions(),
    {
        &self.index
    }

    /// The bytes of the pool.
    pub fn memory(&self) -> (r: &[u8; MEMORY_SIZE])
        ensures
            r@ == self.bytes(),
    {
        &self.memory
    }

    /// The table never holds more regions than it has slots.
    pub proof fn lemma_bounded(&self)
        requires
            self.wf(),
        ensures
            region_count(self.regions()) <= INDEX_SIZE,
    {
        lemma_region_count(self.regions());
    }

    /// Reserves `size` bytes at an address that is a multiple of `align`, in a pool that
    /// starts at the address `memory_start`, and returns the offset of the reservation
    /// in the pool. An empty request is served as a request of one byte.
    ///
    /// What is returned and what becomes of the table is `reservation`. The only errors
    /// are `NoFittingRegion` and `NoIndexAvailable`. A reservation that succeeds is
    /// aligned and lies inside the pool. Exactly one used region of the table encloses
    /// the bytes that it takes: the one that the reservation made, which begins less
    /// than one alignment before the offset and ends with those bytes. It shares no
    /// byte with a region that was in use before, and all of those stay in the table.
    pub fn try_reserve(&mut self, memory_start: usize, size: usize, align: usize) -> (r: Result<
        usize,
        IndexError,
    >)
        requires
            old(self).wf(),
            align > 0,
        ensures
            final(self).wf(),
            (r, final(self).regions()) == reservation(old(self).regions(), memory_start, size, align),
            final(self).bytes() == old(self).bytes(),
            r matches Err(e) ==> (e == IndexError::NoFittingRegion || e == IndexError::NoIndexAvailable)
                && final(self).regions() == old(self).regions(),
            r matches Ok(offset) ==> {
                let taken = reserved_region(old(self).regions(), memory_start, size, align);
                &&& (memory_start + offset) % (align as int) == 0
                &&& offset < MEMORY_SIZE
                &&& offset + size <= offset + wanted(size, align) <= MEMORY_SIZE
                &&& has_region(final(self).regions(), taken)
                &&& taken.from <= offset < taken.from + align
                &&& taken.spec_end() == offset + wanted(size, align)
                &&& exists|i: int| #[trigger]
                    encloses(final(self).regions(), i, offset as int, wanted(size, align))
                &&& forall|i: int, j: int|
                    #![trigger encloses(final(self).regions(), i, offset as int, wanted(size, align)), encloses(final(self).regions(), j, offset as int, wanted(size, align))]
                    encloses(final(self).regions(), i, offset as int, wanted(size, align))
                        && encloses(final(self).regions(), j, offset as int, wanted(size, align))
                        ==> i == j
                &&& forall|x: MemoryRegion|
                    x.used && #[trigger] has_region(old(self).regions(), x) ==> has_region(
                        final(self).regions(),
                        x,
                    ) && (offset + size <= x.from || x.spec_end() <= offset)
            },
    {
        let ghost before = self.index@;
        proof {
            self.index.lemma_len();
            lemma_wanted(size, align);
            lemma_reservation_covers(before, memory_start, size, align, MEMORY_SIZE as int);
            if reservation(before, memory_start, size, align).0 is Ok {
                lemma_reservation_shape(before, memory_start, size, align, MEMORY_SIZE as int);
                lemma_reservation_placed(before, memory_start, size, align, MEMORY_SIZE as int);
                let after = reservation(before, memory_start, size, align).1;
                let offset = reservation(before, memory_start, size, align).0.unwrap();
                let slot = first_fit(before, memory_start as int, wanted(size, align), align as int);
                assert(encloses(after, slot, offset as int, wanted(size, align)));
                assert(holds_region(
                    after,
                    slot,
                    reserved_region(before, memory_start, size, align),
                ));
                assert forall|x: MemoryRegion| x.used && #[trigger] has_region(before, x) implies has_region(
                    after,
                    x,
                ) && (offset + size <= x.from || x.spec_end() <= offset) by {
                    lemma_reservation_apart(before, memory_start, size, align, MEMORY_SIZE as int, x);
                }
            }
        }
        let asked = if size == 0 {
            1
        } else {
            size
        };
        let want = match pad_to_align(asked, align) {
            Some(want) => want,
            None => {
                proof {
                    assert forall|i: int|
                        !#[trigger] slot_fits(
                            before,
                            i,
                            memory_start as int,
                            wanted(size, align),
                            align as int,
                        ) by {
                        if is_region(before, i) {
                            lemma_pad_for(memory_start + before[i].unwrap().from, align as int);
                        }
                    }
                }
                return Err(IndexError::NoFittingRegion);
            },
        };
        let baker = self.index.size_region_available(memory_start, want, align)?;
        let ghost slot = baker.region as int;
        proof {
            assert(is_first_fit(before, slot, memory_start as int, want as int, align as int));
            assert(is_region(before, slot));
            lemma_pad_for(memory_start + before[slot].unwrap().from, align as int);
        }
        let whole = *self.index.get_region(baker.region)?;
        let length = baker.offset + want;
        if length < whole.size {
            self.index.split_region(baker.region, length)?;
        }
        let ghost cut = self.index@;
        let region = self.index.get_region_mut(baker.region)?;
        region.reserve();
        proof {
            assert(is_region(cut, slot));
            assert(self.index@ =~= marked(cut, slot, true));
        }
        Ok(whole.from + baker.offset)
    }

    /// Releases the region that contains the pool offset `addr`: the region is marked
    /// free, and the table is sorted and coalesced. `OutOfMemory` where the offset lies
    /// in no region, which is where it is not below `MEMORY_SIZE`.
    pub fn try_free_addr(&mut self, addr: usize) -> (r: Result<(), IndexError>)
        requires
            old(self).wf(),
        ensures
            final(self).wf(),
            release(old(self).regions(), addr as int, r, final(self).regions()),
            r is Ok <==> addr < MEMORY_SIZE,
            r is Ok ==> normal(final(self).regions()) && final(self).regions() == released(
                old(self).regions(),
                addr as int,
            ),
            final(self).bytes() == old(self).bytes(),
    {
        let ghost before = self.index@;
        proof {
            crate::release::lemma_release_succeeds(before, MEMORY_SIZE as int, addr as int);
        }
        let slot = match self.index.find_region(addr) {
            Ok(slot) => slot,
            Err(e) => {
                proof {
                    if covered(before, addr as int) {
                        let j = choose|j: int| holds(before, j, addr as int);
                        assert(!holds(before, j, addr as int));
                    }
                }
                return Err(e);
            },
        };
        proof {
            assert(holds(before, slot as int, addr as int));
            lemma_holder(before, addr as int);
        }
        let region = self.index.get_region_mut(slot)?;
        region.free();
        proof {
            assert(self.index@ =~= marked(before, slot as int, false));
            lemma_marked_covers(before, slot as int, false, MEMORY_SIZE as int);
        }
        self.index.sort_merge();
        proof {
            lemma_release_covers(before, MEMORY_SIZE as int, addr as int, Ok(()), self.index@);
            lemma_released(before, MEMORY_SIZE as int, addr as int, Ok(()), self.index@);
        }
        Ok(())
    }

    /// Reserves as `try_reserve` does, and returns the address of the reservation: the
    /// address of the pool plus the offset, wrapping.
    pub fn try_alloc(&mut self, memory_start: usize, size: usize, align: usize) -> (r: Result<usize, IndexError>)
        requires
            old(self).wf(),
            align > 0,
        ensures
            final(self).wf(),
            final(self).regions() == reservation(old(self).regions(), memory_start, size, align).1,
            r == match reservation(old(self).regions(), memory_start, size, align).0 {
                Ok(offset) => Ok::<usize, IndexError>(memory_start.wrapping_add(offset)),
                Err(e) => Err::<usize, IndexError>(e),
            },
            r matches Err(e) ==> (e == IndexError::NoFittingRegion || e == IndexError::NoIndexAvailable)
                && final(self).regions() == old(self).regions(),
            final(self).bytes() == old(self).bytes(),
    {
        let offset = self.try_reserve(memory_start, size, align)?;
        Ok(memory_start.wrapping_add(offset))
    }

    /// Releases the region that contains the address `ptr`, in a pool that starts at the
    /// address `memory_start`: the offset released is their difference, wrapping.
    pub fn try_free(&mut self, memory_start: usize, ptr: usize) -> (r: Result<(), IndexError>)
        requires
            old(self).wf(),
        ensures
            final(self).wf(),
            release(
                old(self).regions(),
                ptr.wrapping_sub(memory_start) as int,
                r,
                final(self).regions(),
            ),
            final(self).bytes() == old(self).bytes(),
    {
        let offset = ptr.wrapping_sub(memory_start);
        self.try_free_addr(offset)?;
        Ok(())
    }

    /// Writes `val` into the pool at the offset `at`. The table is not consulted.
    pub fn write(&mut self, at: usize, val: &[u8])
        requires
            old(self).wf(),
            at + val@.len() <= MEMORY_SIZE,
        ensures
            final(self).wf(),
            final(self).regions() == old(self).regions(),
            final(self).bytes() == stored(old(self).bytes(), at as int, val@),
    {
        let mut i: usize = 0;
        while i < val.len()
            invariant
                i <= val@.len(),
                at + val@.len() <= MEMORY_SIZE,
                self.index == old(self).index,
                self.memory@ == stored(old(self).memory@, at as int, val@.take(i as int)),
            decreases val@.len() - i,
        {
            self.memory[at + i] = val[i];
            proof {
                assert(self.memory@ =~= stored(old(self).memory@, at as int, val@.take(i + 1)));
            }
            i += 1;
        }
        proof {
            assert(val@.take(val@.len() as int) =~= val@);
        }
    }

    /// The `len` bytes of the pool from the offset `at` on.
    pub fn read(&self, at: usize, len: usize) -> (r: &[u8])
        requires
            at + len <= MEMORY_SIZE,
        ensures
            r@ == self.bytes().subrange(at as int, at + len),
            r@.len() == len,
    {
        vstd::slice::slice_subrange(self.memory.as_slice(), at, at + len)
    }

    /// Reserves room for `val` at alignment `align` and writes it there. Returns the
    /// offset of the value in the pool.
    pub fn try_alloc_value(&mut self, memory_start: usize, val: &[u8], align: usize) -> (r: Result<
        usize,
        IndexError,
    >)
        requires
            old(self).wf(),
            align > 0,
        ensures
            final(self).wf(),
            (r, final(self).regions()) == reservation(
                old(self).regions(),
                memory_start,
                val@.len() as usize,
                align,
            ),
            final(self).bytes() == match r {
                Ok(at) => stored(old(self).bytes(), at as int, val@),
                Err(_) => old(self).bytes(),
            },
            r matches Ok(at) ==> at < MEMORY_SIZE && at + val@.len() <= MEMORY_SIZE,
            r matches Err(e) ==> (e == IndexError::NoFittingRegion || e == IndexError::NoIndexAvailable)
                && final(self).regions() == old(self).regions(),
    {
        let at = self.try_reserve(memory_start, val.len(), align)?;
        self.write(at, val);
        Ok(at)
    }

    /// Stores `val` in the pool and returns the handle that owns it, as `Box::try_new`
    /// does.
    pub fn try_boxed(&mut self, val: &[u8], align: usize, memory_start: usize) -> (r: Result<
        Box<MEMORY_SIZE, INDEX_SIZE>,
        IndexError,
    >)
        requires
            old(self).wf(),
            align > 0,
        ensures
            final(self).wf(),
            match r {
                Ok(b) => {
                    &&& reservation(old(self).regions(), memory_start, val@.len() as usize, align) == (
                        Ok::<usize, IndexError>(b.offset()),
                        final(self).regions(),
                    )
                    &&& b.len() == val@.len()
                    &&& b.offset() < MEMORY_SIZE
                    &&& b.offset() + b.len() <= MEMORY_SIZE
                    &&& final(self).bytes() == stored(old(self).bytes(), b.offset() as int, val@)
                    &&& b.value(final(self)) == val@
                },
                Err(e) => {
                    &&& e == IndexError::NoFittingRegion || e == IndexError::NoIndexAvailable
                    &&& reservation(old(self).regions(), memory_start, val@.len() as usize, align) == (
                        Err::<usize, IndexError>(e),
                        old(self).regions(),
                    )
                    &&& final(self).regions() == old(self).regions()
                    &&& final(self).bytes() == old(self).bytes()
                },
            },
    {
        Box::try_new(val, align, memory_start, self)
    }
}

} // verus!
