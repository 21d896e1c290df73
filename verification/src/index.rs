//! The region table: a bounded partition of the pool into free and used ranges.

use vstd::prelude::*;

use crate::partition::{
    alternating, chain, covers, first_holding, first_vacant, follows, fresh, full, has_region,
    has_region_in, holds, holds_region, holds_region_in, is_region, lemma_chain_coalesced,
    lemma_chain_covers, lemma_covers_unique, lemma_emitted, lemma_sorted_covers_chain,
    lemma_swapped, linked, normal_form_of, slot_le, sorted, split_at, swapped,
};
use crate::placement::{pad_for, padding, slot_fits};
use crate::IndexError;

verus! {

/// A half-open byte range `[from, from + size)` of the pool, free or used.
#[derive(Debug, Clone, Copy, PartialEq, Eq, Structural)]
pub struct MemoryRegion {
    /// The offset of the first byte of the region in the pool.
    pub from: usize,
    /// The number of bytes of the region.
    pub size: usize,
    /// Whether the region is reserved.
    pub used: bool,
}

impl MemoryRegion {
    /// One past the last byte of the region, as a mathematical integer.
    pub open spec fn spec_end(self) -> int {
        self.from + self.size
    }

    /// Whether `addr` lies in `[from, from + size)`.
    pub open spec fn spec_contains(self, addr: int) -> bool {
        self.from <= addr < self.from + self.size
    }

    /// Creates a region.
    #[must_use]
    pub fn new(from: usize, size: usize, used: bool) -> (r: Self)
        ensures
            r == (MemoryRegion { from, size, used }),
    {
        Self { from, size, used }
    }

    /// Marks the region as used.
    pub fn reserve(&mut self)
        ensures
            *final(self) == (MemoryRegion { used: true, ..*old(self) }),
    {
        self.used = true;
    }

    /// Marks the region as free.
    pub fn free(&mut self)
        ensures
            *final(self) == (MemoryRegion { used: false, ..*old(self) }),
    {
        self.used = false;
    }

    /// The end of the region.
    #[must_use]
    pub fn end(&self) -> (e: usize)
        requires
            self.from + self.size <= usize::MAX,
        ensures
            e == self.spec_end(),
    {
        self.from + self.size
    }

    /// Tests whether the region contains `addr`.
    #[must_use]
    pub fn contains(&self, addr: usize) -> (b: bool)
        ensures
            b == self.spec_contains(addr as int),
    {
        self.from <= addr && addr - self.from < self.size
    }
}

/// Where a request is to be placed: the slot of the region that takes it, and the
/// padding between the start of that region and the aligned address.
#[derive(Debug, Clone, Copy, PartialEq, Eq, Structural)]
pub struct AllocationBaker {
    /// The slot of the region in which the allocation is to be made.
    pub region: usize,
    /// The padding needed for the address to be aligned.
    pub offset: usize,
}

/// A table of `INDEX_SIZE` slots, each holding a region of the pool or nothing.
#[derive(Debug, Clone)]
pub struct MemoryIndex<const INDEX_SIZE: usize> {
    regions: [Option<MemoryRegion>; INDEX_SIZE],
}

impl<const INDEX_SIZE: usize> View for MemoryIndex<INDEX_SIZE> {
    type V = Seq<Option<MemoryRegion>>;

    /// The slots, in stored order.
    closed spec fn view(&self) -> Seq<Option<MemoryRegion>> {
        self.regions@
    }
}

impl<const INDEX_SIZE: usize> MemoryIndex<INDEX_SIZE> {
    /// The table has as many slots as its type says.
    pub proof fn lemma_len(&self)
        ensures
            self@.len() == INDEX_SIZE,
    {
    }

    /// Creates the table from a given array of slots.
    pub fn new(regions: [Option<MemoryRegion>; INDEX_SIZE]) -> (r: Self)
        ensures
            r@ == regions@,
    {
        Self { regions }
    }

    /// Creates the table of a pool of `memory_size` bytes that is wholly free: one free
    /// region in slot 0, and every other slot vacant.
    pub fn empty(memory_size: usize) -> (r: Self)
        requires
            INDEX_SIZE >= 1,
        ensures
            r@ == fresh(INDEX_SIZE as nat, memory_size),
    {
        let mut regions: [Option<MemoryRegion>; INDEX_SIZE] = [None;INDEX_SIZE];
        regions[0] = Some(MemoryRegion::new(0, memory_size, false));
        Self::new(regions)
    }

    /// The region in slot `region`, or `NoSuchRegion` where the table has no such slot
    /// or the slot is vacant.
    pub fn get_region(&self, region: usize) -> (r: Result<&MemoryRegion, IndexError>)
        ensures
            match r {
                Ok(found) => is_region(self@, region as int) && self@[region as int] == Some(*found),
                Err(e) => e == IndexError::NoSuchRegion && !is_region(self@, region as int),
            },
    {
        if region >= INDEX_SIZE {
            return Err(IndexError::NoSuchRegion);
        }
        match &self.regions[region] {
            Some(r) => Ok(r),
            None => Err(IndexError::NoSuchRegion),
        }
    }

    /// Mutable access to the region in slot `region`, or `NoSuchRegion` where the table
    /// has no such slot or the slot is vacant. What is written through the reference
    /// becomes the content of the slot; no other slot changes.
    pub fn get_region_mut(&mut self, region: usize) -> (r: Result<&mut MemoryRegion, IndexError>)
        ensures
            match r {
                Ok(found) => is_region(old(self)@, region as int) && old(self)@[region as int] == Some(
                    *found,
                ) && final(self)@ == old(self)@.update(region as int, Some(*final(found))),
                Err(e) => e == IndexError::NoSuchRegion && !is_region(old(self)@, region as int)
                    && final(self)@ == old(self)@,
            },
    {
        if region >= INDEX_SIZE {
            return Err(IndexError::NoSuchRegion);
        }
        match &mut self.regions[region] {
            Some(r) => Ok(r),
            None => Err(IndexError::NoSuchRegion),
        }
    }

    /// The first vacant slot, or `NoIndexAvailable` where every slot holds a region.
    pub fn available_index(&self) -> (r: Result<usize, IndexError>)
        ensures
            match r {
                Ok(i) => first_vacant(self@, i as int),
                Err(e) => e == IndexError::NoIndexAvailable && full(self@),
            },
    {
        let mut i: usize = 0;
        while i < INDEX_SIZE
            invariant
                i <= INDEX_SIZE,
                self@.len() == INDEX_SIZE,
                forall|j: int| 0 <= j < i ==> (#[trigger] self@[j]) is Some,
            decreases INDEX_SIZE - i,
        {
            if self.regions[i].is_none() {
                return Ok(i);
            }
            i += 1;
        }
        Err(IndexError::NoIndexAvailable)
    }

    /// The first slot whose region contains the pool offset `addr`, or `OutOfMemory`
    /// where no region contains it.
    pub fn find_region(&self, addr: usize) -> (r: Result<usize, IndexError>)
        ensures
            match r {
                Ok(i) => first_holding(self@, i as int, addr as int),
                Err(e) => e == IndexError::OutOfMemory && forall|j: int| !#[trigger] holds(self@, j, addr as int),
            },
    {
        let mut i: usize = 0;
        while i < INDEX_SIZE
            invariant
                i <= INDEX_SIZE,
                self@.len() == INDEX_SIZE,
                forall|j: int| 0 <= j < i ==> !#[trigger] holds(self@, j, addr as int),
            decreases INDEX_SIZE - i,
        {
            match &self.regions[i] {
                Some(region) => {
                    if region.contains(addr) {
                        return Ok(i);
                    }
                },
                None => {},
            }
            i += 1;
        }
        Err(IndexError::OutOfMemory)
    }

    /// Looks for the first free region in which `size` bytes fit at an address that is a
    /// multiple of `align`, in a pool that starts at the address `memory_start`. Returns
    /// its slot and the padding in front of the aligned address, or `NoFittingRegion`
    /// where the request fits in no region.
    pub fn size_region_available(&self, memory_start: usize, size: usize, align: usize) -> (r: Result<
        AllocationBaker,
        IndexError,
    >)
        requires
            align > 0,
        ensures
            match r {
                Ok(baker) => {
                    &&& slot_fits(self@, baker.region as int, memory_start as int, size as int, align as int)
                    &&& forall|j: int|
                        0 <= j < baker.region ==> !#[trigger] slot_fits(
                            self@,
                            j,
                            memory_start as int,
                            size as int,
                            align as int,
                        )
                    &&& baker.offset == pad_for(
                        memory_start + self@[baker.region as int].unwrap().from,
                        align as int,
                    )
                },
                Err(e) => e == IndexError::NoFittingRegion && forall|j: int|
                    !#[trigger] slot_fits(self@, j, memory_start as int, size as int, align as int),
            },
    {
        let mut i: usize = 0;
        while i < INDEX_SIZE
            invariant
                i <= INDEX_SIZE,
                align > 0,
                self@.len() == INDEX_SIZE,
                forall|j: int|
                    0 <= j < i ==> !#[trigger] slot_fits(
                        self@,
                        j,
                        memory_start as int,
                        size as int,
                        align as int,
                    ),
            decreases INDEX_SIZE - i,
        {
            match &self.regions[i] {
                Some(region) => {
                    if !region.used {
                        let offset = padding(memory_start, region.from, align);
                        if offset <= region.size && size <= region.size - offset {
                            return Ok(AllocationBaker { region: i, offset });
                        }
                    }
                },
                None => {},
            }
            i += 1;
        }
        Err(IndexError::NoFittingRegion)
    }

    /// Cuts the region in slot `region` in two: the slot keeps a left piece of exactly
    /// `size` bytes, and the first vacant slot takes the remainder. Returns the two slots.
    ///
    /// The errors come in this order: `NoSuchRegion` where the slot holds no region;
    /// `RegionTooThin` where `size` is not less than the size of the region, so that
    /// nothing would be left for the right piece; `NoIndexAvailable` where no slot is
    /// vacant; and `RegionTooThin` again where `size` is zero, so that the left piece
    /// would be empty. On an error the table is unchanged.
    pub fn split_region(&mut self, region: usize, size: usize) -> (r: Result<(usize, usize), IndexError>)
        requires
            is_region(old(self)@, region as int) ==> old(self)@[region as int].unwrap().spec_end()
                <= usize::MAX,
        ensures
            match r {
                Ok((left, right)) => {
                    &&& left == region
                    &&& is_region(old(self)@, region as int)
                    &&& 0 < size < old(self)@[region as int].unwrap().size
                    &&& first_vacant(old(self)@, right as int)
                    &&& final(self)@ == split_at(old(self)@, region as int, size, right as int)
                },
                Err(e) => {
                    &&& final(self)@ == old(self)@
                    &&& e == if !is_region(old(self)@, region as int) {
                        IndexError::NoSuchRegion
                    } else if size >= old(self)@[region as int].unwrap().size {
                        IndexError::RegionTooThin
                    } else if full(old(self)@) {
                        IndexError::NoIndexAvailable
                    } else {
                        IndexError::RegionTooThin
                    }
                    &&& !is_region(old(self)@, region as int) || size >= old(
                        self,
                    )@[region as int].unwrap().size || full(old(self)@) || size == 0
                },
            },
    {
        let whole = *self.get_region(region)?;
        if size >= whole.size {
            return Err(IndexError::RegionTooThin);
        }
        let right_index = match self.available_index() {
            Ok(right_index) => right_index,
            Err(e) => {
                return Err(e);
            },
        };
        proof {
            assert(self@[right_index as int] is None);
        }
        if size == 0 {
            return Err(IndexError::RegionTooThin);
        }
        self.regions[region] = Some(MemoryRegion::new(whole.from, size, whole.used));
        self.regions[right_index] = Some(
            MemoryRegion::new(whole.from + size, whole.size - size, whole.used),
        );
        Ok((region, right_index))
    }

    /// Sorts the slots, regions first and by ascending start, then merges every run of
    /// touching free regions into one and vacates the slots that this leaves over.
    ///
    /// The table must tile a pool. The result is the one table in normal form that tiles
    /// the same pool and holds the same used regions.
    pub fn sort_merge(&mut self)
        requires
            exists|m: int| covers(old(self)@, m) && m <= usize::MAX,
        ensures
            normal_form_of(final(self)@, old(self)@),
    {
        let ghost m = choose|m: int| covers(old(self)@, m) && m <= usize::MAX;
        self.sort();
        let ghost mid = self@;
        proof {
            assert(covers(mid, m));
        }
        self.merge();
        proof {
            assert forall|m2: int| #[trigger] covers(old(self)@, m2) implies covers(self@, m2) by {
                assert(covers(mid, m2));
            }
        }
    }
}

impl<const INDEX_SIZE: usize> MemoryIndex<INDEX_SIZE> {
    /// Whether slot `a` has to be stored before slot `b`.
    fn slot_before(a: &Option<MemoryRegion>, b: &Option<MemoryRegion>) -> (r: bool)
        ensures
            r == !slot_le(*b, *a),
    {
        match (a, b) {
            (Some(x), Some(y)) => x.from < y.from,
            (Some(_), None) => true,
            (None, Some(_)) => false,
            (None, None) => false,
        }
    }

    /// Brings the slots into order, regions first and by ascending start, by insertion.
    fn sort(&mut self)
        ensures
            final(self)@.len() == old(self)@.len(),
            sorted(final(self)@),
            forall|m: int| #[trigger] covers(old(self)@, m) ==> covers(final(self)@, m),
            forall|r: MemoryRegion| #[trigger] has_region(old(self)@, r) <==> has_region(final(self)@, r),
    {
        let mut i: usize = 1;
        while i < INDEX_SIZE
            invariant
                1 <= i,
                self@.len() == INDEX_SIZE,
                forall|a: int, b: int| #![trigger self@[a], self@[b]] 0 <= a < b < i && b < INDEX_SIZE ==> slot_le(self@[a], self@[b]),
                forall|m: int| #[trigger] covers(old(self)@, m) ==> covers(self@, m),
                forall|r: MemoryRegion| #[trigger] has_region(old(self)@, r) <==> has_region(self@, r),
            decreases INDEX_SIZE - i,
        {
            let mut j: usize = i;
            while j > 0 && Self::slot_before(&self.regions[j], &self.regions[j - 1])
                invariant
                    0 <= j <= i < INDEX_SIZE,
                    self@.len() == INDEX_SIZE,
                    forall|a: int, b: int| #![trigger self@[a], self@[b]] 0 <= a < b <= i && a != j && b != j ==> slot_le(self@[a], self@[b]),
                    forall|b: int| j < b <= i ==> slot_le(self@[j as int], #[trigger] self@[b]),
                    forall|m: int| #[trigger] covers(old(self)@, m) ==> covers(self@, m),
                    forall|r: MemoryRegion| #[trigger] has_region(old(self)@, r) <==> has_region(self@, r),
                decreases j,
            {
                let ghost before = self@;
                let moved = self.regions[j];
                self.regions[j] = self.regions[j - 1];
                self.regions[j - 1] = moved;
                proof {
                    assert(self@ =~= swapped(before, j as int, j - 1));
                    lemma_swapped(before, j as int, j - 1);
                }
                j -= 1;
            }
            proof {
                assert forall|a: int, b: int| #![trigger self@[a], self@[b]] 0 <= a < b < i + 1 && b < INDEX_SIZE implies slot_le(self@[a], self@[b]) by {
                    if b == j && j > 0 {
                        if a != j - 1 {
                            assert(slot_le(self@[a], self@[j - 1]));
                        }
                    }
                }
            }
            i += 1;
        }
    }

    /// Whether the slot holds a free region.
    fn is_free(slot: &Option<MemoryRegion>) -> (r: bool)
        ensures
            r == (*slot is Some && !slot.unwrap().used),
    {
        match slot {
            Some(region) => !region.used,
            None => false,
        }
    }

    /// Walks a sorted table with a read and a write cursor: used regions are kept, every
    /// run of free regions becomes one free region, and what is left over is vacated.
    fn merge(&mut self)
        requires
            sorted(old(self)@),
            exists|m: int| covers(old(self)@, m) && m <= usize::MAX,
        ensures
            normal_form_of(final(self)@, old(self)@),
    {
        let ghost src = self@;
        let ghost m = choose|m: int| covers(src, m) && m <= usize::MAX;
        let ghost c = 0int;
        proof {
            c = lemma_sorted_covers_chain(src, m);
            assert forall|x: MemoryRegion| #[trigger] has_region(src, x) implies has_region_in(src, 0, c, x) by {
                let k = choose|k: int| holds_region(src, k, x);
                assert(holds_region_in(src, 0, c, k, x));
            }
            assert forall|x: MemoryRegion| has_region_in(src, 0, c, x) implies #[trigger] has_region(src, x) by {
                let k = choose|k: int| holds_region_in(src, 0, c, k, x);
                assert(holds_region(src, k, x));
            }
        }
        let mut write: usize = 0;
        let mut read: usize = 0;
        while read < INDEX_SIZE && self.regions[read].is_some()
            invariant
                self@.len() == INDEX_SIZE,
                src.len() == INDEX_SIZE,
                chain(src, c, m),
                m <= usize::MAX,
                0 <= write <= read <= c,
                forall|k: int| read <= k < INDEX_SIZE ==> self@[k] == src[k],
                linked(self@, 0, write as int),
                (write == 0) == (read == 0),
                write > 0 ==> self@[0].unwrap().from == 0 && self@[write - 1].unwrap().spec_end() == (if read < c {
                    src[read as int].unwrap().from as int
                } else {
                    m
                }),
                alternating(self@, write as int),
                write > 0 && !self@[write - 1].unwrap().used ==> read == c || src[read as int].unwrap().used,
                forall|x: MemoryRegion|
                    x.used ==> (#[trigger] has_region(src, x) <==> has_region_in(self@, 0, write as int, x)
                        || has_region_in(src, read as int, c, x)),
            decreases INDEX_SIZE - read,
        {
            let ghost before = self@;
            let ghost start = read as int;
            let region = self.regions[read].unwrap();
            proof {
                assert(is_region(src, start));
                if start + 1 < c {
                    assert(follows(src, start));
                    assert(is_region(src, start + 1));
                }
                if write > 0 {
                    assert(is_region(before, write - 1));
                }
            }
            if region.used {
                self.regions[write] = Some(region);
                read += 1;
                proof {
                    lemma_emitted(before, self@, src, write as int, start, read as int, c, region);
                }
                write += 1;
            } else {
                let from = region.from;
                let mut size = region.size;
                read += 1;
                while read < INDEX_SIZE && Self::is_free(&self.regions[read])
                    invariant
                        self@ == before,
                        src.len() == INDEX_SIZE,
                        chain(src, c, m),
                        m <= usize::MAX,
                        start < read <= c,
                        forall|k: int| start <= k < INDEX_SIZE ==> before[k] == src[k],
                        forall|k: int| start <= k < read ==> !(#[trigger] src[k]).unwrap().used,
                        from == src[start].unwrap().from,
                        size > 0,
                        from + size == (if read < c {
                            src[read as int].unwrap().from as int
                        } else {
                            m
                        }),
                    decreases INDEX_SIZE - read,
                {
                    proof {
                        assert(is_region(src, read as int));
                        if read + 1 < c {
                            assert(follows(src, read as int));
                            assert(is_region(src, read + 1));
                        }
                    }
                    size += self.regions[read].unwrap().size;
                    read += 1;
                }
                self.regions[write] = Some(MemoryRegion::new(from, size, false));
                proof {
                    lemma_emitted(
                        before,
                        self@,
                        src,
                        write as int,
                        start,
                        read as int,
                        c,
                        MemoryRegion { from, size, used: false },
                    );
                    if read < c {
                        assert(is_region(src, read as int));
                    }
                }
                write += 1;
            }
        }
        let ghost packed = self@;
        proof {
            if read < c {
                assert(is_region(src, read as int));
            }
            assert(read == c);
        }
        let mut i: usize = write;
        while i < INDEX_SIZE
            invariant
                write <= i <= INDEX_SIZE,
                self@.len() == INDEX_SIZE,
                forall|k: int| 0 <= k < write ==> self@[k] == packed[k],
                forall|k: int| write <= k < i ==> (#[trigger] self@[k]) is None,
            decreases INDEX_SIZE - i,
        {
            self.regions[i] = None;
            i += 1;
        }
        proof {
            let out = self@;
            assert forall|k: int| 0 <= k < write implies #[trigger] is_region(out, k) && out[k].unwrap().size > 0 by {
                assert(is_region(packed, k));
            }
            assert forall|k: int| 0 <= k < write - 1 implies #[trigger] follows(out, k) by {
                assert(follows(packed, k));
            }
            assert(chain(out, write as int, m));
            assert(alternating(out, write as int)) by {
                assert forall|k: int| 0 <= k < write - 1 implies #[trigger] out[k].unwrap().used || out[k + 1].unwrap().used by {
                    assert(packed[k].unwrap().used || packed[k + 1].unwrap().used);
                }
            }
            lemma_chain_covers(out, write as int, m);
            lemma_chain_coalesced(out, write as int, m);
            assert forall|x: MemoryRegion| x.used implies (#[trigger] has_region(src, x) <==> #[trigger] has_region(out, x)) by {
                if has_region(src, x) {
                    assert(has_region_in(packed, 0, write as int, x) || has_region_in(src, read as int, c, x));
                    if has_region_in(src, read as int, c, x) {
                        let k = choose|k: int| holds_region_in(src, read as int, c, k, x);
                        assert(false);
                    }
                    let k = choose|k: int| holds_region_in(packed, 0, write as int, k, x);
                    assert(holds_region(out, k, x));
                }
                if has_region(out, x) {
                    let k = choose|k: int| holds_region(out, k, x);
                    assert(holds_region_in(packed, 0, write as int, k, x));
                }
            }
            assert forall|m2: int| #[trigger] covers(src, m2) implies covers(out, m2) by {
                lemma_covers_unique(src, m, m2);
            }
        }
    }
}

} // verus!
