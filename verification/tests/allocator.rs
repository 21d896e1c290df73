use index_alloc::index::{AllocationBaker, MemoryIndex, MemoryRegion};
use index_alloc::placement::{pad_to_align, padding};
use index_alloc::{IndexAllocator, IndexError};

fn table<const N: usize>(allocator: &IndexAllocator<64, N>) -> Vec<Option<MemoryRegion>> {
    (0..N)
        .map(|i| allocator.index().get_region(i).ok().copied())
        .collect()
}

#[test]
fn empty_allocator_is_one_free_region_of_zeroes() {
    let allocator: IndexAllocator<64, 4> = IndexAllocator::empty();
    assert_eq!(
        table(&allocator),
        vec![Some(MemoryRegion::new(0, 64, false)), None, None, None]
    );
    assert!(allocator.memory().iter().all(|b| *b == 0));
}

#[test]
fn padding_is_the_distance_to_the_next_multiple() {
    assert_eq!(padding(0, 88, 16), 8);
    assert_eq!(padding(0, 96, 16), 0);
    assert_eq!(padding(3, 0, 8), 5);
    assert_eq!(padding(usize::MAX, 1, 4), 0);
    assert_eq!(padding(usize::MAX, usize::MAX, 7), (7 - ((usize::MAX as u128 * 2) % 7) as usize) % 7);
    assert_eq!(padding(13, 4, 1), 0);
}

#[test]
fn pad_to_align_rounds_the_size_up() {
    assert_eq!(pad_to_align(0, 8), Some(0));
    assert_eq!(pad_to_align(1, 8), Some(8));
    assert_eq!(pad_to_align(8, 8), Some(8));
    assert_eq!(pad_to_align(9, 8), Some(16));
    assert_eq!(pad_to_align(11, 1), Some(11));
    assert_eq!(pad_to_align(usize::MAX, 2), None);
}

#[test]
fn reserve_is_first_fit_and_splits() {
    let mut allocator: IndexAllocator<64, 4> = IndexAllocator::empty();
    assert_eq!(allocator.try_reserve(0, 16, 1), Ok(0));
    assert_eq!(allocator.try_reserve(0, 8, 8), Ok(16));
    assert_eq!(
        table(&allocator),
        vec![
            Some(MemoryRegion::new(0, 16, true)),
            Some(MemoryRegion::new(16, 8, true)),
            Some(MemoryRegion::new(24, 40, false)),
            None
        ]
    );
}

#[test]
fn reserve_pads_the_size_and_the_address() {
    let mut allocator: IndexAllocator<64, 4> = IndexAllocator::empty();
    // The pool starts at address 3: offset 5 is the first whose address is a multiple of 8.
    assert_eq!(allocator.try_reserve(3, 9, 8), Ok(5));
    // Five bytes of padding and the size rounded up to sixteen.
    assert_eq!(
        table(&allocator),
        vec![
            Some(MemoryRegion::new(0, 21, true)),
            Some(MemoryRegion::new(21, 43, false)),
            None,
            None
        ]
    );
    assert_eq!(allocator.try_alloc(3, 1, 1), Ok(3 + 21));
    assert_eq!(allocator.try_free(3, 3 + 5), Ok(()));
    assert_eq!(
        table(&allocator),
        vec![
            Some(MemoryRegion::new(0, 21, false)),
            Some(MemoryRegion::new(21, 1, true)),
            Some(MemoryRegion::new(22, 42, false)),
            None
        ]
    );
}

#[test]
fn whole_pool_fits_once() {
    let mut allocator: IndexAllocator<64, 1> = IndexAllocator::empty();
    assert_eq!(allocator.try_reserve(0, 64, 1), Ok(0));
    assert_eq!(table(&allocator), vec![Some(MemoryRegion::new(0, 64, true))]);
    assert_eq!(
        allocator.try_reserve(0, 1, 1),
        Err(IndexError::NoFittingRegion)
    );
    assert_eq!(
        allocator.try_reserve(0, 0, 1),
        Err(IndexError::NoFittingRegion)
    );
    assert_eq!(allocator.try_free_addr(0), Ok(()));
    assert_eq!(table(&allocator), vec![Some(MemoryRegion::new(0, 64, false))]);
    assert_eq!(allocator.try_reserve(0, 1, 1), Err(IndexError::NoIndexAvailable));
    assert_eq!(allocator.try_reserve(0, 64, 1), Ok(0));
}

#[test]
fn failure_modes() {
    let mut single: IndexAllocator<64, 1> = IndexAllocator::empty();
    assert_eq!(single.try_reserve(0, 8, 1), Err(IndexError::NoIndexAvailable));
    assert_eq!(table(&single), vec![Some(MemoryRegion::new(0, 64, false))]);

    let mut small: IndexAllocator<4, 8> = IndexAllocator::empty();
    assert_eq!(small.try_reserve(0, 8, 1), Err(IndexError::NoFittingRegion));
    assert_eq!(small.try_free_addr(4), Err(IndexError::OutOfMemory));
    assert_eq!(small.try_free_addr(3), Ok(()));
    assert_eq!(
        small.index().get_region(0),
        Ok(&MemoryRegion::new(0, 4, false))
    );
}

#[test]
fn large_alignment_is_refused_not_misplaced() {
    let mut allocator: IndexAllocator<64, 4> = IndexAllocator::empty();
    // From address 1 the next multiple of 128 lies beyond the pool.
    assert_eq!(
        allocator.try_reserve(1, 1, 128),
        Err(IndexError::NoFittingRegion)
    );
    assert_eq!(
        allocator.try_reserve(1, 4, 64),
        Err(IndexError::NoFittingRegion)
    );
    assert_eq!(allocator.try_reserve(usize::MAX, usize::MAX, 2), Err(IndexError::NoFittingRegion));
    assert_eq!(
        table(&allocator),
        vec![Some(MemoryRegion::new(0, 64, false)), None, None, None]
    );
    // At address 0 the pool itself is aligned.
    assert_eq!(allocator.try_reserve(0, 64, 64), Ok(0));
}

#[test]
fn empty_request_takes_one_byte() {
    let mut allocator: IndexAllocator<64, 4> = IndexAllocator::empty();
    assert_eq!(allocator.try_reserve(0, 0, 1), Ok(0));
    assert_eq!(
        table(&allocator),
        vec![
            Some(MemoryRegion::new(0, 1, true)),
            Some(MemoryRegion::new(1, 63, false)),
            None,
            None
        ]
    );
    // A second empty request gets a byte of its own.
    assert_eq!(allocator.try_reserve(0, 0, 4), Ok(4));
    assert_eq!(
        table(&allocator),
        vec![
            Some(MemoryRegion::new(0, 1, true)),
            Some(MemoryRegion::new(1, 7, true)),
            Some(MemoryRegion::new(8, 56, false)),
            None
        ]
    );
    assert_eq!(allocator.try_free_addr(4), Ok(()));
    assert_eq!(allocator.try_free_addr(0), Ok(()));
    assert_eq!(
        table(&allocator),
        vec![Some(MemoryRegion::new(0, 64, false)), None, None, None]
    );
}

#[test]
fn empty_request_behind_padding_is_released_by_its_offset() {
    let mut allocator: IndexAllocator<64, 4> = IndexAllocator::empty();
    // From address 1 the first multiple of 2 is at offset 1.
    assert_eq!(allocator.try_reserve(1, 0, 2), Ok(1));
    assert_eq!(
        table(&allocator),
        vec![
            Some(MemoryRegion::new(0, 3, true)),
            Some(MemoryRegion::new(3, 61, false)),
            None,
            None
        ]
    );
    assert_eq!(allocator.try_free_addr(1), Ok(()));
    assert_eq!(
        table(&allocator),
        vec![Some(MemoryRegion::new(0, 64, false)), None, None, None]
    );
}

#[test]
fn empty_request_fails_only_for_want_of_room_or_of_a_slot() {
    let mut single: IndexAllocator<64, 1> = IndexAllocator::empty();
    assert_eq!(single.try_reserve(0, 0, 1), Err(IndexError::NoIndexAvailable));
    assert_eq!(table(&single), vec![Some(MemoryRegion::new(0, 64, false))]);
    let mut allocator: IndexAllocator<64, 2> = IndexAllocator::empty();
    assert_eq!(allocator.try_reserve(0, 64, 1), Ok(0));
    assert_eq!(
        allocator.try_reserve(0, 0, 1),
        Err(IndexError::NoFittingRegion)
    );
}

#[test]
fn release_coalesces_with_both_neighbours() {
    let mut allocator: IndexAllocator<64, 8> = IndexAllocator::empty();
    let a = allocator.try_reserve(0, 16, 1).unwrap();
    let b = allocator.try_reserve(0, 16, 1).unwrap();
    let c = allocator.try_reserve(0, 16, 1).unwrap();
    assert_eq!((a, b, c), (0, 16, 32));
    assert_eq!(allocator.try_free_addr(a), Ok(()));
    assert_eq!(allocator.try_free_addr(c + 15), Ok(()));
    assert_eq!(
        table(&allocator),
        vec![
            Some(MemoryRegion::new(0, 16, false)),
            Some(MemoryRegion::new(16, 16, true)),
            Some(MemoryRegion::new(32, 32, false)),
            None,
            None,
            None,
            None,
            None
        ]
    );
    assert_eq!(allocator.try_free_addr(b), Ok(()));
    assert_eq!(
        table(&allocator)[..2],
        [Some(MemoryRegion::new(0, 64, false)), None]
    );
}

#[test]
fn live_reservations_are_disjoint_and_placed() {
    let mut allocator: IndexAllocator<64, 8> = IndexAllocator::empty();
    let base = 5;
    let requests = [(3usize, 1usize), (4, 4), (1, 2), (8, 8), (2, 1)];
    let mut live: Vec<(usize, usize)> = Vec::new();
    for (size, align) in requests {
        let offset = allocator.try_reserve(base, size, align).unwrap();
        assert_eq!((base + offset) % align, 0);
        assert!(offset + size <= 64);
        let slot = allocator.index().find_region(offset).unwrap();
        let region = *allocator.index().get_region(slot).unwrap();
        assert!(region.used && region.from <= offset && offset + size <= region.end());
        for (other, len) in &live {
            assert!(offset + size <= *other || other + len <= offset);
        }
        live.push((offset, size));
    }
}

#[test]
fn sort_merge_emits_a_free_run_that_ends_the_table() {
    let mut index: MemoryIndex<2> = MemoryIndex::new([
        Some(MemoryRegion::new(4, 60, false)),
        Some(MemoryRegion::new(0, 4, false)),
    ]);
    index.sort_merge();
    assert_eq!(index.get_region(0), Ok(&MemoryRegion::new(0, 64, false)));
    assert_eq!(index.get_region(1), Err(IndexError::NoSuchRegion));

    let mut full: MemoryIndex<3> = MemoryIndex::new([
        Some(MemoryRegion::new(8, 8, true)),
        Some(MemoryRegion::new(16, 8, true)),
        Some(MemoryRegion::new(0, 8, false)),
    ]);
    full.sort_merge();
    assert_eq!(full.get_region(0), Ok(&MemoryRegion::new(0, 8, false)));
    assert_eq!(full.get_region(1), Ok(&MemoryRegion::new(8, 8, true)));
    assert_eq!(full.get_region(2), Ok(&MemoryRegion::new(16, 8, true)));
}

#[test]
fn coalesce_merges_free_regions_stored_apart() {
    let mut index: MemoryIndex<6> = MemoryIndex::new([
        Some(MemoryRegion::new(0, 16, false)),
        Some(MemoryRegion::new(32, 16, true)),
        Some(MemoryRegion::new(48, 16, true)),
        None,
        None,
        Some(MemoryRegion::new(16, 16, false)),
    ]);
    index.sort_merge();
    assert_eq!(index.get_region(0), Ok(&MemoryRegion::new(0, 32, false)));
    assert_eq!(index.get_region(1), Ok(&MemoryRegion::new(32, 16, true)));
    assert_eq!(index.get_region(2), Ok(&MemoryRegion::new(48, 16, true)));
    for slot in 3..6 {
        assert_eq!(index.get_region(slot), Err(IndexError::NoSuchRegion));
    }
}

#[test]
fn aligned_request_takes_the_padded_region() {
    let mut index: MemoryIndex<8> = MemoryIndex::new([
        Some(MemoryRegion::new(0, 8, false)),
        Some(MemoryRegion::new(8, 32, true)),
        Some(MemoryRegion::new(40, 16, false)),
        Some(MemoryRegion::new(56, 32, true)),
        Some(MemoryRegion::new(88, 32, false)),
        Some(MemoryRegion::new(120, 8, false)),
        None,
        None,
    ]);
    let baker = index.size_region_available(0, 16, 16).unwrap();
    assert_eq!(baker, AllocationBaker { region: 4, offset: 8 });
    assert_eq!(index.split_region(baker.region, baker.offset + 16), Ok((4, 6)));
    assert_eq!(index.get_region(4), Ok(&MemoryRegion::new(88, 24, false)));
    assert_eq!(index.get_region(6), Ok(&MemoryRegion::new(112, 8, false)));
    index.get_region_mut(4).unwrap().reserve();
    assert_eq!(index.get_region(4), Ok(&MemoryRegion::new(88, 24, true)));
    assert_eq!(index.get_region(4).unwrap().from + baker.offset, 96);
}

#[test]
fn split_rejects_empty_pieces_and_keeps_the_table() {
    let mut index: MemoryIndex<2> = MemoryIndex::empty(16);
    assert_eq!(index.split_region(0, 16), Err(IndexError::RegionTooThin));
    assert_eq!(index.split_region(0, 0), Err(IndexError::RegionTooThin));
    assert_eq!(index.split_region(0, 17), Err(IndexError::RegionTooThin));
    assert_eq!(index.split_region(1, 4), Err(IndexError::NoSuchRegion));
    assert_eq!(index.split_region(2, 4), Err(IndexError::NoSuchRegion));
    assert_eq!(index.available_index(), Ok(1));
    assert_eq!(index.get_region(0), Ok(&MemoryRegion::new(0, 16, false)));
    assert_eq!(index.split_region(0, 4), Ok((0, 1)));
    // The table is full now: a cut that leaves something to the right needs a slot,
    // whatever it leaves to the left.
    assert_eq!(index.split_region(0, 2), Err(IndexError::NoIndexAvailable));
    assert_eq!(index.split_region(0, 0), Err(IndexError::NoIndexAvailable));
    assert_eq!(index.split_region(1, 0), Err(IndexError::NoIndexAvailable));
    assert_eq!(index.split_region(0, 4), Err(IndexError::RegionTooThin));
    assert_eq!(index.split_region(1, 13), Err(IndexError::RegionTooThin));
    assert_eq!(index.split_region(2, 0), Err(IndexError::NoSuchRegion));
    assert_eq!(index.get_region(0), Ok(&MemoryRegion::new(0, 4, false)));
    assert_eq!(index.get_region(1), Ok(&MemoryRegion::new(4, 12, false)));
}

#[test]
fn region_operations() {
    let mut region = MemoryRegion::new(8, 4, false);
    assert_eq!(region.end(), 12);
    assert!(region.contains(8));
    assert!(region.contains(11));
    assert!(!region.contains(12));
    assert!(!region.contains(7));
    region.reserve();
    assert_eq!(region, MemoryRegion::new(8, 4, true));
    region.free();
    assert_eq!(region, MemoryRegion::new(8, 4, false));
    assert!(!MemoryRegion::new(usize::MAX, 5, false).contains(3));
    assert!(MemoryRegion::new(usize::MAX, 5, false).contains(usize::MAX));
}

#[test]
fn find_region_is_the_first_holder() {
    let index: MemoryIndex<4> = MemoryIndex::new([
        Some(MemoryRegion::new(8, 8, true)),
        None,
        Some(MemoryRegion::new(0, 8, false)),
        None,
    ]);
    assert_eq!(index.find_region(0), Ok(2));
    assert_eq!(index.find_region(7), Ok(2));
    assert_eq!(index.find_region(8), Ok(0));
    assert_eq!(index.find_region(16), Err(IndexError::OutOfMemory));
}

#[test]
fn write_and_read_move_bytes() {
    let mut allocator: IndexAllocator<64, 4> = IndexAllocator::empty();
    allocator.write(10, &[1, 2, 3]);
    assert_eq!(allocator.read(9, 5), [0, 1, 2, 3, 0]);
    let at = allocator.try_alloc_value(0, &[4, 5], 4).unwrap();
    assert_eq!(at, 0);
    assert_eq!(allocator.read(0, 4), [4, 5, 0, 0]);
    assert_eq!(
        allocator.index().get_region(0),
        Ok(&MemoryRegion::new(0, 4, true))
    );
}

fn assert_tiles<const N: usize>(allocator: &IndexAllocator<64, N>, sorted: bool) {
    let mut regions: Vec<MemoryRegion> = table(allocator).into_iter().flatten().collect();
    assert!(regions.len() <= N);
    if sorted {
        let stored = regions.clone();
        regions.sort_by_key(|r| r.from);
        assert_eq!(stored, regions);
        for pair in regions.windows(2) {
            assert!(pair[0].used || pair[1].used);
        }
        let held = table(allocator);
        let first_vacant = held.iter().position(|slot| slot.is_none()).unwrap_or(N);
        assert!(held[first_vacant..].iter().all(|slot| slot.is_none()));
    } else {
        regions.sort_by_key(|r| r.from);
    }
    let mut at = 0;
    for region in &regions {
        assert!(region.size > 0);
        assert_eq!(region.from, at);
        at = region.end();
    }
    assert_eq!(at, 64);
}

#[test]
fn table_tiles_the_pool_after_every_operation() {
    let mut allocator: IndexAllocator<64, 6> = IndexAllocator::empty();
    assert_tiles(&allocator, true);
    let mut live: Vec<usize> = Vec::new();
    let requests = [(5usize, 1usize), (8, 8), (3, 2), (16, 16), (1, 1), (7, 4), (2, 1)];
    for (round, (size, align)) in requests.iter().enumerate() {
        match allocator.try_reserve(7, *size, *align) {
            Ok(offset) => live.push(offset),
            Err(e) => assert!(matches!(
                e,
                IndexError::NoFittingRegion | IndexError::NoIndexAvailable
            )),
        }
        assert_tiles(&allocator, false);
        if round % 3 == 2 {
            let offset = live.remove(0);
            assert_eq!(allocator.try_free_addr(offset), Ok(()));
            assert_tiles(&allocator, true);
        }
    }
    for offset in live {
        assert_eq!(allocator.try_free_addr(offset), Ok(()));
        assert_tiles(&allocator, true);
    }
    assert_eq!(
        table(&allocator),
        vec![Some(MemoryRegion::new(0, 64, false)), None, None, None, None, None]
    );
}
