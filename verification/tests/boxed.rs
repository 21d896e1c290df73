use index_alloc::boxed::Box;
use index_alloc::index::MemoryRegion;
use index_alloc::{IndexAllocator, IndexError};

#[test]
fn test_box_allocation() {
    let mut allocator: IndexAllocator<64, 8> = IndexAllocator::empty();

    let test_box = Box::try_new(&[1u8, 2, 3, 4], 1, 0, &mut allocator).unwrap();

    assert_eq!(*test_box.deref(&allocator), [1, 2, 3, 4]);
    assert_eq!(allocator.memory()[0], 1);
    assert_eq!(allocator.memory()[1], 2);
    assert_eq!(allocator.memory()[2], 3);
    assert_eq!(allocator.memory()[3], 4);
}

#[test]
fn box_splits_the_pool_and_drop_restores_it() {
    let mut allocator: IndexAllocator<64, 8> = IndexAllocator::empty();

    let test_box = allocator.try_boxed(&[1u8, 2, 3, 4], 1, 0).unwrap();

    assert_eq!(
        allocator.index().get_region(0),
        Ok(&MemoryRegion::new(0, 4, true))
    );
    assert_eq!(
        allocator.index().get_region(1),
        Ok(&MemoryRegion::new(4, 60, false))
    );
    assert_eq!(
        allocator.index().get_region(2),
        Err(IndexError::NoSuchRegion)
    );

    test_box.drop(&mut allocator);

    assert_eq!(
        allocator.index().get_region(0),
        Ok(&MemoryRegion::new(0, 64, false))
    );
    assert_eq!(
        allocator.index().get_region(1),
        Err(IndexError::NoSuchRegion)
    );
    // The bytes stay where they were written; only the table changes.
    assert_eq!(allocator.memory()[3], 4);
}

#[test]
fn box_try_free_reports_success() {
    let mut allocator: IndexAllocator<32, 4> = IndexAllocator::empty();
    let first = Box::try_new(&[9u8; 8], 1, 0, &mut allocator).unwrap();
    let second = Box::try_new(&[7u8; 8], 1, 0, &mut allocator).unwrap();

    assert_eq!(first.try_free(&mut allocator), Ok(()));
    assert_eq!(
        allocator.index().get_region(0),
        Ok(&MemoryRegion::new(0, 8, false))
    );
    assert_eq!(
        allocator.index().get_region(1),
        Ok(&MemoryRegion::new(8, 8, true))
    );
    assert_eq!(
        allocator.index().get_region(2),
        Ok(&MemoryRegion::new(16, 16, false))
    );
    assert_eq!(*second.deref(&allocator), [7u8; 8]);
    assert_eq!(second.try_free(&mut allocator), Ok(()));
    assert_eq!(
        allocator.index().get_region(0),
        Ok(&MemoryRegion::new(0, 32, false))
    );
}

#[test]
fn box_out_of_the_pool_cannot_be_freed() {
    let mut allocator: IndexAllocator<16, 4> = IndexAllocator::empty();
    let stray: Box<16, 4> = Box::from_raw_ref(16, 0);
    assert_eq!(stray.try_free(&mut allocator), Err(IndexError::OutOfMemory));
    assert_eq!(
        allocator.index().get_region(0),
        Ok(&MemoryRegion::new(0, 16, false))
    );
}

#[test]
fn box_deref_mut_overwrites_the_value() {
    let mut allocator: IndexAllocator<16, 4> = IndexAllocator::empty();
    let _padding = Box::try_new(&[0u8; 3], 1, 0, &mut allocator).unwrap();
    let test_box = Box::try_new(&[1u8, 2], 1, 0, &mut allocator).unwrap();
    test_box.deref_mut(&mut allocator, &[5, 6]);
    assert_eq!(*test_box.deref(&allocator), [5, 6]);
    assert_eq!(allocator.memory()[2], 0);
    assert_eq!(allocator.memory()[3], 5);
    assert_eq!(allocator.memory()[4], 6);
    assert_eq!(allocator.memory()[5], 0);
}

#[test]
fn box_new_fails_as_the_reservation_does() {
    let mut allocator: IndexAllocator<4, 4> = IndexAllocator::empty();
    assert!(matches!(
        Box::try_new(&[0u8; 8], 1, 0, &mut allocator),
        Err(IndexError::NoFittingRegion)
    ));
    let mut single: IndexAllocator<16, 1> = IndexAllocator::empty();
    assert!(matches!(
        Box::try_new(&[0u8; 8], 1, 0, &mut single),
        Err(IndexError::NoIndexAvailable)
    ));
    assert_eq!(
        single.index().get_region(0),
        Ok(&MemoryRegion::new(0, 16, false))
    );
}

#[test]
fn box_of_an_empty_value() {
    let mut allocator: IndexAllocator<64, 8> = IndexAllocator::empty();
    let unit = Box::try_new(&[], 1, 0, &mut allocator).unwrap();
    let next = Box::try_new(&[9u8], 1, 0, &mut allocator).unwrap();
    assert!(unit.deref(&allocator).is_empty());
    assert_eq!(
        allocator.index().get_region(0),
        Ok(&MemoryRegion::new(0, 1, true))
    );
    assert_eq!(
        allocator.index().get_region(1),
        Ok(&MemoryRegion::new(1, 1, true))
    );
    assert_eq!(unit.try_free(&mut allocator), Ok(()));
    assert_eq!(
        allocator.index().get_region(0),
        Ok(&MemoryRegion::new(0, 1, false))
    );
    assert_eq!(*next.deref(&allocator), [9]);
    next.drop(&mut allocator);
    assert_eq!(
        allocator.index().get_region(0),
        Ok(&MemoryRegion::new(0, 64, false))
    );
}
