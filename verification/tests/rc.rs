use index_alloc::index::MemoryRegion;
use index_alloc::rc::{Effect, Event, Rc, RcBox, ValueRef, Weak, BLOCK_SIZE};
use index_alloc::{IndexAllocator, IndexError};

#[test]
fn test_rc_allocation() {
    let mut allocator: IndexAllocator<64, 8> = IndexAllocator::empty();

    let test_rc = Rc::try_new(&[1u8, 2, 3, 4], 1, 0, &mut allocator).unwrap();

    assert_eq!(*test_rc.deref(&allocator), [1, 2, 3, 4]);

    test_rc.drop(&mut allocator);

    assert_eq!(
        allocator.index().get_region(0),
        Ok(&MemoryRegion::new(0, 64, false))
    );
}

#[test]
fn test_rc_counting() {
    let mut allocator: IndexAllocator<64, 8> = IndexAllocator::empty();

    let test_rc = Rc::try_new("Hello world".as_bytes(), 1, 0, &mut allocator).unwrap();

    assert_eq!(test_rc.strong_count(&allocator), 1);

    {
        let rc_clone = Rc::clone(&test_rc, &mut allocator);

        assert_eq!(rc_clone.strong_count(&allocator), 2);
        rc_clone.drop(&mut allocator);
    }

    assert_eq!(test_rc.strong_count(&allocator), 1);
    assert_eq!(test_rc.deref(&allocator), "Hello world".as_bytes());
}

#[test]
fn test_weak_counting() {
    let mut allocator: IndexAllocator<64, 8> = IndexAllocator::empty();

    let test_rc = Rc::try_new("Hello World".as_bytes(), 1, 0, &mut allocator).unwrap();
    let test_weak = test_rc.downgrade(&mut allocator);

    assert_eq!(test_rc.strong_count(&allocator), 1);
    assert_eq!(test_rc.weak_count(&allocator), 1);
    assert_eq!(test_weak.strong_count(&allocator), 1);
    assert_eq!(test_weak.weak_count(&allocator), 1);

    {
        let second_rc = test_weak.upgrade(&mut allocator).unwrap();
        assert_eq!(second_rc.weak_count(&allocator), 1);
        assert_eq!(second_rc.strong_count(&allocator), 2);
        second_rc.drop(&mut allocator);
    }

    assert_eq!(test_rc.strong_count(&allocator), 1);
}

#[test]
fn test_weak_on_dropped_value() {
    let mut allocator: IndexAllocator<64, 8> = IndexAllocator::empty();

    let test_rc = Rc::try_new("Hello World".as_bytes(), 1, 0, &mut allocator).unwrap();
    let test_weak = test_rc.downgrade(&mut allocator);

    test_rc.drop(&mut allocator);

    assert_eq!(test_weak.strong_count(&allocator), 0);
    assert!(matches!(test_weak.upgrade(&mut allocator), None));

    test_weak.drop(&mut allocator);

    assert_eq!(
        allocator.index().get_region(0),
        Ok(&MemoryRegion::new(0, 64, false))
    );
}

#[test]
fn counts_follow_clone_downgrade_and_drop() {
    let mut allocator: IndexAllocator<64, 8> = IndexAllocator::empty();
    let rc = Rc::try_new("hello".as_bytes(), 1, 0, &mut allocator).unwrap();
    assert_eq!(rc.strong_count(&allocator), 1);
    assert_eq!(rc.weak_count(&allocator), 0);
    let clone = rc.clone(&mut allocator);
    assert_eq!(rc.strong_count(&allocator), 2);
    clone.drop(&mut allocator);
    assert_eq!(rc.strong_count(&allocator), 1);
    let weak = rc.downgrade(&mut allocator);
    assert_eq!(weak.weak_count(&allocator), 1);
    rc.drop(&mut allocator);
    assert!(weak.upgrade(&mut allocator).is_none());
    // The value is gone, the control block is still held by the weak handle.
    assert_eq!(
        allocator.index().get_region(0),
        Ok(&MemoryRegion::new(0, 5, false))
    );
    assert_eq!(
        allocator.index().get_region(1),
        Ok(&MemoryRegion::new(5, 43, true))
    );
    assert_eq!(
        allocator.index().get_region(2),
        Ok(&MemoryRegion::new(48, 16, false))
    );
    weak.drop(&mut allocator);
    assert_eq!(
        allocator.index().get_region(0),
        Ok(&MemoryRegion::new(0, 64, false))
    );
    assert_eq!(
        allocator.index().get_region(1),
        Err(IndexError::NoSuchRegion)
    );
}

#[test]
fn control_block_is_placed_in_the_pool() {
    let mut allocator: IndexAllocator<64, 8> = IndexAllocator::empty();
    let rc = Rc::try_new(&[7u8; 11], 1, 0, &mut allocator).unwrap();
    // Eleven bytes of value, five of padding, then the forty bytes of the control block.
    assert_eq!(
        allocator.index().get_region(0),
        Ok(&MemoryRegion::new(0, 11, true))
    );
    assert_eq!(
        allocator.index().get_region(1),
        Ok(&MemoryRegion::new(11, 45, true))
    );
    assert_eq!(
        allocator.index().get_region(2),
        Ok(&MemoryRegion::new(56, 8, false))
    );
    assert_eq!(
        RcBox::load(&allocator, 16),
        RcBox {
            val: Some(ValueRef { at: 0, len: 11 }),
            strong: 1,
            weak: 0
        }
    );
    assert_eq!(rc.strong_count(&allocator), 1);
}

#[test]
fn control_block_round_trips_through_bytes() {
    let block = RcBox {
        val: Some(ValueRef { at: 3, len: 0x0102 }),
        strong: 5,
        weak: usize::MAX,
    };
    let bytes = block.to_bytes();
    assert_eq!(bytes.len(), BLOCK_SIZE);
    assert_eq!(&bytes[..8], &[1, 0, 0, 0, 0, 0, 0, 0]);
    assert_eq!(&bytes[8..16], &[3, 0, 0, 0, 0, 0, 0, 0]);
    assert_eq!(&bytes[16..24], &[2, 1, 0, 0, 0, 0, 0, 0]);
    assert_eq!(&bytes[24..32], &[5, 0, 0, 0, 0, 0, 0, 0]);
    assert_eq!(RcBox::from_bytes(&bytes), block);
    let gone = RcBox {
        val: None,
        strong: 0,
        weak: 2,
    };
    assert_eq!(RcBox::from_bytes(&gone.to_bytes()), gone);
    assert_eq!(&gone.to_bytes()[..24], &[0u8; 24]);
}

#[test]
fn control_block_counters() {
    let mut block = RcBox {
        val: Some(ValueRef { at: 0, len: 1 }),
        strong: 0,
        weak: 0,
    };
    block.increment_strong();
    block.increment_strong();
    block.increment_weak();
    assert_eq!((block.strong, block.weak), (2, 1));
    block.decrement_strong();
    block.decrement_weak();
    assert_eq!((block.strong, block.weak), (1, 0));
}

#[test]
fn rc_new_releases_the_value_when_the_block_does_not_fit() {
    let mut allocator: IndexAllocator<32, 8> = IndexAllocator::empty();
    assert!(matches!(
        Rc::try_new(&[1u8; 4], 1, 0, &mut allocator),
        Err(IndexError::NoFittingRegion)
    ));
    assert_eq!(
        allocator.index().get_region(0),
        Ok(&MemoryRegion::new(0, 32, false))
    );
    assert_eq!(
        allocator.index().get_region(1),
        Err(IndexError::NoSuchRegion)
    );
    assert_eq!(allocator.read(0, 4), [1u8; 4]);

    let mut tight: IndexAllocator<64, 2> = IndexAllocator::empty();
    assert!(matches!(
        Rc::try_new(&[1u8; 4], 1, 0, &mut tight),
        Err(IndexError::NoIndexAvailable)
    ));
    assert_eq!(
        tight.index().get_region(0),
        Ok(&MemoryRegion::new(0, 64, false))
    );

    let mut none: IndexAllocator<64, 8> = IndexAllocator::empty();
    assert!(matches!(
        Rc::try_new(&[1u8; 65], 1, 0, &mut none),
        Err(IndexError::NoFittingRegion)
    ));
}

#[test]
fn weak_outlives_and_last_handle_reclaims() {
    let mut allocator: IndexAllocator<128, 8> = IndexAllocator::empty();
    let first = Rc::try_new(&[1u8; 8], 8, 0, &mut allocator).unwrap();
    let second = Rc::try_new(&[2u8; 8], 8, 0, &mut allocator).unwrap();
    let weak: Weak<128, 8> = first.downgrade(&mut allocator);
    let upgraded = weak.upgrade(&mut allocator).unwrap();
    assert_eq!(upgraded.deref(&allocator), first.deref(&allocator));
    assert_eq!(*upgraded.deref(&allocator), [1u8; 8]);
    assert_eq!(first.strong_count(&allocator), 2);
    weak.drop(&mut allocator);
    assert_eq!(first.weak_count(&allocator), 0);
    first.drop(&mut allocator);
    assert_eq!(*upgraded.deref(&allocator), [1u8; 8]);
    upgraded.drop(&mut allocator);
    assert_eq!(*second.deref(&allocator), [2u8; 8]);
    second.drop(&mut allocator);
    assert_eq!(
        allocator.index().get_region(0),
        Ok(&MemoryRegion::new(0, 128, false))
    );
}

#[test]
fn rc_of_an_empty_value_is_reclaimed() {
    let mut allocator: IndexAllocator<64, 8> = IndexAllocator::empty();
    let rc = Rc::try_new(&[], 1, 0, &mut allocator).unwrap();
    assert!(rc.deref(&allocator).is_empty());
    assert_eq!(
        allocator.index().get_region(0),
        Ok(&MemoryRegion::new(0, 1, true))
    );
    assert_eq!(
        allocator.index().get_region(1),
        Ok(&MemoryRegion::new(1, 47, true))
    );
    let weak = rc.downgrade(&mut allocator);
    rc.drop(&mut allocator);
    weak.drop(&mut allocator);
    assert_eq!(
        allocator.index().get_region(0),
        Ok(&MemoryRegion::new(0, 64, false))
    );
}

#[test]
fn step_moves_the_counters_and_says_what_to_release() {
    let nothing = Effect {
        handle: false,
        release_value: false,
        release_block: false,
    };
    let mut block = RcBox {
        val: Some(ValueRef { at: 0, len: 4 }),
        strong: 1,
        weak: 0,
    };
    assert!(block.allows(Event::DropStrong));
    assert!(!block.allows(Event::DropWeak));
    assert_eq!(block.step(Event::Clone), Effect { handle: true, ..nothing });
    assert_eq!(block.step(Event::Downgrade), Effect { handle: true, ..nothing });
    assert_eq!((block.strong, block.weak), (2, 1));
    assert_eq!(block.step(Event::DropStrong), nothing);
    assert_eq!(block.effect_of(Event::DropStrong), Effect { release_value: true, ..nothing });
    assert_eq!(block.step(Event::Upgrade), Effect { handle: true, ..nothing });
    assert_eq!(block.step(Event::DropStrong), nothing);
    assert_eq!(block.step(Event::DropStrong), Effect { release_value: true, ..nothing });
    assert_eq!(block, RcBox { val: None, strong: 0, weak: 1 });
    assert_eq!(block.step(Event::Upgrade), nothing);
    assert_eq!(block, RcBox { val: None, strong: 0, weak: 1 });
    assert!(!block.allows(Event::DropStrong));
    assert_eq!(block.step(Event::DropWeak), Effect { release_block: true, ..nothing });

    let mut last = RcBox {
        val: Some(ValueRef { at: 8, len: 1 }),
        strong: 1,
        weak: 0,
    };
    assert_eq!(
        last.step(Event::DropStrong),
        Effect {
            handle: false,
            release_value: true,
            release_block: true
        }
    );
    let full = RcBox {
        val: None,
        strong: usize::MAX,
        weak: usize::MAX,
    };
    assert!(!full.allows(Event::Clone));
    assert!(!full.allows(Event::Upgrade));
    assert!(!full.allows(Event::Downgrade));
}
