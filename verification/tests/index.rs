use index_alloc::index::{AllocationBaker, MemoryIndex, MemoryRegion};
use index_alloc::IndexError;

fn create_index<const INDEX_SIZE: usize>(
    size: usize,
    from: &[Option<MemoryRegion>],
) -> MemoryIndex<INDEX_SIZE> {
    let mut regions: [Option<MemoryRegion>; INDEX_SIZE] = [None; INDEX_SIZE];
    regions[0] = Some(MemoryRegion::new(0, size, false));
    for (i, region) in from.iter().enumerate() {
        regions[i] = region.clone();
    }
    MemoryIndex::new(regions)
}

#[test]
fn test_available_index() {
    let index: MemoryIndex<8> = create_index(
        64,
        &[
            Some(MemoryRegion::new(0, 16, false)),
            Some(MemoryRegion::new(16, 16, true)),
            None,
            Some(MemoryRegion::new(32, 32, false)),
        ],
    );

    assert_eq!(index.available_index(), Ok(2));

    let index: MemoryIndex<4> = create_index(
        64,
        &[
            Some(MemoryRegion::new(0, 16, false)),
            Some(MemoryRegion::new(16, 16, true)),
            Some(MemoryRegion::new(32, 16, false)),
            Some(MemoryRegion::new(48, 16, false)),
        ],
    );

    assert_eq!(index.available_index(), Err(IndexError::NoIndexAvailable));
}

#[test]
fn test_index_size_region_available() {
    let index: MemoryIndex<8> = create_index(
        128,
        &[
            Some(MemoryRegion::new(0, 8, false)),
            Some(MemoryRegion::new(8, 32, true)),
            Some(MemoryRegion::new(40, 16, false)),
            Some(MemoryRegion::new(56, 32, true)),
            Some(MemoryRegion::new(88, 32, false)),
            Some(MemoryRegion::new(120, 8, false)),
        ],
    );

    assert_eq!(
        index.size_region_available(0, 16, 1),
        Ok(AllocationBaker {
            region: 2,
            offset: 0
        })
    );
    assert_eq!(
        index.size_region_available(0, 64, 1),
        Err(IndexError::NoFittingRegion)
    );
    assert_eq!(
        index.size_region_available(0, 16, 16),
        Ok(AllocationBaker {
            region: 4,
            offset: 8
        })
    );
}

#[test]
fn test_split_region() {
    let mut index: MemoryIndex<8> = create_index(
        64,
        &[
            Some(MemoryRegion::new(0, 8, false)),
            Some(MemoryRegion::new(8, 32, true)),
            Some(MemoryRegion::new(40, 16, false)),
            Some(MemoryRegion::new(56, 8, false)),
        ],
    );

    assert_eq!(index.split_region(2, 8), Ok((2, 4)));

    assert_eq!(
        *index.get_region(2).unwrap(),
        MemoryRegion::new(40, 8, false)
    );
    assert_eq!(
        *index.get_region(4).unwrap(),
        MemoryRegion::new(48, 8, false)
    );

    assert_eq!(index.split_region(0, 16), Err(IndexError::RegionTooThin));
}

#[test]
fn test_index_sort() {
    let index_blueprint = [
        Some(MemoryRegion::new(0, 16, false)),
        None,
        Some(MemoryRegion::new(32, 16, false)),
        Some(MemoryRegion::new(48, 16, true)),
        None,
        Some(MemoryRegion::new(16, 16, true)),
    ];
    let mut index: MemoryIndex<8> = create_index(64, &index_blueprint);

    index.sort_merge();

    assert_eq!(
        index.get_region(0).unwrap(),
        index_blueprint[0].as_ref().unwrap()
    );
    assert_eq!(
        index.get_region(1).unwrap(),
        index_blueprint[5].as_ref().unwrap()
    );
    assert_eq!(
        index.get_region(2).unwrap(),
        index_blueprint[2].as_ref().unwrap()
    );
    assert_eq!(
        index.get_region(3).unwrap(),
        index_blueprint[3].as_ref().unwrap()
    );
}

#[test]
fn test_index_merge() {
    let index_blueprint = [
        Some(MemoryRegion::new(0, 16, false)),
        None,
        Some(MemoryRegion::new(32, 16, true)),
        Some(MemoryRegion::new(48, 16, true)),
        None,
        Some(MemoryRegion::new(16, 16, false)),
    ];
    let mut index: MemoryIndex<8> = create_index(64, &index_blueprint);

    index.sort_merge();

    assert_eq!(
        *index.get_region(0).unwrap(),
        MemoryRegion::new(0, 32, false)
    );
    assert_eq!(
        index.get_region(1).unwrap(),
        index_blueprint[2].as_ref().unwrap()
    );
    assert_eq!(
        index.get_region(2).unwrap(),
        index_blueprint[3].as_ref().unwrap()
    );
}
