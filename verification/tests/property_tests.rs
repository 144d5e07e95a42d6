use devices::memory_mapper::{
    AddMapResult, BasicMemoryMapper, IdAllocator, MapperError, MappingInfo, MemRegion,
    MemoryMapper, Permission, Translate,
};

fn new_mapper(mask: u64) -> BasicMemoryMapper {
    let mut ids = IdAllocator::new();
    BasicMemoryMapper::new(mask, &mut ids)
}

#[test]
fn test_translate_round_trip() {
    let mut mapper = new_mapper(u64::MAX);
    mapper
        .add_map(MappingInfo::new(10, 1000, 10, Permission::RW).unwrap())
        .unwrap();
    assert_eq!(
        mapper.translate(10, 1).unwrap(),
        vec![MemRegion {
            gpa: 1000,
            len: 1,
            perm: Permission::RW
        }]
    );
    assert_eq!(
        mapper.translate(14, 1).unwrap(),
        vec![MemRegion {
            gpa: 1004,
            len: 1,
            perm: Permission::RW
        }]
    );
    mapper.translate(9, 1).unwrap_err();
    mapper.translate(20, 1).unwrap_err();
}

#[test]
fn test_merge_contiguous_same_permission() {
    let mut mapper = new_mapper(u64::MAX);
    mapper
        .add_map(MappingInfo::new(0, 1000, 4, Permission::Read).unwrap())
        .unwrap();
    mapper
        .add_map(MappingInfo::new(4, 1004, 4, Permission::Read).unwrap())
        .unwrap();
    assert_eq!(
        mapper.translate(0, 8).unwrap(),
        vec![MemRegion {
            gpa: 1000,
            len: 8,
            perm: Permission::Read
        }]
    );
}

#[test]
fn test_merge_split_on_permission() {
    let mut mapper = new_mapper(u64::MAX);
    mapper
        .add_map(MappingInfo::new(0, 1000, 4, Permission::Read).unwrap())
        .unwrap();
    mapper
        .add_map(MappingInfo::new(4, 1004, 4, Permission::RW).unwrap())
        .unwrap();
    assert_eq!(
        mapper.translate(0, 8).unwrap(),
        vec![
            MemRegion {
                gpa: 1000,
                len: 4,
                perm: Permission::Read
            },
            MemRegion {
                gpa: 1004,
                len: 4,
                perm: Permission::RW
            },
        ]
    );
}

#[test]
fn test_overlap_rejection_leaves_table_unchanged() {
    let mut mapper = new_mapper(u64::MAX);
    mapper
        .add_map(MappingInfo::new(10, 1000, 10, Permission::RW).unwrap())
        .unwrap();
    let attempts = [
        (14u64, 1u64),
        (0u64, 12u64),
        (16u64, 6u64),
        (5u64, 20u64),
    ];
    for (iova, size) in attempts {
        assert_eq!(
            mapper
                .add_map(MappingInfo::new(iova, 7777, size, Permission::Read).unwrap())
                .unwrap(),
            AddMapResult::OverlapFailure
        );
        assert_eq!(mapper.len(), 1);
        // The pre-existing mapping is still fully intact.
        assert_eq!(
            mapper.translate(10, 10).unwrap(),
            vec![MemRegion {
                gpa: 1000,
                len: 10,
                perm: Permission::RW
            }]
        );
    }
}

#[test]
fn test_remove_partial_overlap_atomic() {
    let mut mapper = new_mapper(u64::MAX);
    mapper
        .add_map(MappingInfo::new(1, 100, 4, Permission::Read).unwrap())
        .unwrap();
    mapper
        .add_map(MappingInfo::new(5, 200, 4, Permission::Read).unwrap())
        .unwrap();
    mapper
        .add_map(MappingInfo::new(9, 300, 4, Permission::Read).unwrap())
        .unwrap();
    // [0, 6) partially overlaps the second entry: nothing is removed.
    assert!(!mapper.remove_map(0, 6).unwrap());
    assert_eq!(mapper.len(), 3);
    // [5, 9) matches one entry exactly: it alone is removed.
    assert!(mapper.remove_map(5, 4).unwrap());
    assert_eq!(mapper.len(), 2);
    assert_eq!(
        mapper.translate(1, 4).unwrap(),
        vec![MemRegion {
            gpa: 100,
            len: 4,
            perm: Permission::Read
        }]
    );
    assert_eq!(
        mapper.translate(9, 4).unwrap(),
        vec![MemRegion {
            gpa: 300,
            len: 4,
            perm: Permission::Read
        }]
    );
    mapper.translate(5, 1).unwrap_err();
}

#[test]
fn test_translate_gap_detection() {
    let mut mapper = new_mapper(u64::MAX);
    mapper
        .add_map(MappingInfo::new(1, 1000, 8, Permission::Read).unwrap())
        .unwrap();
    mapper
        .add_map(MappingInfo::new(11, 1010, 6, Permission::Read).unwrap())
        .unwrap();
    // [3, 13) spans the gap at [9, 11): the whole query fails.
    assert_eq!(mapper.translate(3, 10).unwrap_err(), MapperError::InvalidIova);
    // Each side of the gap still translates on its own.
    assert!(mapper.translate(3, 6).is_ok());
    assert!(mapper.translate(11, 6).is_ok());
}

#[test]
fn test_error_variants() {
    let mut mapper = new_mapper(u64::MAX);
    mapper
        .add_map(MappingInfo::new(10, 1000, 10, Permission::RW).unwrap())
        .unwrap();
    // Construction errors, in checking order.
    assert_eq!(
        MappingInfo::new(1, 5, 0, Permission::Read).unwrap_err(),
        MapperError::ZeroSize
    );
    assert_eq!(
        MappingInfo::new(u64::MAX, 5, 2, Permission::Read).unwrap_err(),
        MapperError::IovaOverflow
    );
    assert_eq!(
        MappingInfo::new(1, u64::MAX, 2, Permission::Read).unwrap_err(),
        MapperError::GpaOverflow
    );
    // Mutation and query errors.
    assert_eq!(
        mapper.remove_map(0, 0).unwrap_err(),
        MapperError::ZeroSize
    );
    assert_eq!(
        mapper.remove_map(u64::MAX, 2).unwrap_err(),
        MapperError::IovaOverflow
    );
    assert_eq!(mapper.translate(10, 0).unwrap_err(), MapperError::ZeroSize);
    assert_eq!(
        mapper.translate(u64::MAX, 2).unwrap_err(),
        MapperError::IovaOverflow
    );
    assert_eq!(mapper.translate(30, 1).unwrap_err(), MapperError::InvalidIova);
    // Adding an entry that was built by hand with an overflowing end is
    // rejected by add_map itself.
    assert_eq!(
        mapper
            .add_map(MappingInfo {
                iova: u64::MAX,
                gpa: 0,
                size: 2,
                perm: Permission::Read
            })
            .unwrap_err(),
        MapperError::IovaOverflow
    );
    assert_eq!(
        mapper
            .add_map(MappingInfo {
                iova: 0,
                gpa: u64::MAX,
                size: 2,
                perm: Permission::Read
            })
            .unwrap_err(),
        MapperError::GpaOverflow
    );
    assert_eq!(
        mapper
            .add_map(MappingInfo {
                iova: 0,
                gpa: 0,
                size: 0,
                perm: Permission::Read
            })
            .unwrap_err(),
        MapperError::ZeroSize
    );
}

#[test]
fn test_adjacent_mappings_are_not_overlapping() {
    let mut mapper = new_mapper(u64::MAX);
    mapper
        .add_map(MappingInfo::new(10, 1000, 10, Permission::RW).unwrap())
        .unwrap();
    // Touching at the boundary on either side succeeds.
    assert_eq!(
        mapper
            .add_map(MappingInfo::new(20, 2000, 5, Permission::Read).unwrap())
            .unwrap(),
        AddMapResult::Success
    );
    assert_eq!(
        mapper
            .add_map(MappingInfo::new(5, 3000, 5, Permission::Read).unwrap())
            .unwrap(),
        AddMapResult::Success
    );
    assert_eq!(mapper.len(), 3);
}

#[test]
fn test_domain_lifecycle_and_introspection() {
    let mut ids = IdAllocator::new();
    let mut a = BasicMemoryMapper::new(0xffff_ffff, &mut ids);
    let mut b = BasicMemoryMapper::new(u64::MAX, &mut ids);
    // Identities are unique across sibling tables.
    assert_ne!(a.id(), b.id());
    assert_eq!(a.get_mask().unwrap(), 0xffff_ffff);
    assert_eq!(b.get_mask().unwrap(), u64::MAX);
    assert!(a.supports_detach());
    a.add_map(MappingInfo::new(0, 1000, 4, Permission::RW).unwrap())
        .unwrap();
    b.add_map(MappingInfo::new(0, 2000, 4, Permission::RW).unwrap())
        .unwrap();
    assert_eq!(a.len(), 1);
    a.reset_domain();
    assert_eq!(a.len(), 0);
    a.translate(0, 1).unwrap_err();
    // Sibling domains are independent.
    assert_eq!(b.len(), 1);
    assert_eq!(
        b.translate(0, 4).unwrap(),
        vec![MemRegion {
            gpa: 2000,
            len: 4,
            perm: Permission::RW
        }]
    );
}

#[test]
fn test_id_allocator_is_monotonic() {
    let mut ids = IdAllocator::new();
    let a = ids.allocate();
    let b = ids.allocate();
    let c = ids.allocate();
    assert_eq!(a, 0);
    assert_eq!(b, 1);
    assert_eq!(c, 2);
}
