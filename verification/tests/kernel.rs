use defragger::extents::{
    allocated_bytes, bad_flags, count_runs, extent_ranges, join_blocks, logical_data_is_dense,
    physical_for_logical, physical_range, physical_ranges, plan_blocks, BlockPlan,
};
use defragger::arith::ratio_basis_points;
use defragger::domain::PhysicalRange;
use defragger::error::{IoKind, OsError, ServiceError};
use defragger::linux::{
    classify_record, ior, iowr, move_request, moved_blocks, FiemapQuery, FileExtent, FsMap, FsMapKind, FsMapQuery, IoctlError,
    MetadataKind, Paging, BATCH, EXT4_FMR_OWN_LOG, FIEMAP_EXTENT_LAST, FIEMAP_EXTENT_SIZE,
    FIEMAP_EXTENT_UNKNOWN, FIEMAP_HEADER_SIZE, FIEMAP_REQUEST_SIZE, FMR_OF_LAST,
    FMR_OF_SPECIAL_OWNER, FMR_OWN_FREE, FMR_OWN_METADATA, FSMAP_HEADER_SIZE, FSMAP_RECORD_SIZE,
    FSMAP_REQUEST_SIZE, MOVE_EXTENT_SIZE,
};
use defragger::report_map::map_error;

fn extent(logical: u64, physical: u64, length: u64, flags: u32) -> FileExtent {
    FileExtent { logical, physical, length, flags }
}

fn put(bytes: &mut Vec<u8>, at: usize, value: &[u8]) {
    bytes[at..at + value.len()].copy_from_slice(value);
}

fn fiemap_reply(extents: &[FileExtent]) -> Vec<u8> {
    let mut reply = vec![0u8; FIEMAP_REQUEST_SIZE];
    put(&mut reply, 20, &(extents.len() as u32).to_le_bytes());
    for (index, extent) in extents.iter().enumerate() {
        let at = FIEMAP_HEADER_SIZE + index * FIEMAP_EXTENT_SIZE;
        put(&mut reply, at, &extent.logical.to_le_bytes());
        put(&mut reply, at + 8, &extent.physical.to_le_bytes());
        put(&mut reply, at + 16, &extent.length.to_le_bytes());
        put(&mut reply, at + 40, &extent.flags.to_le_bytes());
    }
    reply
}

fn fsmap_reply(records: &[FsMap]) -> Vec<u8> {
    let mut reply = vec![0u8; FSMAP_REQUEST_SIZE];
    put(&mut reply, 12, &(records.len() as u32).to_le_bytes());
    for (index, record) in records.iter().enumerate() {
        let at = FSMAP_HEADER_SIZE + index * FSMAP_RECORD_SIZE;
        put(&mut reply, at, &record.device.to_le_bytes());
        put(&mut reply, at + 4, &record.flags.to_le_bytes());
        put(&mut reply, at + 8, &record.physical.to_le_bytes());
        put(&mut reply, at + 16, &record.owner.to_le_bytes());
        put(&mut reply, at + 24, &record.offset.to_le_bytes());
        put(&mut reply, at + 32, &record.length.to_le_bytes());
    }
    reply
}

fn record(flags: u32, physical: u64, owner: u64, length: u64) -> FsMap {
    FsMap { device: 8, flags, physical, owner, offset: 0, length }
}

#[test]
fn uapi_layouts_match_linux_headers() {
    assert_eq!(FIEMAP_EXTENT_SIZE, 56);
    assert_eq!(FIEMAP_HEADER_SIZE, 32);
    assert_eq!(FSMAP_RECORD_SIZE, 64);
    assert_eq!(FSMAP_HEADER_SIZE, 192);
}

#[test]
fn ioctl_numbers_match_x86_64_linux_uapi() {
    assert_eq!(iowr(b'f', 11, 32), 0xC020_660B);
    assert_eq!(iowr(b'X', 59, 192), 0xC0C0_583B);
}

#[test]
fn reading_requests_have_their_own_direction() {
    assert_eq!(ior(b'f', 1, 8), 0x8008_6601);
}

#[test]
fn adjacent_physical_extents_form_one_run() {
    let extents = vec![
        extent(0, 100, 10, 0),
        extent(10, 110, 10, 0),
        extent(20, 200, 10, 0),
    ];
    assert_eq!(count_runs(&extents), 2);
}

#[test]
fn fragmentation_ratio_uses_scanned_allocated_bytes() {
    assert_eq!(ratio_basis_points(25, 100), Some(2500));
    assert_eq!(ratio_basis_points(0, 0), None);
}

#[test]
fn discontinuous_cluster_extents_are_fragmented() {
    let extents = vec![extent(0, 4096, 4096, 0), extent(4096, 12_288, 4096, 0)];
    assert_eq!(count_runs(&extents), 2);
}

#[test]
fn a_file_request_has_the_layout_of_the_kernel() {
    let query = FiemapQuery::new(true);
    let bytes = query.request();
    assert_eq!(bytes.len(), FIEMAP_REQUEST_SIZE);
    assert_eq!(&bytes[0..8], &0u64.to_le_bytes());
    assert_eq!(&bytes[8..16], &u64::MAX.to_le_bytes());
    assert_eq!(&bytes[16..20], &1u32.to_le_bytes());
    assert_eq!(&bytes[24..28], &(BATCH as u32).to_le_bytes());
    assert_eq!(&FiemapQuery::new(false).request()[16..20], &0u32.to_le_bytes());
}

#[test]
fn file_mapping_goes_on_behind_the_last_extent() {
    let mut query = FiemapQuery::new(false);
    let first = extent(0, 4096, 8192, 0);
    assert_eq!(query.accept(&fiemap_reply(&[first])).unwrap(), Paging::Continue);
    assert_eq!(query.start, 8192);
    let second = extent(8192, 65_536, 4096, FIEMAP_EXTENT_LAST);
    assert_eq!(query.accept(&fiemap_reply(&[second])).unwrap(), Paging::Done);
    assert_eq!(query.extents, vec![first, second]);
}

#[test]
fn an_empty_file_mapping_is_complete() {
    let mut query = FiemapQuery::new(false);
    assert_eq!(query.accept(&fiemap_reply(&[])).unwrap(), Paging::Done);
    assert!(query.extents.is_empty());
}

#[test]
fn impossible_mapping_replies_are_refused() {
    let mut query = FiemapQuery::new(false);
    let mut reply = vec![0u8; FIEMAP_REQUEST_SIZE];
    put(&mut reply, 20, &257u32.to_le_bytes());
    assert!(matches!(query.accept(&reply), Err(IoctlError::InvalidCount("FIEMAP"))));
    let stuck = fiemap_reply(&[extent(0, 4096, 0, 0)]);
    assert!(matches!(query.accept(&stuck), Err(IoctlError::DidNotAdvance)));
    let mut map = FsMapQuery::new();
    let mut reply = vec![0u8; FSMAP_REQUEST_SIZE];
    put(&mut reply, 12, &257u32.to_le_bytes());
    assert!(matches!(map.accept(&reply), Err(IoctlError::InvalidCount("FSMAP"))));
    let stuck = fsmap_reply(&[record(0, 0, 0, 0)]);
    assert!(matches!(map.accept(&stuck), Err(IoctlError::DidNotAdvance)));
}

#[test]
fn the_allocation_map_is_read_in_pages() {
    let mut map = FsMapQuery::new();
    assert_eq!(map.request().len(), FSMAP_REQUEST_SIZE);
    let first = record(FMR_OF_SPECIAL_OWNER, 0, FMR_OWN_FREE, 4096);
    assert_eq!(map.accept(&fsmap_reply(&[first])).unwrap(), Paging::Continue);
    assert_eq!(map.low, first);
    let second = record(FMR_OF_LAST, 4096, 12, 4096);
    assert_eq!(map.accept(&fsmap_reply(&[second])).unwrap(), Paging::Done);
    assert_eq!(map.ranges.len(), 2);
    assert_eq!(map.ranges[0].kind, FsMapKind::Free);
    assert_eq!(map.ranges[1].kind, FsMapKind::Allocated);
}

#[test]
fn records_are_classified_by_their_owners() {
    let special = FMR_OF_SPECIAL_OWNER;
    assert_eq!(classify_record(&record(special, 0, FMR_OWN_FREE, 1)), FsMapKind::Free);
    assert_eq!(
        classify_record(&record(special, 0, EXT4_FMR_OWN_LOG, 1)),
        FsMapKind::Metadata(MetadataKind::Journal)
    );
    assert_eq!(
        classify_record(&record(special, 0, FMR_OWN_METADATA, 1)),
        FsMapKind::Metadata(MetadataKind::Other)
    );
    assert_eq!(classify_record(&record(0, 0, FMR_OWN_FREE, 1)), FsMapKind::Allocated);
}

#[test]
fn runs_are_at_least_one_and_at_most_the_extents() {
    assert_eq!(count_runs(&vec![]), 0);
    assert_eq!(count_runs(&vec![extent(0, 7, 3, 0)]), 1);
    let apart = vec![extent(0, 0, 1, 0), extent(1, 10, 1, 0), extent(2, 20, 1, 0)];
    assert_eq!(count_runs(&apart), 3);
    assert_eq!(allocated_bytes(&apart), 3);
    assert_eq!(allocated_bytes(&vec![extent(0, 0, u64::MAX, 0), extent(1, 1, 1, 0)]), u64::MAX);
}

#[test]
fn a_file_with_a_hole_is_not_dense() {
    let dense = vec![extent(0, 100, 10, 0), extent(10, 300, 10, 0)];
    assert!(logical_data_is_dense(&dense, 20));
    assert!(!logical_data_is_dense(&dense, 21));
    let holed = vec![extent(0, 100, 10, 0), extent(12, 300, 10, 0)];
    assert!(!logical_data_is_dense(&holed, 20));
}

#[test]
fn unplaced_extents_have_no_physical_range() {
    assert_eq!(
        physical_range(&extent(0, 5, 6, 0)),
        Some(PhysicalRange { offset_bytes: 5, length_bytes: 6 })
    );
    assert_eq!(physical_range(&extent(0, 5, 6, FIEMAP_EXTENT_UNKNOWN)), None);
    let list = vec![extent(0, 5, 6, 0), extent(6, 0, 1, FIEMAP_EXTENT_UNKNOWN)];
    assert_eq!(physical_ranges(&list).len(), 1);
    assert_eq!(extent_ranges(&list).len(), 2);
    assert_eq!(bad_flags(&list), FIEMAP_EXTENT_UNKNOWN);
}

#[test]
fn a_part_of_a_file_is_found_on_the_device() {
    let list = vec![extent(0, 1_000, 100, 0), extent(100, 5_000, 100, 0)];
    assert_eq!(
        physical_for_logical(&list, 50, 100),
        vec![
            PhysicalRange { offset_bytes: 1_050, length_bytes: 50 },
            PhysicalRange { offset_bytes: 5_000, length_bytes: 50 },
        ]
    );
}

#[test]
fn a_broken_allocation_map_is_corruption() {
    let broken = IoctlError::Io {
        operation: "FS_IOC_GETFSMAP",
        source: OsError { kind: IoKind::Other, code: Some(74), message: "Bad message".to_owned() },
    };
    assert!(matches!(map_error(broken), ServiceError::UnsafeFilesystem(_)));
    let other = IoctlError::Io {
        operation: "FS_IOC_GETFSMAP",
        source: OsError { kind: IoKind::Other, code: Some(25), message: "no".to_owned() },
    };
    assert!(matches!(map_error(other), ServiceError::Kernel(_)));
}

#[test]
fn neighbouring_blocks_form_one_extent() {
    let blocks = vec![10, 11, 0, 13, 20];
    assert_eq!(
        join_blocks(&blocks, 512),
        vec![
            extent(0, 5_120, 1_024, 0),
            extent(1_536, 6_656, 512, 0),
            extent(2_048, 10_240, 512, 0),
        ]
    );
    assert!(join_blocks(&vec![0, 0], 512).is_empty());
    assert_eq!(allocated_bytes(&join_blocks(&blocks, 512)), 4 * 512);
}

#[test]
fn exchanges_are_asked_for_in_forty_bytes() {
    let bytes = move_request(7, 0x0102_0304, 9);
    assert_eq!(bytes.len(), MOVE_EXTENT_SIZE);
    assert_eq!(&bytes[0..4], &[0; 4]);
    assert_eq!(&bytes[4..8], &7u32.to_le_bytes());
    assert_eq!(&bytes[8..16], &0x0102_0304u64.to_le_bytes());
    assert_eq!(&bytes[16..24], &0x0102_0304u64.to_le_bytes());
    assert_eq!(&bytes[24..32], &9u64.to_le_bytes());
    assert_eq!(&bytes[32..40], &[0; 8]);
    let mut reply = bytes;
    put(&mut reply, 32, &5u64.to_le_bytes());
    assert_eq!(moved_blocks(&reply), 5);
}

#[test]
fn blocks_are_only_asked_for_where_they_have_numbers() {
    assert_eq!(plan_blocks(1_025, 512), Ok(BlockPlan { count: 3, block_size: 512 }));
    assert_eq!(plan_blocks(0, 512), Ok(BlockPlan { count: 0, block_size: 512 }));
    assert_eq!(plan_blocks(1, 0), Err("the filesystem has no block size".to_owned()));
    assert_eq!(plan_blocks(1, 1 << 32), Err("the block size is too large".to_owned()));
    assert_eq!(plan_blocks(u64::MAX, 512), Err("the file is too large to be mapped".to_owned()));
}
