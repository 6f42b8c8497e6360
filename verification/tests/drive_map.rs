use defragger::block_map::BinAccumulator;
use defragger::contributors::{file_contributors, MapFileRange};
use defragger::domain::{CategoryMix, MapBin, MetadataMix, PhysicalRange};
use defragger::linux::{FsMapKind, FsMapRange, MetadataKind};
use defragger::map_view::{
    aggregate_map, encode_activity, encode_map, merge_map_bins, weighted_basis_points,
    MapContributor, ACTIVITY_RECORD_BYTES, MAP_RECORD_BYTES, MAX_MAP_CONTRIBUTORS,
};

fn range(physical: u64, length: u64, kind: FsMapKind) -> FsMapRange {
    FsMapRange { physical, length, kind }
}

fn bin(offset_bytes: u64, length_bytes: u64, mix: CategoryMix) -> MapBin {
    MapBin { offset_bytes, length_bytes, mix }
}

fn free_mix() -> CategoryMix {
    CategoryMix { free: 10_000, ..CategoryMix::default() }
}

fn data_mix() -> CategoryMix {
    CategoryMix { contiguous_data: 10_000, ..CategoryMix::default() }
}

fn total(mix: &CategoryMix) -> u32 {
    let m = &mix.metadata;
    [
        mix.free,
        mix.contiguous_data,
        mix.fragmented_data,
        mix.unscanned_data,
        mix.defrag_staging,
        m.filesystem_headers,
        m.journal,
        m.allocation_tables,
        m.file_metadata,
        m.group_descriptors,
        m.block_bitmaps,
        m.file_bitmaps,
        m.reserved,
        m.other,
    ]
    .into_iter()
    .map(u32::from)
    .sum()
}

#[test]
fn empty_source_becomes_not_analyzed_placeholders() {
    let bins = aggregate_map(&vec![], 1_000_000, 110, 110);
    assert_eq!(bins.len(), 100);
    assert!(bins.iter().all(|bin| bin.mix.unscanned_data == 10_000));
    assert_eq!(bins.iter().map(|bin| bin.length_bytes).sum::<u64>(), 1_000_000);
}

#[test]
fn aggregation_is_length_weighted() {
    let source = vec![bin(0, 25, free_mix()), bin(25, 75, data_mix())];
    let bins = aggregate_map(&source, 100, 1, 1);
    assert_eq!(bins.len(), 1);
    assert_eq!(bins[0].mix.free, 2_500);
    assert_eq!(bins[0].mix.contiguous_data, 7_500);
}

#[test]
fn analyzed_map_expands_to_fill_the_grid() {
    let source = vec![bin(1_000, 50, free_mix()), bin(1_050, 50, data_mix())];

    let bins = aggregate_map(&source, 100, 55, 22);

    assert_eq!(bins.len(), 10);
    assert_eq!(bins[0].offset_bytes, 1_000);
    assert_eq!(bins[9].offset_bytes, 1_090);
    assert!(bins[..5].iter().all(|bin| bin.mix.free == 10_000));
    assert!(bins[5..].iter().all(|bin| bin.mix.contiguous_data == 10_000));
}

#[test]
fn contributors_are_ranked_by_overlap_with_each_block() {
    let bins = vec![
        bin(0, 100, CategoryMix::default()),
        bin(100, 100, CategoryMix::default()),
    ];
    let file_ranges = vec![
        MapFileRange {
            file_index: 0,
            physical: PhysicalRange { offset_bytes: 10, length_bytes: 80 },
        },
        MapFileRange {
            file_index: 1,
            physical: PhysicalRange { offset_bytes: 0, length_bytes: 30 },
        },
        MapFileRange {
            file_index: 1,
            physical: PhysicalRange { offset_bytes: 100, length_bytes: 50 },
        },
    ];

    let contributors = file_contributors(&bins, &file_ranges);

    assert_eq!(contributors[0][0].file_index, 0);
    assert_eq!(contributors[0][0].coverage_basis_points, 8_000);
    assert_eq!(contributors[0][1].file_index, 1);
    assert_eq!(contributors[0][1].coverage_basis_points, 3_000);
    assert_eq!(contributors[1][0].file_index, 1);
    assert_eq!(contributors[1][0].coverage_basis_points, 5_000);
    assert_eq!(contributors[1][1].file_index, u32::MAX);
}

#[test]
fn map_transport_is_fixed_width_binary() {
    let bin = MapBin {
        offset_bytes: 0x0102_0304_0506_0708,
        length_bytes: 0x1112_1314_1516_1718,
        mix: CategoryMix {
            free: 1,
            contiguous_data: 2,
            fragmented_data: 3,
            unscanned_data: 4,
            defrag_staging: 14,
            metadata: MetadataMix {
                filesystem_headers: 5,
                journal: 6,
                allocation_tables: 7,
                file_metadata: 8,
                group_descriptors: 9,
                block_bitmaps: 10,
                file_bitmaps: 11,
                reserved: 12,
                other: 13,
            },
        },
    };

    let mut contributors = [MapContributor::default(); MAX_MAP_CONTRIBUTORS];
    contributors[0] = MapContributor { file_index: 7, coverage_basis_points: 2_500 };
    let bytes = encode_map(&vec![bin], &vec![contributors]);

    assert_eq!(bytes.len(), MAP_RECORD_BYTES);
    assert_eq!(&bytes[..8], &0x0102_0304_0506_0708u64.to_le_bytes());
    assert_eq!(&bytes[8..16], &0x1112_1314_1516_1718u64.to_le_bytes());
    for (index, value) in [1u16, 2, 3, 4, 14, 5, 6, 7, 8, 9, 10, 11, 12, 13]
        .into_iter()
        .enumerate()
    {
        let offset = 16 + index * 2;
        assert_eq!(&bytes[offset..offset + 2], &value.to_le_bytes());
    }
    assert_eq!(&bytes[44..48], &7u32.to_le_bytes());
    assert_eq!(&bytes[48..50], &2_500u16.to_le_bytes());
    assert_eq!(&bytes[50..54], &u32::MAX.to_le_bytes());
}

#[test]
fn scanned_ranges_replace_unscanned_map_data() {
    let ranges = vec![range(0, 100, FsMapKind::Allocated)];
    let mut bins = BinAccumulator::new(&ranges, 100, 1);
    bins.mark_scanned(0, 40, false);
    let bin = bins.finish().remove(0);
    assert_eq!(bin.mix.contiguous_data, 4000);
    assert_eq!(bin.mix.unscanned_data, 6000);
}

#[test]
fn fragmented_data_is_separate_for_priority_coloring() {
    let ranges = vec![range(0, 100, FsMapKind::Allocated)];
    let mut bins = BinAccumulator::new(&ranges, 100, 1);
    bins.mark_scanned(0, 25, true);
    let bin = bins.finish().remove(0);
    assert_eq!(bin.mix.fragmented_data, 2500);
    assert_eq!(bin.mix.unscanned_data, 7500);
}

#[test]
fn category_intensity_is_relative_to_the_whole_display_cell() {
    let ranges = vec![range(0, 25, FsMapKind::Free)];
    let bin = BinAccumulator::new(&ranges, 100, 1).finish().remove(0);
    assert_eq!(bin.mix.free, 2500);
    assert_eq!(bin.mix.unscanned_data, 7500);
}

#[test]
fn typed_metadata_reaches_the_domain_map() {
    let ranges = vec![range(0, 40, FsMapKind::Metadata(MetadataKind::Journal))];
    let bin = BinAccumulator::new(&ranges, 100, 1).finish().remove(0);
    assert_eq!(bin.mix.metadata.journal, 4000);
    assert_eq!(bin.mix.unscanned_data, 6000);
}

#[test]
fn staging_replaces_free_destination_bytes() {
    let ranges = vec![range(0, 100, FsMapKind::Free)];
    let mut bins = BinAccumulator::new(&ranges, 100, 1);
    bins.mark_staging(0, 25);
    let bin = bins.finish().remove(0);
    assert_eq!(bin.mix.free, 7500);
    assert_eq!(bin.mix.defrag_staging, 2500);
}

#[test]
fn every_kind_of_metadata_has_its_own_share() {
    let kinds = [
        MetadataKind::FilesystemHeaders,
        MetadataKind::Journal,
        MetadataKind::AllocationTables,
        MetadataKind::FileMetadata,
        MetadataKind::GroupDescriptors,
        MetadataKind::BlockBitmaps,
        MetadataKind::FileBitmaps,
        MetadataKind::Reserved,
        MetadataKind::Other,
    ];
    let ranges: Vec<FsMapRange> = kinds
        .iter()
        .enumerate()
        .map(|(index, kind)| range(index as u64 * 10, 10, FsMapKind::Metadata(*kind)))
        .collect();
    let bin = BinAccumulator::new(&ranges, 100, 1).finish().remove(0);
    let m = bin.mix.metadata;
    for share in [
        m.filesystem_headers,
        m.journal,
        m.allocation_tables,
        m.file_metadata,
        m.group_descriptors,
        m.block_bitmaps,
        m.file_bitmaps,
        m.reserved,
        m.other,
    ] {
        assert_eq!(share, 1_000);
    }
    assert_eq!(bin.mix.unscanned_data, 1_000);
}

#[test]
fn the_shares_of_a_bin_stay_within_the_whole() {
    let ranges = vec![
        range(0, 33, FsMapKind::Allocated),
        range(33, 33, FsMapKind::Free),
        range(66, 34, FsMapKind::Metadata(MetadataKind::Reserved)),
    ];
    let mut bins = BinAccumulator::new(&ranges, 100, 3);
    bins.mark_scanned(0, 7, false);
    bins.mark_scanned(7, 9, true);
    bins.mark_staging(40, 11);
    for bin in bins.finish() {
        assert!(total(&bin.mix) <= 10_000);
    }
}

#[test]
fn only_touched_bins_are_published() {
    let ranges = vec![range(0, 1_000, FsMapKind::Allocated)];
    let mut bins = BinAccumulator::new(&ranges, 1_000, 10);
    let _ = bins.take_changes();
    assert!(bins.take_changes().is_empty());
    bins.mark_scanned(150, 100, false);
    let changes = bins.take_changes();
    assert_eq!(
        changes.iter().map(|bin| bin.offset_bytes).collect::<Vec<_>>(),
        vec![100, 200]
    );
    assert_eq!(changes[0].mix.contiguous_data, 5_000);
    assert_eq!(bins.snapshot().len(), 10);
    assert_eq!(bins.snapshot()[0].mix.contiguous_data, 0);
}

#[test]
fn published_changes_complete_a_display() {
    let ranges = vec![range(0, 1_000, FsMapKind::Allocated)];
    let mut bins = BinAccumulator::new(&ranges, 1_000, 8);
    let _ = bins.take_changes();
    let mut shown = bins.snapshot();
    bins.mark_scanned(300, 400, true);
    merge_map_bins(&mut shown, false, bins.take_changes());
    assert_eq!(shown, bins.snapshot());
}

#[test]
fn a_full_map_replaces_the_shown_one() {
    let mut shown = vec![bin(0, 10, free_mix()), bin(10, 10, free_mix())];
    merge_map_bins(&mut shown, true, vec![bin(0, 20, data_mix())]);
    assert_eq!(shown, vec![bin(0, 20, data_mix())]);
}

#[test]
fn a_partial_map_replaces_bins_at_their_offsets() {
    let mut shown = vec![bin(0, 10, free_mix()), bin(10, 10, free_mix())];
    merge_map_bins(
        &mut shown,
        false,
        vec![bin(10, 10, data_mix()), bin(20, 10, data_mix())],
    );
    assert_eq!(
        shown,
        vec![bin(0, 10, free_mix()), bin(10, 10, data_mix()), bin(20, 10, data_mix())]
    );
}

#[test]
fn shares_are_rounded_to_the_nearest() {
    assert_eq!(weighted_basis_points(10_000 * 50, 100), 5_000);
    assert_eq!(weighted_basis_points(0, 100), 0);
    assert_eq!(weighted_basis_points(5, 10), 1);
    assert_eq!(weighted_basis_points(4, 10), 0);
}

#[test]
fn pending_io_is_told_in_fixed_records() {
    let reading = vec![PhysicalRange { offset_bytes: 1, length_bytes: 2 }];
    let writing = vec![PhysicalRange { offset_bytes: 3, length_bytes: 4 }];
    let bytes = encode_activity(&reading, &writing);
    assert_eq!(bytes.len(), 2 * ACTIVITY_RECORD_BYTES);
    assert!(encode_activity(&vec![], &vec![]).is_empty());
    let words: Vec<u64> = bytes
        .chunks(8)
        .map(|word| u64::from_le_bytes([
            word[0], word[1], word[2], word[3], word[4], word[5], word[6], word[7],
        ]))
        .collect();
    assert!(words.contains(&1) && words.contains(&2));
    assert!(words.contains(&3) && words.contains(&4));
}

#[test]
fn changes_catch_up_at_the_end_of_the_address_space() {
    let start = u64::MAX - 5_000;
    let mut map = BinAccumulator::new(&vec![range(start, 5_000, FsMapKind::Allocated)], 5_000, 4_096);
    let mut shown = map.snapshot();
    assert_eq!(shown.len(), 4_096);
    assert_eq!(shown[4_095].offset_bytes, u64::MAX);
    assert_eq!(shown[4_094].offset_bytes, u64::MAX);
    map.mark_scanned(start + 100, 50, true);
    map.mark_staging(u64::MAX - 10, 10);
    map.mark_scanned(start + 120, 400, false);
    let changes = map.take_changes();
    assert!(changes.windows(2).all(|pair| pair[0].offset_bytes < pair[1].offset_bytes));
    merge_map_bins(&mut shown, false, changes);
    assert_eq!(shown, map.snapshot());
    assert!(map.take_changes().is_empty());
}

#[test]
fn order_and_cuts_of_file_ranges_do_not_matter() {
    let bins = vec![bin(0, 100, data_mix()), bin(100, 100, data_mix()), bin(250, 50, data_mix())];
    let file = |file_index, offset_bytes, length_bytes| MapFileRange {
        file_index,
        physical: PhysicalRange { offset_bytes, length_bytes },
    };
    let whole = vec![file(0, 20, 150), file(1, 90, 200), file(2, 0, 20)];
    let turned = vec![file(2, 0, 20), file(0, 20, 150), file(1, 90, 200)];
    let cut = vec![file(0, 20, 150), file(1, 90, 75), file(1, 165, 125), file(2, 0, 20)];
    let expected = file_contributors(&bins, &whole);
    assert_eq!(expected[1][0].file_index, 1);
    assert_eq!(file_contributors(&bins, &turned), expected);
    assert_eq!(file_contributors(&bins, &cut), expected);
}
