use defragger::backend::{AnalysisAccess, Backend, Ext4Backend, FatBackend, FilesystemBackend};
use defragger::classic_fat::{
    directory_entry_offset, plan_tables, table_issues, ClassicSnapshot, DirNode, EntryId, FatVariant,
    FatWalk, Geometry, WalkAction, FIXED_ROOT,
};
use defragger::domain::{
    AnalysisCompleteness, JobId, MountState, ServiceEvent, SupportStatus, Volume, VolumeId,
};
use defragger::error::{IoKind, ServiceError};
use defragger::fat_device::{
    set_first_cluster, set_info, ClusterCopy, Direction, Transfer, COPY_CHUNK,
};
use defragger::fat_table::{chain, eoc, fat_entry, is_bad, is_eoc, ClassicKind};
use defragger::fat_writer::{ClassicWriter, PlaceAction, Placement, WriterStep};
use defragger::jobs::ChannelSink;
use defragger::linux::{FileExtent, FsMapKind, MetadataKind};
use defragger::path::FsPath;
use defragger::plan::FilesystemAnalysis;
use defragger::raw_report::{analyze_snapshot, join_chain, report_snapshot};

fn volume(filesystem: &str) -> Volume {
    Volume {
        id: VolumeId(1),
        mount_id: Some(1),
        parent_mount_id: Some(0),
        device_major: 8,
        device_minor: 1,
        mount_point: Some(FsPath::from_text("/media/test")),
        source: "/dev/sda1".to_owned(),
        filesystem: filesystem.to_owned(),
        label: None,
        uuid: None,
        mount_state: MountState::MountedReadWrite,
        read_only: false,
        capacity_bytes: 1024,
        used_bytes: Some(512),
        free_bytes: Some(512),
        support: SupportStatus::ReadOnly,
    }
}

fn geometry() -> Geometry {
    Geometry {
        bytes_per_sector: 512,
        cluster_size: 1024,
        num_fats: 2,
        fat_start: 512,
        fat_size_sectors: 1,
        root_dir_start: 1536,
        root_dir_bytes: 512,
        root_cluster: 0,
        data_start: 2048,
        count_of_clusters: 12,
    }
}

fn set16(fat: &mut [u8], cluster: u32, value: u16) {
    let at = cluster as usize * 2;
    fat[at..at + 2].copy_from_slice(&value.to_le_bytes());
}

/// A table with the files 2 -> 4 -> 6 and 8, and a bad cluster 11.
fn table() -> Vec<u8> {
    let mut fat = vec![0u8; 512];
    set16(&mut fat, 0, 0xfff8);
    set16(&mut fat, 1, 0xffff);
    set16(&mut fat, 2, 4);
    set16(&mut fat, 4, 6);
    set16(&mut fat, 6, 0xffff);
    set16(&mut fat, 8, 0xffff);
    set16(&mut fat, 11, 0xfff7);
    fat
}

fn node(index: u32, name: &str, first_cluster: u32, size: u64) -> DirNode {
    DirNode {
        id: EntryId::Entry { dir_cluster: FIXED_ROOT, index },
        name: name.to_owned(),
        is_deleted: false,
        is_volume_label: false,
        is_dir: false,
        first_cluster,
        size,
        attributes: 0x20,
    }
}

fn walk_root(fat: Vec<u8>, nodes: Vec<DirNode>) -> Result<ClassicSnapshot, ServiceError> {
    let mut walk = FatWalk::start(geometry(), ClassicKind::Fat16, fat, vec![])?;
    walk.listed(FsPath::root(), nodes);
    while let WalkAction::List { id: _, path } = walk.advance()? {
        walk.listed(path, vec![]);
    }
    walk.finish(vec![0u8; 512])
}

fn snapshot() -> ClassicSnapshot {
    walk_root(table(), vec![node(0, "A.BIN", 2, 3000), node(1, "B.BIN", 8, 1000)]).unwrap()
}

/// A device with the two tables, the root directory and the data area.
fn device() -> Vec<u8> {
    let mut disk = vec![0u8; 2048 + 12 * 1024];
    disk[512..1024].copy_from_slice(&table());
    disk[1024..1536].copy_from_slice(&table());
    disk[1536 + 26..1536 + 28].copy_from_slice(&2u16.to_le_bytes());
    disk[1568 + 26..1568 + 28].copy_from_slice(&8u16.to_le_bytes());
    for (cluster, byte) in [(2u64, b'a'), (4, b'b'), (6, b'c'), (8, b'z')] {
        let at = (2048 + (cluster - 2) * 1024) as usize;
        disk[at..at + 1024].fill(byte);
    }
    disk
}

fn perform(disk: &mut Vec<u8>, steps: &[WriterStep]) {
    for step in steps {
        match step {
            WriterStep::Copy { source, destination, .. } => {
                let from = *source as usize;
                let bytes = disk[from..from + 1024].to_vec();
                disk[*destination as usize..*destination as usize + 1024].copy_from_slice(&bytes);
            }
            WriterStep::SetEntry { writes, .. } => {
                for write in writes {
                    let at = write.offset as usize;
                    disk[at..at + write.bytes.len()].copy_from_slice(&write.bytes);
                }
            }
            WriterStep::SetFirst { cluster, offset, .. } => {
                let at = *offset as usize;
                let mut entry = disk[at..at + 32].to_vec();
                set_first_cluster(&mut entry, ClassicKind::Fat16, *cluster);
                disk[at..at + 32].copy_from_slice(&entry);
            }
            WriterStep::SetInfo { .. } | WriterStep::Sync => {}
        }
    }
}

fn file_data(disk: &[u8], entry: usize) -> Vec<u8> {
    let first = u16::from_le_bytes([disk[entry + 26], disk[entry + 27]]);
    let fat = disk[512..1024].to_vec();
    let mut data = Vec::new();
    for cluster in chain(&fat, ClassicKind::Fat16, u32::from(first), 12).unwrap() {
        let at = 2048 + (cluster as usize - 2) * 1024;
        data.extend_from_slice(&disk[at..at + 1024]);
    }
    data
}

#[test]
fn probes_fat_variants_and_exfat() {
    let backend = FatBackend;
    for filesystem in ["fat", "msdos", "vfat", "exfat"] {
        assert!(matches!(backend.probe(&volume(filesystem)), SupportStatus::ReadOnly));
    }
    assert!(matches!(backend.probe(&volume("ext4")), SupportStatus::Unsupported { .. }));
}

#[test]
fn decodes_fat16_and_fat32_entries() {
    let mut fat16 = vec![0; 12];
    fat16[4..6].copy_from_slice(&7u16.to_le_bytes());
    assert_eq!(fat_entry(&fat16, ClassicKind::Fat16, 2), Some(7));

    let mut fat32 = vec![0; 20];
    fat32[8..12].copy_from_slice(&0xf123_4567u32.to_le_bytes());
    assert_eq!(fat_entry(&fat32, ClassicKind::Fat32, 2), Some(0x0123_4567));
}

#[test]
fn detects_chain_cycles() {
    let mut fat = vec![0; 12];
    fat[4..6].copy_from_slice(&3u16.to_le_bytes());
    fat[6..8].copy_from_slice(&2u16.to_le_bytes());
    assert!(chain(&fat, ClassicKind::Fat16, 2, 4).is_err());
}

#[test]
fn decodes_packed_fat12_entries() {
    let fat = vec![0xf8, 0xff, 0xff, 0x03, 0x40, 0x00];
    assert_eq!(fat_entry(&fat, ClassicKind::Fat12, 0), Some(0xff8));
    assert_eq!(fat_entry(&fat, ClassicKind::Fat12, 1), Some(0xfff));
    assert_eq!(fat_entry(&fat, ClassicKind::Fat12, 2), Some(0x003));
    assert_eq!(fat_entry(&fat, ClassicKind::Fat12, 3), Some(0x004));
    assert_eq!(fat_entry(&fat, ClassicKind::Fat12, 4), None);
}

#[test]
fn chains_end_where_the_table_says() {
    assert_eq!(chain(&table(), ClassicKind::Fat16, 2, 12).unwrap(), vec![2, 4, 6]);
    assert_eq!(chain(&table(), ClassicKind::Fat16, 0, 12).unwrap(), Vec::<u32>::new());
    assert!(chain(&table(), ClassicKind::Fat16, 3, 12).is_err());
    assert!(chain(&table(), ClassicKind::Fat16, 99, 12).is_err());
    for kind in [ClassicKind::Fat12, ClassicKind::Fat16, ClassicKind::Fat32] {
        assert!(is_eoc(kind, eoc(kind)));
        assert!(!is_bad(kind, eoc(kind)));
    }
    assert!(is_bad(ClassicKind::Fat16, 0xfff7));
}

#[test]
fn tables_of_classic_volumes_are_planned() {
    let plan = plan_tables(FatVariant::Fat16, &geometry()).unwrap();
    assert_eq!(plan.kind, ClassicKind::Fat16);
    assert_eq!(plan.table_bytes, 512);
    assert_eq!(plan.copies, vec![512, 1024]);
    match plan_tables(FatVariant::ExFat, &geometry()) {
        Err(ServiceError::UnsafeFilesystem(message)) => {
            assert_eq!(message, "exFAT is not a classic FAT volume")
        }
        _ => panic!("exFAT is refused"),
    }
}

#[test]
fn unsound_tables_are_complained_about() {
    let boot = vec![0u8; 512];
    assert!(table_issues(ClassicKind::Fat16, 2, &boot, &table(), &vec![table()]).is_empty());
    let mut dirty = table();
    set16(&mut dirty, 1, 0x3fff);
    assert_eq!(
        table_issues(ClassicKind::Fat16, 2, &boot, &dirty, &vec![table()]),
        vec![
            "FAT copy 2 differs from FAT1",
            "the FAT clean-shutdown bit is clear",
            "the FAT hard-error bit is clear",
        ]
    );
    assert_eq!(
        table_issues(ClassicKind::Fat16, 0, &boot, &table(), &vec![]),
        vec!["unsupported number of FAT copies: 0"]
    );
    let mut boot32 = vec![0u8; 512];
    boot32[40] = 0x80;
    let mut fat32 = vec![0u8; 64];
    fat32[4..8].copy_from_slice(&0x0fff_ffffu32.to_le_bytes());
    assert_eq!(
        table_issues(ClassicKind::Fat32, 1, &boot32, &fat32, &vec![]),
        vec!["FAT32 mirroring is disabled and an active FAT is selected"]
    );
}

#[test]
fn directory_entries_lie_in_their_directories() {
    let root = EntryId::Entry { dir_cluster: FIXED_ROOT, index: 3 };
    assert_eq!(
        directory_entry_offset(&geometry(), ClassicKind::Fat16, &table(), root).unwrap(),
        1536 + 96
    );
    let nested = EntryId::Entry { dir_cluster: 2, index: 33 };
    assert_eq!(
        directory_entry_offset(&geometry(), ClassicKind::Fat16, &table(), nested).unwrap(),
        2048 + 2 * 1024 + 32
    );
    let beyond = EntryId::Entry { dir_cluster: 2, index: 1000 };
    assert!(directory_entry_offset(&geometry(), ClassicKind::Fat16, &table(), beyond).is_err());
    assert!(
        directory_entry_offset(&geometry(), ClassicKind::Fat16, &table(), EntryId::Root).is_err()
    );
}

#[test]
fn a_sound_volume_can_be_written() {
    let snapshot = snapshot();
    assert!(snapshot.writable());
    assert_eq!(snapshot.files.len(), 2);
    assert_eq!(snapshot.files[0].chain, vec![2, 4, 6]);
    assert_eq!(snapshot.files[0].path.display(), "/A.BIN");
    assert_eq!(snapshot.free_clusters, vec![3, 5, 7, 9, 10, 12, 13]);
    assert!(snapshot.bad_clusters.contains(11));
    assert_eq!(snapshot.cluster_size(), 1024);
    assert_eq!(snapshot.cluster_offset(3).unwrap(), 3072);
    assert!(snapshot.cluster_offset(14).is_err());
    assert!(snapshot.equivalent_to(&snapshot));
    assert!(snapshot.ranges.iter().any(|range| range.kind == FsMapKind::Free));
    assert!(snapshot
        .ranges
        .iter()
        .any(|range| range.kind == FsMapKind::Metadata(MetadataKind::AllocationTables)));
}

#[test]
fn inconsistent_volumes_are_not_written() {
    let crossed =
        walk_root(table(), vec![node(0, "A", 2, 3000), node(1, "B", 8, 1000), node(2, "C", 4, 2000)])
            .unwrap();
    assert!(!crossed.writable());
    let short = walk_root(table(), vec![node(0, "A", 2, 9000), node(1, "B", 8, 1000)]).unwrap();
    assert!(short
        .writable_issues
        .iter()
        .any(|issue| issue == "/A has 3 clusters but its size requires 9"));
    let orphaned = walk_root(table(), vec![node(0, "A", 2, 3000)]).unwrap();
    assert!(!orphaned.writable());
    assert!(walk_root(table(), vec![node(0, "A", 3, 100)]).is_err());
}

#[test]
fn deleted_entries_and_labels_are_passed_over() {
    let mut gone = node(2, "GONE", 3, 5);
    gone.is_deleted = true;
    let mut label = node(3, "LABEL", 0, 0);
    label.is_volume_label = true;
    let snapshot = walk_root(
        table(),
        vec![node(0, "A", 2, 3000), node(1, "B", 8, 1000), gone, label, node(4, ".", 2, 0)],
    )
    .unwrap();
    assert_eq!(snapshot.files.len(), 2);
}

#[test]
fn a_file_is_moved_to_a_free_place_without_loss() {
    let mut disk = device();
    let before = file_data(&disk, 1536);
    let mut writer = ClassicWriter::new(snapshot());
    let dirty = writer.mark_dirty().unwrap();
    perform(&mut disk, &dirty);
    assert_eq!(u16::from_le_bytes([disk[514], disk[515]]) & 0x8000, 0);

    let mut placement = Placement::start(&writer, 0, vec![12, 13, 10]);
    let moved = loop {
        match placement.advance(&mut writer).unwrap() {
            PlaceAction::Checkpoint => {}
            PlaceAction::Move(data) => {
                assert_eq!(data.length, 1024);
                perform(&mut disk, &data.steps);
                assert_eq!(file_data(&disk, 1536), before);
            }
            PlaceAction::Commit(steps) => {
                for step in &steps {
                    perform(&mut disk, std::slice::from_ref(step));
                    assert_eq!(file_data(&disk, 1536), before);
                }
            }
            PlaceAction::Done(bytes) => break bytes,
        }
    };
    assert_eq!(moved, 3 * 1024);
    assert_eq!(writer.current_chain(0), Some(vec![12, 13, 10]));
    let clean = writer.finish_clean();
    assert!(clean.result.is_ok());
    perform(&mut disk, &clean.steps);
    assert_eq!(u16::from_le_bytes([disk[514], disk[515]]) & 0xc000, 0xc000);
    assert_eq!(file_data(&disk, 1536), before);
    assert_eq!(file_data(&disk, 1568), vec![b'z'; 1024]);
    assert_eq!(disk[512..1024], disk[1024..1536]);
    assert_eq!(fat_entry(&disk[512..1024].to_vec(), ClassicKind::Fat16, 2), Some(0));
}

#[test]
fn a_cluster_in_the_way_is_evacuated_first() {
    let mut disk = device();
    let first = file_data(&disk, 1536);
    let second = file_data(&disk, 1568);
    let mut writer = ClassicWriter::new(snapshot());
    assert_eq!(writer.blocker(&vec![7, 8, 9]).unwrap(), Some((8, 1, 0)));
    assert_eq!(writer.blocker(&vec![9, 10]).unwrap(), None);
    let mut placement = Placement::start(&writer, 0, vec![7, 8, 9]);
    loop {
        match placement.advance(&mut writer).unwrap() {
            PlaceAction::Checkpoint => {}
            PlaceAction::Move(data) => {
                for step in &data.steps {
                    perform(&mut disk, std::slice::from_ref(step));
                    assert_eq!(file_data(&disk, 1536), first);
                    assert_eq!(file_data(&disk, 1568), second);
                }
            }
            PlaceAction::Commit(steps) => perform(&mut disk, &steps),
            PlaceAction::Done(_) => break,
        }
    }
    assert_eq!(writer.current_chain(0), Some(vec![7, 8, 9]));
    assert_eq!(file_data(&disk, 1536), first);
    assert_eq!(file_data(&disk, 1568), second);
}

#[test]
fn a_single_cluster_is_relocated() {
    let mut disk = device();
    let before = file_data(&disk, 1536);
    let mut writer = ClassicWriter::new(snapshot());
    let data = writer.relocate_cluster(0, 1, 9).unwrap();
    assert_eq!((data.source, data.destination), (2048 + 2048, 2048 + 7 * 1024));
    perform(&mut disk, &data.steps);
    assert_eq!(file_data(&disk, 1536), before);
    assert_eq!(writer.current_chain(0), Some(vec![2, 9, 6]));
    assert_eq!(writer.current_chain(7), None);
}

#[test]
fn targets_of_the_wrong_length_are_refused() {
    let mut writer = ClassicWriter::new(snapshot());
    let mut placement = Placement::start(&writer, 0, vec![9, 10]);
    let failure = loop {
        match placement.advance(&mut writer) {
            Ok(_) => {}
            Err(error) => break error.message(),
        }
    };
    assert!(failure.contains("planned target length no longer matches the file chain"));
}

#[test]
fn directory_entries_name_their_first_clusters() {
    let mut entry = vec![0xeeu8; 32];
    set_first_cluster(&mut entry, ClassicKind::Fat32, 0x0123_4567);
    assert_eq!(&entry[26..28], &0x4567u16.to_le_bytes());
    assert_eq!(&entry[20..22], &0x0123u16.to_le_bytes());
    let mut entry = vec![0xeeu8; 32];
    set_first_cluster(&mut entry, ClassicKind::Fat16, 0x4567);
    assert_eq!(&entry[26..28], &0x4567u16.to_le_bytes());
    assert_eq!(&entry[20..22], &[0xee, 0xee]);
}

#[test]
fn summaries_are_refreshed_where_they_are_sound() {
    let mut sector = vec![0u8; 512];
    assert!(!set_info(&mut sector, 5, 9));
    assert_eq!(sector, vec![0u8; 512]);
    sector[0..4].copy_from_slice(&0x4161_5252u32.to_le_bytes());
    sector[484..488].copy_from_slice(&0x6141_7272u32.to_le_bytes());
    assert!(set_info(&mut sector, 5, 9));
    assert_eq!(&sector[488..492], &5u32.to_le_bytes());
    assert_eq!(&sector[492..496], &9u32.to_le_bytes());
}

#[test]
fn transfers_go_on_until_all_bytes_are_through() {
    let mut transfer = Transfer::new(Direction::Read, 100, 10);
    transfer.moved(4).unwrap();
    assert_eq!((transfer.offset, transfer.done), (104, 4));
    match transfer.moved(0) {
        Err(ServiceError::Io(error)) => assert_eq!(error.kind, IoKind::UnexpectedEof),
        _ => panic!("a read of nothing fails"),
    }
    let mut transfer = Transfer::new(Direction::Write, 0, 3);
    match transfer.moved(0) {
        Err(ServiceError::Io(error)) => assert_eq!(error.kind, IoKind::WriteZero),
        _ => panic!("a write of nothing fails"),
    }
}

#[test]
fn copies_are_held_against_what_was_read_back() {
    let mut copy = ClusterCopy { source: 0, destination: 4096, remaining: COPY_CHUNK + 5 };
    assert_eq!(copy.next_length(), COPY_CHUNK);
    let chunk = vec![1u8; COPY_CHUNK as usize];
    copy.confirm(&chunk, &chunk).unwrap();
    assert_eq!(copy.remaining, 5);
    assert_eq!(copy.next_length(), 5);
    assert!(copy.confirm(&vec![1; 5], &vec![2; 5]).is_err());
}

#[test]
fn changed_or_unsound_volumes_are_not_opened() {
    assert!(ClassicWriter::open(&snapshot(), snapshot()).is_ok());
    let mut moved = table();
    set16(&mut moved, 2, 5);
    set16(&mut moved, 4, 0);
    set16(&mut moved, 5, 6);
    let changed =
        walk_root(moved, vec![node(0, "A.BIN", 2, 3000), node(1, "B.BIN", 8, 1000)]).unwrap();
    match ClassicWriter::open(&snapshot(), changed) {
        Err(ServiceError::UnsafeFilesystem(message)) => {
            assert_eq!(message, "the volume changed since it was analyzed")
        }
        _ => panic!("a changed volume is refused"),
    }
    let orphaned = walk_root(table(), vec![node(0, "A.BIN", 2, 3000)]).unwrap();
    assert!(ClassicWriter::open(&snapshot(), orphaned).is_err());
}

#[test]
fn only_unmounted_classic_fat_is_read_from_its_device() {
    for filesystem in ["fat", "msdos", "vfat", "exfat", "ext4"] {
        for state in
            [MountState::MountedReadWrite, MountState::MountedReadOnly, MountState::Unmounted]
        {
            let volume = Volume { mount_state: state, ..volume(filesystem) };
            let raw = state == MountState::Unmounted && ["fat", "msdos", "vfat"].contains(&filesystem);
            let expected =
                if raw { AnalysisAccess::RawDevice } else { AnalysisAccess::MountedReadOnly };
            assert_eq!(FatBackend.analysis_access(&volume), expected);
            assert_eq!(Backend::Fat(FatBackend).analysis_access(&volume), expected);
            assert_eq!(
                Backend::Ext4(Ext4Backend).analysis_access(&volume),
                AnalysisAccess::MountedReadOnly
            );
        }
    }
}

fn unmounted() -> Volume {
    Volume {
        mount_id: None,
        mount_point: None,
        mount_state: MountState::Unmounted,
        capacity_bytes: 2048 + 12 * 1024,
        ..volume("vfat")
    }
}

#[test]
fn a_sound_snapshot_gives_a_complete_report() {
    let report = report_snapshot(&snapshot(), &unmounted());
    assert_eq!(report.completeness, AnalysisCompleteness::Complete);
    assert!(report.warnings.is_empty());
    assert_eq!(report.coverage.files_scanned, 2);
    assert_eq!(report.coverage.directories_scanned, 1);
    assert_eq!(report.coverage.skipped_entries, 0);
    assert_eq!(report.coverage.scanned_allocated_bytes, 4 * 1024);
    assert_eq!(report.coverage.total_allocated_data_bytes, 4 * 1024);
    assert_eq!(report.coverage.estimated_basis_points, Some(10_000));
    assert_eq!(report.fragmentation.fragmented_files, 1);
    assert_eq!(report.fragmentation.total_physical_runs, 4);
    assert_eq!(report.fragmentation.fragmented_basis_points, Some(7_500));
    assert_eq!(report.files[0].path.display(), "/A.BIN");
    assert_eq!(report.files[0].physical_runs, 3);
    assert_eq!(report.files[0].excess_runs, 2);
    assert_eq!(report.files[0].logical_bytes, 3_000);
    assert!(report.files[0].eligible_for_plan);
    let at = |offset: u64| report.map[(offset / 4) as usize].mix;
    assert_eq!(report.map.len(), 4_096);
    assert_eq!(at(0).metadata.filesystem_headers, 10_000);
    assert_eq!(at(512).metadata.allocation_tables, 10_000);
    assert_eq!(at(1536).metadata.file_metadata, 10_000);
    assert_eq!(at(2048).fragmented_data, 10_000);
    assert_eq!(at(3072).free, 10_000);
    assert_eq!(at(8192).contiguous_data, 10_000);
    assert_eq!(at(11_264).metadata.reserved, 10_000);
}

#[test]
fn complaints_make_a_raw_report_partial() {
    let orphaned = walk_root(table(), vec![node(0, "A.BIN", 2, 3000)]).unwrap();
    let report = report_snapshot(&orphaned, &unmounted());
    assert_eq!(report.completeness, AnalysisCompleteness::Partial);
    assert_eq!(report.warnings, orphaned.writable_issues);
    assert_eq!(report.coverage.estimated_basis_points, Some(7_500));
}

#[test]
fn directories_are_counted_by_their_first_clusters() {
    let mut directory = node(0, "D", 2, 0);
    directory.is_dir = true;
    let snapshot = walk_root(table(), vec![directory, node(1, "B.BIN", 8, 1000)]).unwrap();
    let report = report_snapshot(&snapshot, &unmounted());
    assert_eq!(report.coverage.directories_scanned, 2);
    assert_eq!(report.coverage.files_scanned, 1);
}

#[test]
fn a_raw_analysis_tells_of_its_map() {
    let mut sink = ChannelSink::new(JobId(4));
    let analysis = analyze_snapshot(&snapshot(), &unmounted(), JobId(4), &mut sink);
    let told = sink.take();
    assert_eq!(told.len(), 2);
    assert!(matches!(&told[0], ServiceEvent::Progress(progress) if progress.files_scanned == 2));
    match &told[1] {
        ServiceEvent::MapUpdated { job_id, full_snapshot, bins } => {
            assert_eq!(*job_id, JobId(4));
            assert!(*full_snapshot);
            assert_eq!(*bins, analysis.report().map);
        }
        _ => panic!("the map is told"),
    }
}

#[test]
fn neighbouring_clusters_form_one_extent() {
    let extent = |logical, physical, length| FileExtent { logical, physical, length, flags: 0 };
    assert_eq!(
        join_chain(&geometry(), &vec![3, 4, 5, 9, 10, 7]),
        vec![
            extent(0, 3_072, 3_072),
            extent(3_072, 9_216, 2_048),
            extent(5_120, 7_168, 1_024),
        ]
    );
    assert!(join_chain(&geometry(), &vec![]).is_empty());
}

#[test]
fn the_number_of_clusters_is_no_bar_to_opening() {
    let crowded = || {
        let geometry = Geometry { count_of_clusters: 65_530, fat_size_sectors: 256, ..geometry() };
        let mut fat = vec![0u8; 131_072];
        set16(&mut fat, 0, 0xfff8);
        set16(&mut fat, 1, 0xffff);
        let mut walk = FatWalk::start(geometry, ClassicKind::Fat16, fat, vec![]).unwrap();
        walk.listed(FsPath::root(), vec![]);
        while let WalkAction::List { id: _, path } = walk.advance().unwrap() {
            walk.listed(path, vec![]);
        }
        walk.finish(vec![0u8; 512]).unwrap()
    };
    assert!(ClassicWriter::open(&crowded(), crowded()).is_ok());
}

fn empty_writer(kind: ClassicKind, fat: Vec<u8>) -> ClassicWriter {
    let geometry = Geometry { count_of_clusters: 0, ..geometry() };
    let mut walk = FatWalk::start(geometry, kind, fat, vec![]).unwrap();
    walk.listed(FsPath::root(), vec![]);
    while let WalkAction::List { id: _, path } = walk.advance().unwrap() {
        walk.listed(path, vec![]);
    }
    let mut boot = vec![0u8; 512];
    boot[48] = 1;
    ClassicWriter::new(walk.finish(boot).unwrap())
}

#[test]
fn summaries_are_refreshed_before_a_volume_fails_to_close() {
    let closing = empty_writer(ClassicKind::Fat32, vec![0u8; 4]).finish_clean();
    match closing.result {
        Err(ServiceError::UnsafeFilesystem(message)) => {
            assert_eq!(message, "FAT status entry is missing")
        }
        _ => panic!("there is no status entry"),
    }
    assert_eq!(closing.steps.len(), 2);
    assert!(matches!(
        closing.steps[0],
        WriterStep::SetInfo { offset: 512, length: 512, free_count: 0, next_free: 0xffff_ffff }
    ));
    assert!(matches!(closing.steps[1], WriterStep::Sync));

    let closing = empty_writer(ClassicKind::Fat12, vec![0u8; 16]).finish_clean();
    match closing.result {
        Err(ServiceError::UnsafeFilesystem(message)) => {
            assert_eq!(message, "FAT12 writes are unsupported")
        }
        _ => panic!("FAT12 is not written"),
    }
    assert_eq!(closing.steps.len(), 1);
    assert!(matches!(closing.steps[0], WriterStep::Sync));
}

#[test]
fn a_placement_with_room_comes_to_its_end() {
    let mut writer = ClassicWriter::new(snapshot());
    let mut placement = Placement::start(&writer, 0, vec![7, 8, 9]);
    let mut steps = 0;
    let moved = loop {
        match placement.advance(&mut writer).unwrap() {
            PlaceAction::Done(moved) => break moved,
            _ => steps += 1,
        }
    };
    // Three clusters to copy, and one in the way.
    assert_eq!(steps, 2 * 3 + 2 + 2);
    assert_eq!(moved, 4 * 1024);
    assert_eq!(writer.current_chain(0), Some(vec![7, 8, 9]));
}
