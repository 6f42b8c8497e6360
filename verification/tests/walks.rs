use defragger::backend::conclude;
use defragger::domain::{
    AnalysisCompleteness, AnalysisReport, DefragPolicy, FragmentationMetrics, JobId, MountState,
    ScanCoverage, ServiceEvent, SupportStatus, Volume, VolumeId,
};
use defragger::error::{IoKind, OsError, ServiceError};
use defragger::ext4_writer::{
    donor_name, needs_named_donor, Ext4Writer, WriteAction, WriteEvent, WriteStage,
};
use defragger::file_report::{
    inspect_ext4_file, inspect_fat_file, recompute_fragmentation, replace_file_report, FileFacts,
    FileKind,
};
use defragger::jobs::ChannelSink;
use defragger::linux::{
    FileExtent, FsMapKind, FsMapRange, IoctlError, EXT4_EXTENTS_FL, EXT4_INLINE_DATA_FL, FS_APPEND_FL,
    FS_IMMUTABLE_FL,
};
use defragger::path::FsPath;
use defragger::plan::{Analysis, Ext4Plan, FilesystemAnalysis, Plan, PreparedPlan};
use defragger::report_map::normalize_finished_report;
use defragger::scan::{
    active_swap_paths, family_name, is_excluded_path, Scan, ScanAction, ScanEvent, ScanKind,
    ScanStage,
};

fn path(text: &str) -> FsPath {
    FsPath::from_text(text)
}

fn volume() -> Volume {
    Volume {
        id: VolumeId(34_359_738_369),
        mount_id: Some(22),
        parent_mount_id: Some(1),
        device_major: 8,
        device_minor: 1,
        mount_point: Some(path("/mnt")),
        source: "/dev/sda1".to_owned(),
        filesystem: "ext4".to_owned(),
        label: None,
        uuid: None,
        mount_state: MountState::MountedReadWrite,
        read_only: false,
        capacity_bytes: 1_048_576,
        used_bytes: Some(524_288),
        free_bytes: Some(524_288),
        support: SupportStatus::Defragmentable,
    }
}

fn extent(logical: u64, physical: u64, length: u64) -> FileExtent {
    FileExtent { logical, physical, length, flags: 0 }
}

fn facts(kind: FileKind, inode: u64, length: u64) -> FileFacts {
    FileFacts { kind, device: 2049, inode, length, block_size: 4096 }
}

fn map() -> Vec<FsMapRange> {
    vec![
        FsMapRange { physical: 0, length: 524_288, kind: FsMapKind::Allocated },
        FsMapRange { physical: 524_288, length: 524_288, kind: FsMapKind::Free },
    ]
}

fn whole() -> Vec<FileExtent> {
    vec![extent(0, 0, 8192)]
}

fn broken() -> Vec<FileExtent> {
    vec![extent(0, 16_384, 4096), extent(4096, 40_960, 4096)]
}

/// A root with a file in one piece, a broken file, a link to it, another
/// mount, and what cannot be read.
fn walk(
    kind: ScanKind,
    cancel_at_entry: bool,
) -> (Result<AnalysisReport, ServiceError>, Vec<ServiceEvent>) {
    let mut scan = Scan::new(kind, volume(), JobId(9));
    let mut sink = ChannelSink::new(JobId(9));
    let mut listing = vec!["whole", "broken", "link", "other", "gone"].into_iter();
    let mut event = ScanEvent::Passed;
    let mut now = 0;
    loop {
        now += 1;
        let action = match scan.advance(event, now, &mut sink) {
            Ok(action) => action,
            Err(failure) => return (Err(failure), sink.take()),
        };
        event = match action {
            ScanAction::Checkpoint => {
                if cancel_at_entry && matches!(scan.stage(), ScanStage::AtEntry { .. }) {
                    ScanEvent::Cancelled
                } else {
                    ScanEvent::Passed
                }
            }
            ScanAction::OpenRoot { path } => {
                assert_eq!(path.display(), "/mnt");
                ScanEvent::Root(Ok(()))
            }
            ScanAction::ReadMap => ScanEvent::MapRead(Ok(map())),
            ScanAction::ReadSwaps => ScanEvent::Swaps(None),
            ScanAction::OpenDirectory { .. } => ScanEvent::DirectoryOpened,
            ScanAction::ReadEntry => match listing.next() {
                Some(name) => ScanEvent::Entry(path("/mnt").join(&path(name))),
                None => ScanEvent::EndOfDirectory,
            },
            ScanAction::ReadFacts { path } => {
                ScanEvent::Facts(match path.display().as_str() {
                    "/mnt/whole" => Some(facts(FileKind::Regular, 11, 8192)),
                    "/mnt/broken" | "/mnt/link" => Some(facts(FileKind::Regular, 12, 8192)),
                    "/mnt/other" => Some(facts(FileKind::Directory, 2, 4096)),
                    _ => None,
                })
            }
            ScanAction::ReadMountId { path } => {
                ScanEvent::MountId(Some(if path.display() == "/mnt/other" { 23 } else { 22 }))
            }
            ScanAction::MapFile { path, .. } => ScanEvent::FileMapped {
                extents: if path.display() == "/mnt/whole" { whole() } else { broken() },
                flags: Ok(EXT4_EXTENTS_FL),
            },
            ScanAction::Finish => return (Ok(scan.into_report()), sink.take()),
        };
    }
}

#[test]
fn a_walk_counts_each_file_once_and_stays_in_its_mount() {
    let (report, events) = walk(ScanKind::Ext4, false);
    let report = report.unwrap();
    assert_eq!(report.coverage.files_scanned, 2);
    assert_eq!(report.coverage.directories_scanned, 1);
    assert_eq!(report.coverage.scanned_allocated_bytes, 16_384);
    assert_eq!(report.coverage.skipped_entries, 1);
    assert_eq!(report.completeness, AnalysisCompleteness::Partial);
    assert_eq!(report.fragmentation.fragmented_files, 1);
    assert_eq!(report.fragmentation.total_physical_runs, 3);
    assert_eq!(report.fragmentation.total_excess_runs, 1);
    assert_eq!(report.fragmentation.fragmented_basis_points, Some(5_000));
    assert_eq!(report.files.len(), 2);
    assert_eq!(report.files[0].path.display(), "/mnt/broken");
    assert_eq!(report.map.iter().map(|bin| bin.length_bytes).sum::<u64>(), 1_048_576);
    assert!(events.iter().any(|event| matches!(event, ServiceEvent::Progress(_))));
    assert!(events
        .iter()
        .any(|event| matches!(event, ServiceEvent::MapUpdated { full_snapshot: true, .. })));
}

#[test]
fn a_cancelled_walk_gives_no_report() {
    let (outcome, _) = walk(ScanKind::Ext4, true);
    assert!(matches!(outcome, Err(ServiceError::Cancelled)));
}

#[test]
fn an_unreadable_root_fails_the_walk() {
    let mut scan = Scan::new(ScanKind::Ext4, volume(), JobId(9));
    let mut sink = ChannelSink::new(JobId(9));
    assert!(matches!(
        scan.advance(ScanEvent::Passed, 1, &mut sink),
        Ok(ScanAction::OpenRoot { .. })
    ));
    let failure = OsError::new(IoKind::PermissionDenied, "denied");
    assert!(matches!(
        scan.advance(ScanEvent::Root(Err(failure)), 2, &mut sink),
        Err(ServiceError::Io(_))
    ));
}

#[test]
fn a_walk_goes_on_without_a_map() {
    let mut scan = Scan::new(ScanKind::Ext4, volume(), JobId(9));
    let mut sink = ChannelSink::new(JobId(9));
    scan.advance(ScanEvent::Passed, 1, &mut sink).unwrap();
    scan.advance(ScanEvent::Root(Ok(())), 2, &mut sink).unwrap();
    let error = IoctlError::Io {
        operation: "FS_IOC_GETFSMAP",
        source: OsError { kind: IoKind::Other, code: Some(74), message: "no".to_owned() },
    };
    assert!(matches!(
        scan.advance(ScanEvent::MapRead(Err(error)), 3, &mut sink),
        Ok(ScanAction::ReadSwaps)
    ));
}

#[test]
fn swap_files_are_left_alone() {
    let table = "Filename\tType\tSize\tUsed\tPriority\n/mnt/swapfile file 1 0 -2\n/dev/sda3 partition 1 0 -3\n";
    let swaps = active_swap_paths(&Some(table.to_owned()));
    assert!(swaps.iter().any(|swap| swap.display() == "/mnt/swapfile"));
    assert!(active_swap_paths(&None).is_empty());
    assert!(is_excluded_path(&volume(), &path("/mnt/swapfile"), &swaps));
    assert!(!is_excluded_path(&volume(), &path("/mnt/file"), &swaps));
}

#[test]
fn families_have_names_for_people() {
    assert_ne!(family_name("exfat"), family_name("vfat"));
}

#[test]
fn files_that_cannot_move_say_why() {
    let regular = facts(FileKind::Regular, 1, 8192);
    let reason = |flags: Result<u32, String>, list: Vec<FileExtent>| {
        inspect_ext4_file(path("/f"), regular, flags, &list).exclusion_reason
    };
    let movable = inspect_ext4_file(path("/f"), regular, Ok(EXT4_EXTENTS_FL), &broken());
    assert!(movable.eligible_for_plan);
    assert_eq!(movable.physical_runs, 2);
    assert_eq!(movable.minimum_runs, 1);
    assert_eq!(movable.excess_runs, 1);
    assert_eq!(movable.average_run_bytes, 4096);
    assert_eq!(
        reason(Err("denied".to_owned()), broken()).as_deref(),
        Some("could not read ext4 file flags: denied")
    );
    assert_eq!(
        reason(Ok(EXT4_EXTENTS_FL | FS_IMMUTABLE_FL), broken()).as_deref(),
        Some("immutable file")
    );
    assert_eq!(
        reason(Ok(EXT4_EXTENTS_FL | FS_APPEND_FL), broken()).as_deref(),
        Some("append-only file")
    );
    assert_eq!(
        reason(Ok(EXT4_EXTENTS_FL | EXT4_INLINE_DATA_FL), broken()).as_deref(),
        Some("inline data")
    );
    assert_eq!(reason(Ok(0), broken()).as_deref(), Some("legacy indirect block mapping"));
    assert_eq!(
        reason(Ok(EXT4_EXTENTS_FL), vec![]).as_deref(),
        Some("no allocated extents")
    );
    assert_eq!(
        reason(Ok(EXT4_EXTENTS_FL), vec![extent(4096, 0, 4096)]).as_deref(),
        Some("sparse files are not moved by the first writer")
    );
    let inline = vec![FileExtent { flags: 0x200, ..extent(0, 0, 8192) }];
    assert_eq!(
        reason(Ok(EXT4_EXTENTS_FL), inline.clone()).as_deref(),
        Some("unsupported FIEMAP flags 0x200")
    );
    let fat = inspect_fat_file(path("/f"), regular, &inline);
    assert_eq!(fat.exclusion_reason.as_deref(), Some("unsupported FIEMAP flags 0x200"));
    assert_eq!(inspect_fat_file(path("/f"), regular, &broken()).excess_runs, 1);
}

#[test]
fn replacing_a_file_keeps_the_others() {
    let mut report = walk(ScanKind::Ext4, false).0.unwrap();
    let healed = inspect_ext4_file(
        path("/mnt/broken"),
        facts(FileKind::Regular, 12, 8192),
        Ok(EXT4_EXTENTS_FL),
        &vec![extent(0, 524_288, 8192)],
    );
    let other = report.files[1].allocated_bytes;
    replace_file_report(&mut report, healed);
    assert_eq!(report.files.len(), 2);
    assert_eq!(report.files[0].excess_runs, 0);
    assert_eq!(report.files[1].allocated_bytes, other);
    recompute_fragmentation(&mut report);
    assert_eq!(report.fragmentation.total_excess_runs, 0);
    assert_eq!(report.fragmentation.fragmented_files, 0);
    assert_eq!(report.fragmentation.total_physical_runs, 2);
}

#[test]
fn finished_reports_speak_of_the_volume_that_was_asked_for() {
    let mut report = walk(ScanKind::Ext4, false).0.unwrap();
    report.volume.mount_point = Some(path("/mnt"));
    let mut asked = volume();
    asked.mount_point = None;
    asked.mount_state = MountState::Unmounted;
    normalize_finished_report(&mut report, &asked, &path("/mnt"));
    assert!(report.volume.mount_point.is_none());
    assert_eq!(report.volume.mount_state, MountState::Unmounted);
}

fn plan() -> Ext4Plan {
    let mut scan = Scan::new(ScanKind::Ext4, volume(), JobId(9));
    let mut sink = ChannelSink::new(JobId(9));
    let _ = scan.advance(ScanEvent::Passed, 1, &mut sink);
    let report = walk(ScanKind::Ext4, false).0.unwrap();
    let analysis = Analysis::Ext4(defragger::plan::Ext4Analysis { report });
    match analysis.build_plan(&DefragPolicy::default()).unwrap() {
        Plan::Ext4(plan) => plan,
        Plan::Fat(_) => panic!("an ext4 volume has an ext4 plan"),
    }
}

#[test]
fn plans_take_the_fragmented_files() {
    let plan = plan();
    assert_eq!(plan.summary().candidates.len(), 1);
    assert_eq!(plan.summary.candidates[0].path.display(), "/mnt/broken");
    assert_eq!(plan.summary.candidates[0].target_runs, 1);
    assert_eq!(plan.summary.estimated_rewrite_bytes, 8192);
    assert_eq!(plan.summary.excluded_files, 1);
    assert_eq!(plan.relative_paths[0].display(), "broken");
    assert!(plan.execution_requirements().requires_privilege);
    assert_eq!(plan.summary.warnings.len(), 2);
}

#[test]
fn finished_walks_become_analyses() {
    let mut scan = Scan::new(ScanKind::Fat, volume(), JobId(9));
    let mut sink = ChannelSink::new(JobId(9));
    let mut event = ScanEvent::Passed;
    let analysis = loop {
        match scan.advance(event, 5, &mut sink).unwrap() {
            ScanAction::Checkpoint => event = ScanEvent::Passed,
            ScanAction::OpenRoot { .. } => event = ScanEvent::Root(Ok(())),
            ScanAction::ReadMap => event = ScanEvent::MapRead(Ok(vec![])),
            ScanAction::ReadSwaps => event = ScanEvent::Swaps(None),
            ScanAction::OpenDirectory { .. } => event = ScanEvent::DirectoryUnreadable,
            ScanAction::Finish => break conclude(scan),
            _ => panic!("nothing else is asked of an unreadable root"),
        }
    };
    assert!(matches!(analysis, Analysis::Fat(_)));
    assert_eq!(analysis.report().completeness, AnalysisCompleteness::Partial);
    assert_eq!(analysis.report().coverage.skipped_entries, 1);
}

#[derive(Clone, Copy, PartialEq)]
enum Stop {
    Never,
    BeforeMove,
    AfterSync,
}

struct Run {
    moved: Vec<(u64, u64)>,
    donors: Vec<String>,
    outcome: Result<(AnalysisReport, bool), ServiceError>,
    events: Vec<ServiceEvent>,
}

/// Runs the writer on the broken file; the donor has the given extents, and
/// the file is found with the given extents after it.
fn rewrite(donor: Vec<FileExtent>, after: Vec<FileExtent>, stop: Stop) -> Run {
    let mut writer = Ext4Writer::new(plan(), JobId(3));
    let mut sink = ChannelSink::new(JobId(3));
    let mut event = WriteEvent::Passed;
    let mut moved = vec![];
    let mut donors = vec![];
    let mut current = broken();
    let outcome = loop {
        let action = match writer.advance(event, &mut sink) {
            Ok(action) => action,
            Err(failure) => break Err(failure),
        };
        event = match action {
            WriteAction::Checkpoint => {
                if stop == Stop::BeforeMove && writer.stage() == WriteStage::EnteringChunk {
                    WriteEvent::Cancelled
                } else {
                    WriteEvent::Passed
                }
            }
            WriteAction::Mount => WriteEvent::Mounted(volume()),
            WriteAction::OpenTarget { path } => {
                assert_eq!(path.display(), "/mnt/broken");
                WriteEvent::TargetOpened(facts(FileKind::Regular, 12, 8192))
            }
            WriteAction::ReadTarget => {
                WriteEvent::TargetRead { extents: current.clone(), flags: Ok(EXT4_EXTENTS_FL) }
            }
            WriteAction::ReadBlockSize => WriteEvent::BlockSize(4096),
            WriteAction::CreateDonor { directory } => {
                donors.push(directory.display());
                WriteEvent::DonorCreated
            }
            WriteAction::AllocateDonor { length } => {
                assert_eq!(length, 8192);
                WriteEvent::DonorAllocated(donor.clone())
            }
            WriteAction::CloseDonor => WriteEvent::DonorClosed,
            WriteAction::ReadMap => WriteEvent::MapRead(Ok(map())),
            WriteAction::MoveExtents { start, count } => {
                moved.push((start, count));
                WriteEvent::Moved(count)
            }
            WriteAction::SyncRange { .. } => {
                WriteEvent::Synced { cancelled: stop == Stop::AfterSync }
            },
            WriteAction::RereadTarget => {
                current = after.clone();
                WriteEvent::TargetReread {
                    facts: facts(FileKind::Regular, 12, 8192),
                    extents: after.clone(),
                    flags: Ok(EXT4_EXTENTS_FL),
                }
            }
            WriteAction::Finish => {
                let execution = writer.into_execution();
                break Ok((execution.report, execution.stopped));
            }
        };
    };
    Run { moved, donors, outcome, events: sink.take() }
}

#[test]
fn a_broken_file_is_rewritten_in_one_piece() {
    let run = rewrite(vec![extent(0, 524_288, 8192)], vec![extent(0, 524_288, 8192)], Stop::Never);
    assert_eq!(run.moved, vec![(0, 2)]);
    let (report, stopped) = run.outcome.unwrap();
    assert!(!stopped);
    assert_eq!(report.fragmentation.total_excess_runs, 0);
    assert!(run.events.iter().any(|event| matches!(
        event,
        ServiceEvent::DefragFileUpdated { bytes_moved: 8192, .. }
    )));
    assert!(run
        .events
        .iter()
        .any(|event| matches!(event, ServiceEvent::DefragPendingIo { .. })));
}

#[test]
fn a_donor_that_is_no_better_is_not_used() {
    let run = rewrite(broken(), broken(), Stop::Never);
    assert!(run.moved.is_empty());
    assert!(run.donors.len() <= 2);
    assert_eq!(run.outcome.unwrap().0.fragmentation.total_excess_runs, 1);
}

#[test]
fn a_cancelled_rewrite_stops_before_a_move() {
    let run = rewrite(vec![extent(0, 524_288, 8192)], broken(), Stop::BeforeMove);
    assert!(run.moved.is_empty());
    assert!(matches!(run.outcome, Err(ServiceError::Cancelled)));
}

#[test]
fn a_rewrite_that_is_stopped_after_a_move_keeps_what_moved() {
    let whole = vec![extent(0, 524_288, 8192)];
    let run = rewrite(whole.clone(), whole, Stop::AfterSync);
    assert_eq!(run.moved, vec![(0, 2)]);
    let (report, stopped) = run.outcome.unwrap();
    assert!(stopped);
    assert_eq!(report.fragmentation.total_excess_runs, 0);
}

#[test]
fn donors_have_names_where_nameless_files_are_refused() {
    assert!(needs_named_donor(Some(95)));
    assert!(!needs_named_donor(Some(28)));
    assert!(!needs_named_donor(None));
    assert_ne!(donor_name(1, 2), donor_name(1, 3));
}

#[test]
fn empty_metrics_and_coverage_are_zero() {
    assert_eq!(FragmentationMetrics::default().fragmented_basis_points, None);
    assert_eq!(ScanCoverage::default().files_scanned, 0);
}

#[test]
fn a_fat_report_locates_neither_free_space_nor_metadata() {
    let (report, _) = walk(ScanKind::Fat, false);
    let report = report.unwrap();
    assert!(!report.map.is_empty());
    for bin in &report.map {
        let metadata = &bin.mix.metadata;
        assert_eq!(bin.mix.free, 0);
        assert_eq!(bin.mix.defrag_staging, 0);
        assert_eq!(metadata.filesystem_headers, 0);
        assert_eq!(metadata.allocation_tables, 0);
        assert_eq!(metadata.file_metadata, 0);
        assert_eq!(metadata.reserved, 0);
        assert_eq!(metadata.other, 0);
    }
    assert!(report.map.iter().any(|bin| bin.mix.contiguous_data > 0));
    assert!(report.map.iter().any(|bin| bin.mix.fragmented_data > 0));
}
