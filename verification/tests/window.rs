use defragger::controller::{
    analysis_update, count_i32, defrag_update, is_last_update, optional_basis_points,
    prepare_ui_report, starting_status, ControllerRust, UiUpdate, WorkerCommand,
};
use defragger::domain::{
    AnalysisCompleteness, AnalysisId, AnalysisReport, CategoryMix, ExecutionRequirements,
    FileReport, FragmentationMetrics, JobId, MapBin, MountState, PhysicalRange, PlanCandidate,
    PlanCandidateRole, PlanId, PlanSummary, RequiredMountState, ScanCoverage, ServiceEvent,
    SupportStatus, Volume, VolumeId,
};
use defragger::map_view::MAP_RECORD_BYTES;
use defragger::path::FsPath;

fn volume(id: u64) -> Volume {
    Volume {
        id: VolumeId(id),
        mount_id: Some(1),
        parent_mount_id: Some(0),
        device_major: 8,
        device_minor: 1,
        mount_point: Some(FsPath::from_text("/mnt")),
        source: "/dev/sda1".to_owned(),
        filesystem: "ext4".to_owned(),
        label: None,
        uuid: None,
        mount_state: MountState::MountedReadWrite,
        read_only: false,
        capacity_bytes: 1_000,
        used_bytes: Some(600),
        free_bytes: Some(400),
        support: SupportStatus::Defragmentable,
    }
}

fn report(id: u64, excess_runs: u32) -> AnalysisReport {
    AnalysisReport {
        volume: volume(id),
        completeness: AnalysisCompleteness::Complete,
        coverage: ScanCoverage {
            files_scanned: 1,
            scanned_allocated_bytes: 100,
            ..ScanCoverage::default()
        },
        fragmentation: FragmentationMetrics {
            fragmented_basis_points: Some(2_000),
            ..FragmentationMetrics::default()
        },
        files: vec![FileReport {
            path: FsPath::from_text("/mnt/a"),
            logical_bytes: 100,
            allocated_bytes: 100,
            physical_runs: excess_runs + 1,
            minimum_runs: 1,
            excess_runs,
            average_run_bytes: 50,
            eligible_for_plan: true,
            exclusion_reason: None,
            physical_ranges: vec![PhysicalRange { offset_bytes: 0, length_bytes: 100 }],
        }],
        map: vec![MapBin {
            offset_bytes: 0,
            length_bytes: 1_000,
            mix: CategoryMix { free: 10_000, ..CategoryMix::default() },
        }],
        warnings: vec![],
    }
}

fn finished(id: u64, analysis: u64) -> UiUpdate {
    analysis_update(ServiceEvent::AnalysisFinished {
        job_id: JobId(1),
        analysis_id: AnalysisId(analysis),
        report: Box::new(report(id, 1)),
    })
    .unwrap()
}

fn summary() -> PlanSummary {
    PlanSummary {
        volume_id: VolumeId(7),
        candidates: vec![PlanCandidate {
            path: FsPath::from_text("/mnt/a"),
            rewrite_bytes: 100,
            current_runs: 2,
            target_runs: 1,
            role: PlanCandidateRole::FragmentationTarget,
        }],
        estimated_rewrite_bytes: 100,
        excluded_files: 0,
        warnings: vec![],
        requirements: ExecutionRequirements {
            mount_state: RequiredMountState::MountedReadWrite,
            requires_privilege: true,
            available_in_this_build: true,
        },
    }
}

fn ready() -> ControllerRust {
    let mut window = ControllerRust::default();
    window.refresh(vec![volume(7), volume(8)]);
    window
}

#[test]
fn nothing_is_analyzed_before_volumes_are_known() {
    let mut window = ControllerRust::default();
    assert_eq!(window.analyze("7", false), None);
    assert_eq!(window.display.status, "Refresh volumes to initialize the analysis service");
    assert_eq!(window.analyze("none", false), None);
    assert_eq!(window.display.status, "Select a valid volume first");
}

#[test]
fn one_job_runs_at_a_time() {
    let mut window = ready();
    assert_eq!(window.volume_count, 2);
    assert_eq!(window.analyze("7", false), Some(VolumeId(7)));
    assert!(window.busy);
    assert_eq!(window.display.status, "Waiting for authorization…");
    assert_eq!(starting_status(true), "Reading the filesystem allocation map…");
    assert_eq!(window.analyze("8", false), None);
    assert_eq!(window.pause(), Some(WorkerCommand::Pause));
    assert!(window.paused);
    assert_eq!(window.resume(), Some(WorkerCommand::Resume));
    assert_eq!(window.stop(), Some(WorkerCommand::Cancel));
    window.apply_update(UiUpdate::Cancelled);
    assert!(!window.busy);
    assert_eq!(window.display.status, "Analysis cancelled");
    assert_eq!(window.analyze("8", true), Some(VolumeId(8)));
}

#[test]
fn a_finished_analysis_is_shown_and_kept() {
    let mut window = ready();
    window.analyze("7", true);
    window.apply_update(UiUpdate::Progress { files: 1, bytes: 2, detail: "x".to_owned() });
    assert_eq!(window.display.files_scanned, 1);
    window.apply_update(finished(7, 3));
    assert!(!window.busy);
    assert!(window.display.has_report);
    assert_eq!(window.display.fragmented_basis_points, 2_000);
    assert_eq!(window.display.file_row_count, 1);
    assert_eq!(window.file_path(0), "/mnt/a");
    assert_eq!(window.file_fragment_count(0), 2);
    assert_eq!(window.volume_fragmented_basis_points(0), 2_000);
    assert!(window.volume_has_report(0));
    assert!(!window.volume_has_report(1));
    window.select_volume("8");
    assert!(!window.display.has_report);
    window.select_volume("7");
    assert!(window.display.has_report);
}

#[test]
fn a_job_on_a_hidden_volume_leaves_the_display_alone() {
    let mut window = ready();
    window.analyze("7", true);
    window.select_volume("8");
    let status = window.display.status.clone();
    window.apply_update(UiUpdate::Progress { files: 1, bytes: 2, detail: "x".to_owned() });
    assert_eq!(window.display.status, status);
    assert_eq!(window.display.files_scanned, 0);
    window.apply_update(finished(7, 3));
    assert!(!window.display.has_report);
    assert!(window.volume_has_report(0));
}

#[test]
fn a_plan_is_used_once() {
    let mut window = ready();
    assert!(window.build_plan().is_none());
    assert_eq!(window.display.status, "Analyze the selected volume first");
    window.analyze("7", true);
    window.apply_update(finished(7, 3));
    let (analysis, _) = window.build_plan().unwrap();
    assert_eq!(analysis, AnalysisId(3));
    window.plan_ready(PlanId(5), summary());
    assert_eq!(window.display.status, "Defragmentation plan ready");
    assert_eq!(window.plan_candidate_path(0), "/mnt/a");
    assert_eq!(window.plan_candidate_current_runs(0), 2);
    assert_eq!(window.plan_candidate_target_runs(0), 1);
    assert_eq!(window.start_defrag(), Some((PlanId(5), VolumeId(7))));
    assert_eq!(window.display.status, "Starting defragmentation…");
    let update = defrag_update(ServiceEvent::DefragFinished {
        job_id: JobId(2),
        report: Box::new(report(7, 0)),
    })
    .unwrap();
    assert!(is_last_update(&update));
    window.apply_update(update);
    assert_eq!(window.display.status, "Defragmentation complete");
    assert_eq!(window.start_defrag(), None);
    assert_eq!(window.display.status, "Build a defragmentation plan first");
}

#[test]
fn failures_are_told() {
    let mut window = ready();
    window.connection_failed("no bus");
    assert_eq!(window.display.status, "Could not initialize analysis: no bus");
    window.listing_failed("no list");
    assert_eq!(window.display.status, "Could not list volumes: no list");
    window.plan_failed("no plan");
    assert_eq!(window.display.status, "Could not build plan: no plan");
    window.analyze("7", true);
    window.apply_update(UiUpdate::Failed("broken".to_owned()));
    assert_eq!(window.display.status, "Analysis failed: broken");
}

#[test]
fn the_map_is_rendered_for_the_space_there_is() {
    let mut window = ready();
    window.analyze("7", true);
    window.apply_update(finished(7, 3));
    let data = window.render_map(22, 11, 1_000, true);
    assert_eq!(data.len() % MAP_RECORD_BYTES, 0);
    assert_eq!(data.len() / MAP_RECORD_BYTES, 2);
    window.map_rendered(data.clone(), 4);
    assert_eq!(window.display_map_data, data);
}

#[test]
fn rows_out_of_range_are_empty() {
    let window = ready();
    assert_eq!(window.volume_id(0), "7");
    assert_eq!(window.volume_mount_point(0), "/mnt");
    assert_eq!(window.volume_source(1), "/dev/sda1");
    assert_eq!(window.volume_filesystem(0), "ext4");
    assert_eq!(window.volume_capacity_bytes(0), 1_000);
    assert_eq!(window.volume_used_bytes(0), 600);
    assert_eq!(window.volume_free_bytes(0), 400);
    assert!(window.volume_supported(0));
    for index in [-1, 2, i32::MAX] {
        assert_eq!(window.volume_id(index), "");
        assert_eq!(window.file_path(index), "");
        assert_eq!(window.map_file_path(index), "");
        assert_eq!(window.volume_capacity_bytes(index), 0);
        assert_eq!(window.file_size_bytes(index), 0);
        assert!(!window.volume_supported(index));
    }
}

#[test]
fn numbers_are_cut_to_what_the_window_takes() {
    assert_eq!(count_i32(5), 5);
    assert_eq!(count_i32(usize::MAX), i32::MAX);
    assert_eq!(optional_basis_points(Some(7)), 7);
    assert_eq!(optional_basis_points(None), -1);
}

#[test]
fn reports_are_prepared_for_the_window() {
    let prepared = prepare_ui_report(report(7, 1));
    assert_eq!(prepared.file_rows.len(), 1);
    assert_eq!(prepared.bytes_scanned, 100);
    let whole = prepare_ui_report(report(7, 0));
    assert_eq!(whole.file_rows.len(), 0);
    assert_eq!(whole.map_files.len(), 1);
    let mut partial = report(7, 0);
    partial.completeness = AnalysisCompleteness::Partial;
    partial.coverage.skipped_entries = 3;
    assert_eq!(
        prepare_ui_report(partial).status,
        "Analysis is partial because some entries were skipped."
    );
}

#[test]
fn quiet_events_change_nothing() {
    assert!(analysis_update(ServiceEvent::AnalysisStarted { job_id: JobId(1) }).is_none());
    assert!(defrag_update(ServiceEvent::DefragStarted { job_id: JobId(1), plan_id: PlanId(1) })
        .is_none());
    let cancelled = analysis_update(ServiceEvent::JobCancelled { job_id: JobId(1) }).unwrap();
    assert!(is_last_update(&cancelled));
}
