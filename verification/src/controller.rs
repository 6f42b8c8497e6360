//! What the window shows: the volumes, the selected volume's report or
//! running job, its map, and its plan.

use std::collections::HashMap;

use vstd::prelude::*;

use crate::contributors;
use crate::contributors::MapFileRange;
use crate::domain::{
    AnalysisId, AnalysisReport, AnalysisReportView, DefragPolicy, EventView, FileReport,
    FileReportView, MapBin, OptimizationMode, PhysicalRange, PlanCandidate, PlanCandidateView,
    PlanId, PlanSummary, ServiceEvent, SupportStatus, Volume, VolumeId, VolumeView,
};
use crate::labels;
use crate::map_view;
use crate::map_view::MapContributor;
use crate::path;
use crate::path::FsPath;
use crate::text;
use crate::views;

verus! {

// ---------------------------------------------------------------------
// Numbers
// ---------------------------------------------------------------------

/// A count as far as the window can show it.
pub open spec fn shown_count(value: int) -> i32 {
    if value > i32::MAX {
        i32::MAX
    } else {
        value as i32
    }
}

/// Cuts a count to what the window can show.
pub fn count_i32(value: usize) -> (count: i32)
    ensures
        count == shown_count(value as int),
{
    if value > i32::MAX as usize {
        i32::MAX
    } else {
        value as i32
    }
}

/// A share as the window shows it; one that is not known is minus one.
pub open spec fn shown_share(value: Option<u16>) -> i32 {
    match value {
        Some(value) => value as i32,
        None => -1i32,
    }
}

/// Turns a share into what the window shows.
pub fn optional_basis_points(value: Option<u16>) -> (points: i32)
    ensures
        points == shown_share(value),
{
    match value {
        Some(value) => value as i32,
        None => -1,
    }
}

/// The number that tells the window that something changed.
pub open spec fn following(revision: i32) -> i32 {
    if revision == i32::MAX {
        i32::MIN
    } else {
        (revision + 1) as i32
    }
}

fn next_revision(revision: i32) -> (next: i32)
    ensures
        next == following(revision),
{
    if revision == i32::MAX {
        i32::MIN
    } else {
        revision + 1
    }
}

// ---------------------------------------------------------------------
// Reports
// ---------------------------------------------------------------------

/// What the window needs of a report.
#[derive(Debug)]
pub struct UiReport {
    pub volume_id: VolumeId,
    pub fragmented_basis_points: i32,
    pub coverage_basis_points: i32,
    pub files_scanned: u64,
    pub bytes_scanned: u64,
    pub skipped_entries: u64,
    pub status: String,
    pub map_bins: Vec<MapBin>,
    pub file_rows: Vec<FileReport>,
    pub map_files: Vec<FileReport>,
}

/// The contents of a [`UiReport`].
#[verifier::ext_equal]
pub struct UiReportView {
    pub volume_id: VolumeId,
    pub fragmented_basis_points: i32,
    pub coverage_basis_points: i32,
    pub files_scanned: u64,
    pub bytes_scanned: u64,
    pub skipped_entries: u64,
    pub status: Seq<char>,
    pub map_bins: Seq<MapBin>,
    pub file_rows: Seq<FileReportView>,
    pub map_files: Seq<FileReportView>,
}

impl View for UiReport {
    type V = UiReportView;

    open spec fn view(&self) -> UiReportView {
        UiReportView {
            volume_id: self.volume_id,
            fragmented_basis_points: self.fragmented_basis_points,
            coverage_basis_points: self.coverage_basis_points,
            files_scanned: self.files_scanned,
            bytes_scanned: self.bytes_scanned,
            skipped_entries: self.skipped_entries,
            status: self.status@,
            map_bins: self.map_bins@,
            file_rows: views::of(self.file_rows@),
            map_files: views::of(self.map_files@),
        }
    }
}

/// A file without its places on the device.
pub open spec fn placeless(file: FileReportView) -> FileReportView {
    FileReportView { physical_ranges: Seq::empty(), ..file }
}

/// The fragmented files, without their places on the device, in order.
pub open spec fn fragmented_rows(files: Seq<FileReportView>) -> Seq<FileReportView>
    decreases files.len(),
{
    if files.len() == 0 {
        Seq::empty()
    } else if files.last().excess_runs > 0 {
        fragmented_rows(files.drop_last()).push(placeless(files.last()))
    } else {
        fragmented_rows(files.drop_last())
    }
}

/// What the window says of a report: nothing where everything was seen, else
/// the last warning.
pub open spec fn report_status(report: AnalysisReportView) -> Seq<char> {
    if report.coverage.skipped_entries == 0 {
        Seq::empty()
    } else if report.warnings.len() > 0 {
        report.warnings.last()
    } else {
        "Analysis is partial because some entries were skipped."@
    }
}

/// What the window needs of a report.
pub open spec fn prepared(report: AnalysisReportView) -> UiReportView {
    UiReportView {
        volume_id: report.volume.id,
        fragmented_basis_points: shown_share(report.fragmentation.fragmented_basis_points),
        coverage_basis_points: shown_share(report.coverage.estimated_basis_points),
        files_scanned: report.coverage.files_scanned,
        bytes_scanned: report.coverage.scanned_allocated_bytes,
        skipped_entries: report.coverage.skipped_entries,
        status: report_status(report),
        map_bins: report.map,
        file_rows: fragmented_rows(report.files),
        map_files: report.files,
    }
}

fn without_places(file: &FileReport) -> (copy: FileReport)
    ensures
        copy@ == placeless(file@),
{
    let mut copy: FileReport = file.clone();
    copy.physical_ranges = Vec::new();
    assert(copy.physical_ranges@ =~= Seq::empty());
    copy
}

fn fragmented_files(files: &Vec<FileReport>) -> (rows: Vec<FileReport>)
    ensures
        views::of(rows@) == fragmented_rows(views::of(files@)),
{
    let ghost all = views::of(files@);
    let mut rows: Vec<FileReport> = Vec::new();
    assert(views::of(rows@) =~= Seq::empty());
    let mut i: usize = 0;
    while i < files.len()
        invariant
            i <= files@.len(),
            all == views::of(files@),
            views::of(rows@) == fragmented_rows(all.take(i as int)),
        decreases files@.len() - i,
    {
        assert(all.take(i + 1).drop_last() =~= all.take(i as int));
        if files[i].excess_runs > 0 {
            let ghost before = views::of(rows@);
            let row: FileReport = without_places(&files[i]);
            let ghost added = row@;
            rows.push(row);
            assert(views::of(rows@) =~= before.push(added));
        }
        i = i + 1;
    }
    assert(all.take(i as int) =~= all);
    rows
}

/// Takes from a report what the window needs.
pub fn prepare_ui_report(report: AnalysisReport) -> (prepared_report: UiReport)
    ensures
        prepared_report@ == prepared(report@),
{
    let status: String = if report.coverage.skipped_entries > 0 {
        if report.warnings.len() > 0 {
            let last: usize = report.warnings.len() - 1;
            assert(views::of(report.warnings@).last() == report.warnings@[last as int]@);
            report.warnings[last].clone()
        } else {
            "Analysis is partial because some entries were skipped.".to_owned()
        }
    } else {
        String::new()
    };
    assert(status@ =~= report_status(report@));
    let file_rows: Vec<FileReport> = fragmented_files(&report.files);
    UiReport {
        volume_id: report.volume.id,
        fragmented_basis_points: optional_basis_points(
            report.fragmentation.fragmented_basis_points,
        ),
        coverage_basis_points: optional_basis_points(report.coverage.estimated_basis_points),
        files_scanned: report.coverage.files_scanned,
        bytes_scanned: report.coverage.scanned_allocated_bytes,
        skipped_entries: report.coverage.skipped_entries,
        status,
        map_bins: report.map,
        file_rows,
        map_files: report.files,
    }
}

/// A report that is kept for its volume.
#[derive(Debug)]
pub struct CachedAnalysis {
    pub analysis_id: Option<AnalysisId>,
    pub fragmented_basis_points: i32,
    pub coverage_basis_points: i32,
    pub files_scanned: u64,
    pub bytes_scanned: u64,
    pub skipped_entries: u64,
    pub status: String,
    pub map_bins: Vec<MapBin>,
    pub file_rows: Vec<FileReport>,
    pub map_files: Vec<FileReport>,
    pub map_file_ranges: Vec<MapFileRange>,
}

/// The contents of a [`CachedAnalysis`].
#[verifier::ext_equal]
pub struct CachedView {
    pub analysis_id: Option<AnalysisId>,
    pub fragmented_basis_points: i32,
    pub coverage_basis_points: i32,
    pub files_scanned: u64,
    pub bytes_scanned: u64,
    pub skipped_entries: u64,
    pub status: Seq<char>,
    pub map_bins: Seq<MapBin>,
    pub file_rows: Seq<FileReportView>,
    pub map_files: Seq<FileReportView>,
    pub map_file_ranges: Seq<MapFileRange>,
}

impl View for CachedAnalysis {
    type V = CachedView;

    open spec fn view(&self) -> CachedView {
        CachedView {
            analysis_id: self.analysis_id,
            fragmented_basis_points: self.fragmented_basis_points,
            coverage_basis_points: self.coverage_basis_points,
            files_scanned: self.files_scanned,
            bytes_scanned: self.bytes_scanned,
            skipped_entries: self.skipped_entries,
            status: self.status@,
            map_bins: self.map_bins@,
            file_rows: views::of(self.file_rows@),
            map_files: views::of(self.map_files@),
            map_file_ranges: self.map_file_ranges@,
        }
    }
}

/// The places of one file, marked with its number.
pub open spec fn numbered(index: usize, ranges: Seq<PhysicalRange>) -> Seq<MapFileRange> {
    Seq::new(ranges.len(), |i: int| MapFileRange { file_index: index, physical: ranges[i] })
}

/// The places of all files, each marked with the number of its file.
pub open spec fn numbered_ranges(files: Seq<FileReportView>) -> Seq<MapFileRange>
    decreases files.len(),
{
    if files.len() == 0 {
        Seq::empty()
    } else {
        numbered_ranges(files.drop_last()) + numbered(
            (files.len() - 1) as usize,
            files.last().physical_ranges,
        )
    }
}

/// Files without their places on the device.
pub open spec fn placeless_files(files: Seq<FileReportView>) -> Seq<FileReportView> {
    Seq::new(files.len(), |i: int| placeless(files[i]))
}

/// What is kept of a report: the places of its files stand in one list, and
/// no longer with the files.
pub open spec fn cached(report: UiReportView, analysis_id: Option<AnalysisId>) -> CachedView {
    CachedView {
        analysis_id,
        fragmented_basis_points: report.fragmented_basis_points,
        coverage_basis_points: report.coverage_basis_points,
        files_scanned: report.files_scanned,
        bytes_scanned: report.bytes_scanned,
        skipped_entries: report.skipped_entries,
        status: report.status,
        map_bins: report.map_bins,
        file_rows: report.file_rows,
        map_files: placeless_files(report.map_files),
        map_file_ranges: numbered_ranges(report.map_files),
    }
}

fn push_numbered(list: &mut Vec<MapFileRange>, index: usize, ranges: &Vec<PhysicalRange>)
    ensures
        final(list)@ == old(list)@ + numbered(index, ranges@),
{
    let ghost start = list@;
    let ghost added = numbered(index, ranges@);
    let mut i: usize = 0;
    assert(start + added.take(0) =~= start);
    while i < ranges.len()
        invariant
            i <= ranges@.len(),
            added == numbered(index, ranges@),
            list@ == start + added.take(i as int),
        decreases ranges@.len() - i,
    {
        list.push(MapFileRange { file_index: index, physical: ranges[i] });
        i = i + 1;
        assert(list@ =~= start + added.take(i as int));
    }
    assert(added.take(i as int) =~= added);
}

/// Makes a report one to be kept.
pub fn cache_report(report: UiReport, analysis_id: Option<AnalysisId>) -> (result: (
    VolumeId,
    CachedAnalysis,
))
    ensures
        result.0 == report@.volume_id,
        result.1@ == cached(report@, analysis_id),
{
    let ghost all = views::of(report.map_files@);
    let mut ranges: Vec<MapFileRange> = Vec::new();
    let mut files: Vec<FileReport> = Vec::new();
    assert(views::of(files@) =~= placeless_files(all.take(0)));
    let mut i: usize = 0;
    while i < report.map_files.len()
        invariant
            i <= report.map_files@.len(),
            all == views::of(report.map_files@),
            ranges@ == numbered_ranges(all.take(i as int)),
            views::of(files@) == placeless_files(all.take(i as int)),
        decreases report.map_files@.len() - i,
    {
        let file: &FileReport = &report.map_files[i];
        assert(all.take(i + 1).drop_last() =~= all.take(i as int));
        push_numbered(&mut ranges, i, &file.physical_ranges);
        let ghost before = views::of(files@);
        let copy: FileReport = without_places(file);
        let ghost added = copy@;
        files.push(copy);
        i = i + 1;
        assert(views::of(files@) =~= before.push(added));
        assert(placeless_files(all.take(i as int)) =~= before.push(added));
    }
    assert(all.take(i as int) =~= all);
    (
        report.volume_id,
        CachedAnalysis {
            analysis_id,
            fragmented_basis_points: report.fragmented_basis_points,
            coverage_basis_points: report.coverage_basis_points,
            files_scanned: report.files_scanned,
            bytes_scanned: report.bytes_scanned,
            skipped_entries: report.skipped_entries,
            status: report.status,
            map_bins: report.map_bins,
            file_rows: report.file_rows,
            map_files: files,
            map_file_ranges: ranges,
        },
    )
}

// ---------------------------------------------------------------------
// Updates
// ---------------------------------------------------------------------

/// What a running job changes in the window.
#[derive(Debug)]
pub enum UiUpdate {
    MapChanged { full: bool, bins: Vec<MapBin> },
    Progress { files: u64, bytes: u64, detail: String },
    Finished { analysis_id: AnalysisId, report: UiReport },
    Activity { reading: Vec<PhysicalRange>, writing: Vec<PhysicalRange> },
    DefragFinished { report: UiReport, stopped: bool },
    Cancelled,
    Failed(String),
}

/// The contents of a [`UiUpdate`].
#[verifier::ext_equal]
pub enum UpdateView {
    MapChanged { full: bool, bins: Seq<MapBin> },
    Progress { files: u64, bytes: u64, detail: Seq<char> },
    Finished { analysis_id: AnalysisId, report: UiReportView },
    Activity { reading: Seq<PhysicalRange>, writing: Seq<PhysicalRange> },
    DefragFinished { report: UiReportView, stopped: bool },
    Cancelled,
    Failed(Seq<char>),
}

impl View for UiUpdate {
    type V = UpdateView;

    open spec fn view(&self) -> UpdateView {
        match self {
            UiUpdate::MapChanged { full, bins } => UpdateView::MapChanged {
                full: *full,
                bins: bins@,
            },
            UiUpdate::Progress { files, bytes, detail } => UpdateView::Progress {
                files: *files,
                bytes: *bytes,
                detail: detail@,
            },
            UiUpdate::Finished { analysis_id, report } => UpdateView::Finished {
                analysis_id: *analysis_id,
                report: report@,
            },
            UiUpdate::Activity { reading, writing } => UpdateView::Activity {
                reading: reading@,
                writing: writing@,
            },
            UiUpdate::DefragFinished { report, stopped } => UpdateView::DefragFinished {
                report: report@,
                stopped: *stopped,
            },
            UiUpdate::Cancelled => UpdateView::Cancelled,
            UiUpdate::Failed(message) => UpdateView::Failed(message@),
        }
    }
}

/// What is said of the progress of a job: the path that it works on, or its
/// phase.
pub open spec fn progress_detail(path: Option<Seq<u8>>, phase: Seq<char>) -> Seq<char> {
    match path {
        Some(path) => path::lossy_text(path),
        None => phase,
    }
}

fn detail_of(path: &Option<FsPath>, phase: &str) -> (detail: String)
    ensures
        detail@ == progress_detail(views::opt(*path), phase@),
{
    match path {
        Some(path) => path.display(),
        None => phase.to_owned(),
    }
}

/// What an event of an analysis changes in the window.
pub open spec fn analysis_update_of(event: EventView) -> Option<UpdateView> {
    match event {
        EventView::MapUpdated { job_id, full_snapshot, bins } => Some(
            UpdateView::MapChanged { full: full_snapshot, bins },
        ),
        EventView::Progress(progress) => Some(
            UpdateView::Progress {
                files: progress.files_scanned,
                bytes: progress.bytes_scanned,
                detail: progress_detail(
                    progress.current_path,
                    labels::analysis_phase_name(progress.phase),
                ),
            },
        ),
        EventView::AnalysisFinished { job_id, analysis_id, report } => Some(
            UpdateView::Finished { analysis_id, report: prepared(report) },
        ),
        EventView::JobCancelled { job_id } => Some(UpdateView::Cancelled),
        EventView::Failed { job_id, message } => Some(UpdateView::Failed(message)),
        _ => None,
    }
}

/// Reads an event of an analysis.
pub fn analysis_update(event: ServiceEvent) -> (update: Option<UiUpdate>)
    ensures
        views::opt(update) == analysis_update_of(event@),
{
    match event {
        ServiceEvent::MapUpdated { job_id: _, full_snapshot, bins } => Some(
            UiUpdate::MapChanged { full: full_snapshot, bins },
        ),
        ServiceEvent::Progress(progress) => Some(
            UiUpdate::Progress {
                files: progress.files_scanned,
                bytes: progress.bytes_scanned,
                detail: detail_of(
                    &progress.current_path,
                    labels::analysis_phase(progress.phase),
                ),
            },
        ),
        ServiceEvent::AnalysisFinished { job_id: _, analysis_id, report } => Some(
            UiUpdate::Finished { analysis_id, report: prepare_ui_report(*report) },
        ),
        ServiceEvent::JobCancelled { .. } => Some(UiUpdate::Cancelled),
        ServiceEvent::Failed { job_id: _, message } => Some(UiUpdate::Failed(message)),
        _ => None,
    }
}

/// What an event of a defragmentation changes in the window.
pub open spec fn defrag_update_of(event: EventView) -> Option<UpdateView> {
    match event {
        EventView::MapUpdated { job_id, full_snapshot, bins } => Some(
            UpdateView::MapChanged { full: full_snapshot, bins },
        ),
        EventView::DefragPendingIo { job_id, reading, writing } => Some(
            UpdateView::Activity { reading, writing },
        ),
        EventView::DefragProgress(progress) => Some(
            UpdateView::Progress {
                files: progress.files_completed,
                bytes: progress.bytes_moved,
                detail: progress_detail(
                    progress.current_path,
                    labels::defrag_phase_name(progress.phase),
                ),
            },
        ),
        EventView::DefragFinished { job_id, report } => Some(
            UpdateView::DefragFinished { report: prepared(report), stopped: false },
        ),
        EventView::DefragStopped { job_id, report } => Some(
            UpdateView::DefragFinished { report: prepared(report), stopped: true },
        ),
        EventView::JobCancelled { job_id } => Some(UpdateView::Cancelled),
        EventView::Failed { job_id, message } => Some(UpdateView::Failed(message)),
        _ => None,
    }
}

/// Reads an event of a defragmentation.
pub fn defrag_update(event: ServiceEvent) -> (update: Option<UiUpdate>)
    ensures
        views::opt(update) == defrag_update_of(event@),
{
    match event {
        ServiceEvent::MapUpdated { job_id: _, full_snapshot, bins } => Some(
            UiUpdate::MapChanged { full: full_snapshot, bins },
        ),
        ServiceEvent::DefragPendingIo { job_id: _, reading, writing } => Some(
            UiUpdate::Activity { reading, writing },
        ),
        ServiceEvent::DefragProgress(progress) => Some(
            UiUpdate::Progress {
                files: progress.files_completed,
                bytes: progress.bytes_moved,
                detail: detail_of(&progress.current_path, labels::defrag_phase(progress.phase)),
            },
        ),
        ServiceEvent::DefragFinished { job_id: _, report } => Some(
            UiUpdate::DefragFinished { report: prepare_ui_report(*report), stopped: false },
        ),
        ServiceEvent::DefragStopped { job_id: _, report } => Some(
            UiUpdate::DefragFinished { report: prepare_ui_report(*report), stopped: true },
        ),
        ServiceEvent::JobCancelled { .. } => Some(UiUpdate::Cancelled),
        ServiceEvent::Failed { job_id: _, message } => Some(UiUpdate::Failed(message)),
        _ => None,
    }
}

/// Whether an update is the last of its job.
pub open spec fn ends_work(update: UpdateView) -> bool {
    update is Finished || update is DefragFinished || update is Cancelled || update is Failed
}

/// Tells whether an update is the last of its job.
pub fn is_last_update(update: &UiUpdate) -> (yes: bool)
    ensures
        yes == ends_work(update@),
{
    match update {
        UiUpdate::Finished { .. } => true,
        UiUpdate::DefragFinished { .. } => true,
        UiUpdate::Cancelled => true,
        UiUpdate::Failed(_) => true,
        _ => false,
    }
}

// ---------------------------------------------------------------------
// What is shown
// ---------------------------------------------------------------------

/// What the window shows of the selected volume.
pub struct Display {
    pub status: String,
    pub map_volume_id: String,
    pub report_volume_id: String,
    pub map_revision: i32,
    pub fragmented_basis_points: i32,
    pub coverage_basis_points: i32,
    pub file_row_count: i32,
    pub plan_candidate_count: i32,
    pub plan_revision: i32,
    pub has_report: bool,
    pub files_scanned: u64,
    pub bytes_scanned: u64,
    pub skipped_entries: u64,
    pub plan_estimated_rewrite_bytes: u64,
    pub analysis_id: Option<AnalysisId>,
    pub plan_id: Option<PlanId>,
    pub map_bins: Vec<MapBin>,
    pub file_rows: Vec<FileReport>,
    pub map_files: Vec<FileReport>,
    pub map_file_ranges: Vec<MapFileRange>,
    pub plan_candidates: Vec<PlanCandidate>,
}

/// The contents of a [`Display`].
#[verifier::ext_equal]
pub struct DisplayView {
    pub status: Seq<char>,
    pub map_volume_id: Seq<char>,
    pub report_volume_id: Seq<char>,
    pub map_revision: i32,
    pub fragmented_basis_points: i32,
    pub coverage_basis_points: i32,
    pub file_row_count: i32,
    pub plan_candidate_count: i32,
    pub plan_revision: i32,
    pub has_report: bool,
    pub files_scanned: u64,
    pub bytes_scanned: u64,
    pub skipped_entries: u64,
    pub plan_estimated_rewrite_bytes: u64,
    pub analysis_id: Option<AnalysisId>,
    pub plan_id: Option<PlanId>,
    pub map_bins: Seq<MapBin>,
    pub file_rows: Seq<FileReportView>,
    pub map_files: Seq<FileReportView>,
    pub map_file_ranges: Seq<MapFileRange>,
    pub plan_candidates: Seq<PlanCandidateView>,
}

impl View for Display {
    type V = DisplayView;

    open spec fn view(&self) -> DisplayView {
        DisplayView {
            status: self.status@,
            map_volume_id: self.map_volume_id@,
            report_volume_id: self.report_volume_id@,
            map_revision: self.map_revision,
            fragmented_basis_points: self.fragmented_basis_points,
            coverage_basis_points: self.coverage_basis_points,
            file_row_count: self.file_row_count,
            plan_candidate_count: self.plan_candidate_count,
            plan_revision: self.plan_revision,
            has_report: self.has_report,
            files_scanned: self.files_scanned,
            bytes_scanned: self.bytes_scanned,
            skipped_entries: self.skipped_entries,
            plan_estimated_rewrite_bytes: self.plan_estimated_rewrite_bytes,
            analysis_id: self.analysis_id,
            plan_id: self.plan_id,
            map_bins: self.map_bins@,
            file_rows: views::of(self.file_rows@),
            map_files: views::of(self.map_files@),
            map_file_ranges: self.map_file_ranges@,
            plan_candidates: views::of(self.plan_candidates@),
        }
    }
}

/// A window that shows nothing of any volume.
pub open spec fn blank(map_revision: i32) -> DisplayView {
    DisplayView {
        status: Seq::empty(),
        map_volume_id: Seq::empty(),
        report_volume_id: Seq::empty(),
        map_revision,
        fragmented_basis_points: -1i32,
        coverage_basis_points: -1i32,
        file_row_count: 0,
        plan_candidate_count: 0,
        plan_revision: 0,
        has_report: false,
        files_scanned: 0,
        bytes_scanned: 0,
        skipped_entries: 0,
        plan_estimated_rewrite_bytes: 0,
        analysis_id: None,
        plan_id: None,
        map_bins: Seq::empty(),
        file_rows: Seq::empty(),
        map_files: Seq::empty(),
        map_file_ranges: Seq::empty(),
        plan_candidates: Seq::empty(),
    }
}

fn blank_display(map_revision: i32) -> (display: Display)
    ensures
        display@ == blank(map_revision),
{
    let display = Display {
        status: String::new(),
        map_volume_id: String::new(),
        report_volume_id: String::new(),
        map_revision,
        fragmented_basis_points: -1,
        coverage_basis_points: -1,
        file_row_count: 0,
        plan_candidate_count: 0,
        plan_revision: 0,
        has_report: false,
        files_scanned: 0,
        bytes_scanned: 0,
        skipped_entries: 0,
        plan_estimated_rewrite_bytes: 0,
        analysis_id: None,
        plan_id: None,
        map_bins: Vec::new(),
        file_rows: Vec::new(),
        map_files: Vec::new(),
        map_file_ranges: Vec::new(),
        plan_candidates: Vec::new(),
    };
    assert(display@ =~= blank(map_revision));
    display
}

/// What is known of the running job.
pub struct ActiveJob {
    pub volume_id: Option<VolumeId>,
    pub map_bins: Vec<MapBin>,
    pub files_scanned: u64,
    pub bytes_scanned: u64,
    pub status: String,
}

/// The contents of an [`ActiveJob`].
#[verifier::ext_equal]
pub struct ActiveView {
    pub volume_id: Option<VolumeId>,
    pub map_bins: Seq<MapBin>,
    pub files_scanned: u64,
    pub bytes_scanned: u64,
    pub status: Seq<char>,
}

impl View for ActiveJob {
    type V = ActiveView;

    open spec fn view(&self) -> ActiveView {
        ActiveView {
            volume_id: self.volume_id,
            map_bins: self.map_bins@,
            files_scanned: self.files_scanned,
            bytes_scanned: self.bytes_scanned,
            status: self.status@,
        }
    }
}

/// The window of a volume whose job runs.
pub open spec fn showing_job(map_revision: i32, id: VolumeId, active: ActiveView) -> DisplayView {
    DisplayView {
        map_bins: active.map_bins,
        map_volume_id: text::decimal(id.0 as nat),
        files_scanned: active.files_scanned,
        bytes_scanned: active.bytes_scanned,
        status: active.status,
        ..blank(map_revision)
    }
}

/// The window of a volume that has a report.
pub open spec fn showing_report(map_revision: i32, id: VolumeId, kept: CachedView) -> DisplayView {
    DisplayView {
        analysis_id: kept.analysis_id,
        map_bins: kept.map_bins,
        file_rows: kept.file_rows,
        map_files: kept.map_files,
        map_file_ranges: kept.map_file_ranges,
        map_volume_id: text::decimal(id.0 as nat),
        report_volume_id: text::decimal(id.0 as nat),
        fragmented_basis_points: kept.fragmented_basis_points,
        coverage_basis_points: kept.coverage_basis_points,
        file_row_count: shown_count(kept.file_rows.len() as int),
        files_scanned: kept.files_scanned,
        bytes_scanned: kept.bytes_scanned,
        skipped_entries: kept.skipped_entries,
        has_report: true,
        status: kept.status,
        ..blank(map_revision)
    }
}

fn job_display(map_revision: i32, id: VolumeId, active: &ActiveJob) -> (display: Display)
    ensures
        display@ == showing_job(map_revision, id, active@),
{
    let mut display: Display = blank_display(map_revision);
    let mut name: String = String::new();
    text::push_decimal(&mut name, id.0);
    assert(name@ =~= text::decimal(id.0 as nat));
    display.map_bins = views::copy_list(&active.map_bins);
    display.map_volume_id = name;
    display.files_scanned = active.files_scanned;
    display.bytes_scanned = active.bytes_scanned;
    display.status = active.status.clone();
    display
}

fn report_display(map_revision: i32, id: VolumeId, kept: &CachedAnalysis) -> (display: Display)
    ensures
        display@ == showing_report(map_revision, id, kept@),
{
    let mut display: Display = blank_display(map_revision);
    let mut name: String = String::new();
    text::push_decimal(&mut name, id.0);
    assert(name@ =~= text::decimal(id.0 as nat));
    display.analysis_id = kept.analysis_id;
    display.map_bins = views::copy_list(&kept.map_bins);
    display.file_row_count = count_i32(kept.file_rows.len());
    display.file_rows = views::clone_list(&kept.file_rows);
    display.map_files = views::clone_list(&kept.map_files);
    display.map_file_ranges = views::copy_list(&kept.map_file_ranges);
    display.map_volume_id = name.clone();
    display.report_volume_id = name;
    display.fragmented_basis_points = kept.fragmented_basis_points;
    display.coverage_basis_points = kept.coverage_basis_points;
    display.files_scanned = kept.files_scanned;
    display.bytes_scanned = kept.bytes_scanned;
    display.skipped_entries = kept.skipped_entries;
    display.has_report = true;
    display.status = kept.status.clone();
    display
}

// ---------------------------------------------------------------------
// The controller
// ---------------------------------------------------------------------

/// What a running job is told.
#[derive(Clone, Copy, Debug, PartialEq, Eq, Structural)]
pub enum WorkerCommand {
    Pause,
    Resume,
    Cancel,
}

/// The state behind the window.
pub struct ControllerRust {
    pub display: Display,
    pub active: ActiveJob,
    pub analyses: HashMap<u64, CachedAnalysis>,
    pub volumes: Vec<Volume>,
    pub volume_count: i32,
    pub visible_volume_id: Option<VolumeId>,
    pub analyzing_volume_id: String,
    pub analysis_revision: i32,
    pub display_map_data: Vec<u8>,
    pub display_map_generation: i32,
    pub activity_data: Vec<u8>,
    pub activity_revision: i32,
    pub busy: bool,
    pub paused: bool,
    /// Whether there is a service to ask.
    pub connected: bool,
    /// Whether a job runs that can be told something.
    pub working: bool,
}

/// The contents of a [`ControllerRust`].
#[verifier::ext_equal]
pub struct ControllerView {
    pub display: DisplayView,
    pub active: ActiveView,
    pub analyses: Map<u64, CachedView>,
    pub volumes: Seq<VolumeView>,
    pub volume_count: i32,
    pub visible_volume_id: Option<VolumeId>,
    pub analyzing_volume_id: Seq<char>,
    pub analysis_revision: i32,
    pub display_map_data: Seq<u8>,
    pub display_map_generation: i32,
    pub activity_data: Seq<u8>,
    pub activity_revision: i32,
    pub busy: bool,
    pub paused: bool,
    pub connected: bool,
    pub working: bool,
}

/// The contents of what is kept.
pub open spec fn kept_views(analyses: Map<u64, CachedAnalysis>) -> Map<u64, CachedView> {
    Map::new(|k: u64| analyses.contains_key(k), |k: u64| analyses[k]@)
}

impl View for ControllerRust {
    type V = ControllerView;

    open spec fn view(&self) -> ControllerView {
        ControllerView {
            display: self.display@,
            active: self.active@,
            analyses: kept_views(self.analyses@),
            volumes: views::of(self.volumes@),
            volume_count: self.volume_count,
            visible_volume_id: self.visible_volume_id,
            analyzing_volume_id: self.analyzing_volume_id@,
            analysis_revision: self.analysis_revision,
            display_map_data: self.display_map_data@,
            display_map_generation: self.display_map_generation,
            activity_data: self.activity_data@,
            activity_revision: self.activity_revision,
            busy: self.busy,
            paused: self.paused,
            connected: self.connected,
            working: self.working,
        }
    }
}

/// A controller that says something.
pub open spec fn saying(c: ControllerView, status: Seq<char>) -> ControllerView {
    ControllerView { display: DisplayView { status, ..c.display }, ..c }
}

/// A controller that shows nothing of any volume.
pub open spec fn cleared(c: ControllerView) -> ControllerView {
    ControllerView { display: blank(following(c.display.map_revision)), ..c }
}

/// A controller that shows a volume: its running job, else its report, else
/// nothing.
pub open spec fn showing(c: ControllerView, id: VolumeId) -> ControllerView {
    let revision = following(c.display.map_revision);
    ControllerView {
        visible_volume_id: Some(id),
        display: if c.active.volume_id == Some(id) {
            showing_job(revision, id, c.active)
        } else if c.analyses.contains_key(id.0) {
            showing_report(revision, id, c.analyses[id.0])
        } else {
            blank(revision)
        },
        ..c
    }
}

/// Whether the window shows the volume of the running job.
pub open spec fn job_is_visible(c: ControllerView) -> bool {
    c.active.volume_id is Some && c.active.volume_id == c.visible_volume_id
}

/// A controller whose job is over.
pub open spec fn idle(c: ControllerView) -> ControllerView {
    ControllerView {
        active: ActiveView {
            volume_id: None,
            map_bins: Seq::empty(),
            status: Seq::empty(),
            ..c.active
        },
        working: false,
        busy: false,
        paused: false,
        analyzing_volume_id: Seq::empty(),
        ..c
    }
}

/// A controller with a report for a volume.
pub open spec fn keeping(c: ControllerView, id: VolumeId, kept: CachedView) -> ControllerView {
    ControllerView {
        analyses: c.analyses.insert(id.0, kept),
        analysis_revision: following(c.analysis_revision),
        ..c
    }
}

/// A controller whose job ended without a report: the volume is shown as it
/// was before.
pub open spec fn given_up(c: ControllerView, status: Seq<char>) -> ControllerView {
    let over = ControllerView { activity_data: Seq::empty(), ..idle(c) };
    if job_is_visible(c) {
        saying(showing(over, c.active.volume_id->Some_0), status)
    } else {
        over
    }
}

/// A controller when its job told something.
pub open spec fn updated(c: ControllerView, update: UpdateView) -> ControllerView {
    match update {
        UpdateView::MapChanged { full, bins } => {
            let merged = map_view::merged(c.active.map_bins, full, bins);
            let after = ControllerView {
                active: ActiveView { map_bins: merged, ..c.active },
                ..c
            };
            if job_is_visible(c) {
                ControllerView {
                    display: DisplayView {
                        map_bins: merged,
                        map_revision: following(c.display.map_revision),
                        ..c.display
                    },
                    ..after
                }
            } else {
                after
            }
        },
        UpdateView::Progress { files, bytes, detail } => {
            let after = ControllerView {
                active: ActiveView {
                    files_scanned: files,
                    bytes_scanned: bytes,
                    status: detail,
                    ..c.active
                },
                ..c
            };
            if job_is_visible(c) {
                ControllerView {
                    display: DisplayView {
                        files_scanned: files,
                        bytes_scanned: bytes,
                        status: detail,
                        ..c.display
                    },
                    ..after
                }
            } else {
                after
            }
        },
        UpdateView::Finished { analysis_id, report } => {
            let after = idle(keeping(c, report.volume_id, cached(report, Some(analysis_id))));
            if c.visible_volume_id == Some(report.volume_id) {
                showing(after, report.volume_id)
            } else {
                after
            }
        },
        UpdateView::Activity { reading, writing } => ControllerView {
            activity_data: map_view::ranges_bytes(reading, 1) + map_view::ranges_bytes(writing, 2),
            activity_revision: following(c.activity_revision),
            ..c
        },
        UpdateView::DefragFinished { report, stopped } => {
            let after = ControllerView {
                activity_data: Seq::empty(),
                ..idle(keeping(c, report.volume_id, cached(report, None)))
            };
            if c.visible_volume_id == Some(report.volume_id) {
                saying(
                    showing(after, report.volume_id),
                    if stopped {
                        "Defragmentation stopped safely"@
                    } else {
                        "Defragmentation complete"@
                    },
                )
            } else {
                after
            }
        },
        UpdateView::Cancelled => given_up(c, "Analysis cancelled"@),
        UpdateView::Failed(message) => given_up(c, "Analysis failed: "@ + message),
    }
}

/// What is said while a job has not told anything yet.
pub open spec fn starting_text(in_process: bool) -> Seq<char> {
    if in_process {
        "Reading the filesystem allocation map…"@
    } else {
        "Waiting for authorization…"@
    }
}

/// A controller that begins an analysis.
pub open spec fn analyzing(c: ControllerView, id: VolumeId, in_process: bool) -> ControllerView {
    showing(
        ControllerView {
            active: ActiveView {
                volume_id: Some(id),
                map_bins: Seq::empty(),
                files_scanned: 0,
                bytes_scanned: 0,
                status: starting_text(in_process),
            },
            working: true,
            busy: true,
            paused: false,
            analyzing_volume_id: text::decimal(id.0 as nat),
            ..c
        },
        id,
    )
}

/// The volume that a request names, where it names one.
pub open spec fn named_volume(request: Seq<char>) -> Option<VolumeId> {
    match text::parse_number(request, u64::MAX as nat) {
        Some(number) => Some(VolumeId(number as u64)),
        None => None,
    }
}

/// What a request to analyze a volume leads to: a controller, and the volume
/// whose analysis is to be begun.
pub open spec fn analyze_request(c: ControllerView, request: Seq<char>, in_process: bool) -> (
    ControllerView,
    Option<VolumeId>,
) {
    if c.busy {
        (c, None)
    } else {
        match named_volume(request) {
            None => (saying(c, "Select a valid volume first"@), None),
            Some(id) => if !c.connected {
                (saying(c, "Refresh volumes to initialize the analysis service"@), None)
            } else {
                (analyzing(c, id, in_process), Some(id))
            },
        }
    }
}

/// What a request to execute the plan leads to. The plan is used up by it.
pub open spec fn defrag_request(c: ControllerView) -> (ControllerView, Option<(PlanId, VolumeId)>) {
    let used = ControllerView { display: DisplayView { plan_id: None, ..c.display }, ..c };
    if c.busy {
        (c, None)
    } else {
        match (c.display.plan_id, c.visible_volume_id) {
            (None, _) => (saying(used, "Build a defragmentation plan first"@), None),
            (Some(plan), visible) => if !c.connected {
                (saying(used, "The helper is unavailable"@), None)
            } else {
                match visible {
                    None => (used, None),
                    Some(id) => (
                        saying(
                            ControllerView {
                                active: ActiveView {
                                    volume_id: Some(id),
                                    map_bins: c.display.map_bins,
                                    ..c.active
                                },
                                working: true,
                                busy: true,
                                paused: false,
                                analyzing_volume_id: text::decimal(id.0 as nat),
                                ..used
                            },
                            "Starting defragmentation…"@,
                        ),
                        Some((plan, id)),
                    ),
                }
            },
        }
    }
}

/// A controller that has told its job something.
pub open spec fn told(c: ControllerView, paused: bool, status: Seq<char>) -> ControllerView {
    let after = ControllerView { active: ActiveView { status, ..c.active }, paused, ..c };
    if job_is_visible(c) {
        saying(after, status)
    } else {
        after
    }
}

/// The number of a new plan, which is never zero: zero is no plan.
pub open spec fn next_plan_revision(revision: i32) -> i32 {
    if following(revision) < 1 {
        1
    } else {
        following(revision)
    }
}

impl Default for ControllerRust {
    /// A window that has not asked the service anything.
    fn default() -> (controller: Self)
        ensures
            controller@ == (ControllerView {
                display: blank(0),
                active: ActiveView {
                    volume_id: None,
                    map_bins: Seq::empty(),
                    files_scanned: 0,
                    bytes_scanned: 0,
                    status: Seq::empty(),
                },
                analyses: Map::empty(),
                volumes: Seq::empty(),
                volume_count: 0,
                visible_volume_id: None,
                analyzing_volume_id: Seq::empty(),
                analysis_revision: 0,
                display_map_data: Seq::empty(),
                display_map_generation: 0,
                activity_data: Seq::empty(),
                activity_revision: 0,
                busy: false,
                paused: false,
                connected: false,
                working: false,
            }),
    {
        let controller = ControllerRust {
            display: blank_display(0),
            active: ActiveJob {
                volume_id: None,
                map_bins: Vec::new(),
                files_scanned: 0,
                bytes_scanned: 0,
                status: String::new(),
            },
            analyses: HashMap::new(),
            volumes: Vec::new(),
            volume_count: 0,
            visible_volume_id: None,
            analyzing_volume_id: String::new(),
            analysis_revision: 0,
            display_map_data: Vec::new(),
            display_map_generation: 0,
            activity_data: Vec::new(),
            activity_revision: 0,
            busy: false,
            paused: false,
            connected: false,
            working: false,
        };
        assert(controller@.analyses =~= Map::empty());
        assert(controller@.volumes =~= Seq::empty());
        assert(controller@.active.status =~= Seq::empty());
        assert(controller@.analyzing_volume_id =~= Seq::empty());
        controller
    }
}

fn decimal_text(value: u64) -> (result: String)
    ensures
        result@ == text::decimal(value as nat),
{
    let mut result: String = String::new();
    text::push_decimal(&mut result, value);
    assert(result@ =~= text::decimal(value as nat));
    result
}

/// What is said while a job has not told anything yet.
pub fn starting_status(in_process: bool) -> (status: &'static str)
    ensures
        status@ == starting_text(in_process),
{
    if in_process {
        "Reading the filesystem allocation map…"
    } else {
        "Waiting for authorization…"
    }
}

impl ControllerRust {
    fn say(&mut self, status: String)
        ensures
            final(self)@ == saying(old(self)@, status@),
    {
        self.display.status = status;
    }

    /// Takes in that no service could be reached.
    pub fn connection_failed(&mut self, message: &str)
        ensures
            final(self)@ == saying(old(self)@, "Could not initialize analysis: "@ + message@),
    {
        let mut status: String = "Could not initialize analysis: ".to_owned();
        text::push_text(&mut status, message);
        self.say(status);
    }

    /// Takes in that the volumes could not be listed.
    pub fn listing_failed(&mut self, message: &str)
        ensures
            final(self)@ == saying(old(self)@, "Could not list volumes: "@ + message@),
    {
        let mut status: String = "Could not list volumes: ".to_owned();
        text::push_text(&mut status, message);
        self.say(status);
    }

    /// Takes in the list of volumes.
    pub fn refresh(&mut self, volumes: Vec<Volume>)
        ensures
            final(self)@ == saying(
                ControllerView {
                    volumes: views::of(volumes@),
                    volume_count: shown_count(volumes@.len() as int),
                    connected: true,
                    ..old(self)@
                },
                Seq::empty(),
            ),
    {
        self.volume_count = count_i32(volumes.len());
        self.volumes = volumes;
        self.connected = true;
        let nothing: String = String::new();
        assert(nothing@ =~= Seq::empty());
        self.say(nothing);
    }

    /// Whether the window shows the volume of the running job.
    fn active_is_visible(&self) -> (yes: bool)
        ensures
            yes == job_is_visible(self@),
    {
        self.active.volume_id.is_some() && self.active.volume_id == self.visible_volume_id
    }

    fn clear_display(&mut self)
        ensures
            final(self)@ == cleared(old(self)@),
    {
        self.display = blank_display(next_revision(self.display.map_revision));
    }

    /// Shows a volume.
    pub fn display_volume(&mut self, id: VolumeId)
        ensures
            final(self)@ == showing(old(self)@, id),
    {
        let revision: i32 = next_revision(self.display.map_revision);
        self.visible_volume_id = Some(id);
        let active: bool = match self.active.volume_id {
            Some(running) => running == id,
            None => false,
        };
        if active {
            self.display = job_display(revision, id, &self.active);
            return;
        }
        match self.analyses.get(&id.0) {
            Some(kept) => {
                self.display = report_display(revision, id, kept);
            },
            None => {
                self.display = blank_display(revision);
            },
        }
    }

    /// Shows the volume that a request names, or nothing where it names
    /// none.
    pub fn select_volume(&mut self, request: &str)
        ensures
            final(self)@ == match named_volume(request@) {
                Some(id) => showing(old(self)@, id),
                None => ControllerView { visible_volume_id: None, ..cleared(old(self)@) },
            },
    {
        match text::parse_u64(request) {
            Some(number) => {
                self.display_volume(VolumeId(number));
            },
            None => {
                self.clear_display();
                self.visible_volume_id = None;
            },
        }
    }

    /// Takes in a request to analyze a volume, and says which volume's
    /// analysis is to be begun.
    pub fn analyze(&mut self, request: &str, in_process: bool) -> (begin: Option<VolumeId>)
        ensures
            (final(self)@, begin) == analyze_request(old(self)@, request@, in_process),
    {
        if self.busy {
            return None;
        }
        let id: VolumeId = match text::parse_u64(request) {
            None => {
                self.say("Select a valid volume first".to_owned());
                return None;
            },
            Some(number) => VolumeId(number),
        };
        if !self.connected {
            self.say("Refresh volumes to initialize the analysis service".to_owned());
            return None;
        }
        self.active = ActiveJob {
            volume_id: Some(id),
            map_bins: Vec::new(),
            files_scanned: 0,
            bytes_scanned: 0,
            status: starting_status(in_process).to_owned(),
        };
        assert(self.active.map_bins@ =~= Seq::empty());
        self.working = true;
        self.analyzing_volume_id = decimal_text(id.0);
        self.paused = false;
        self.busy = true;
        self.display_volume(id);
        Some(id)
    }

    fn tell(&mut self, paused: bool, status: &str)
        ensures
            final(self)@ == told(old(self)@, paused, status@),
    {
        self.active.status = status.to_owned();
        self.paused = paused;
        if self.active_is_visible() {
            self.say(status.to_owned());
        }
    }

    /// Holds the running job up, where there is one.
    pub fn pause(&mut self) -> (command: Option<WorkerCommand>)
        ensures
            old(self)@.working ==> command == Some(WorkerCommand::Pause) && final(self)@ == told(
                old(self)@,
                true,
                "Analysis paused"@,
            ),
            !old(self)@.working ==> command is None && final(self)@ == old(self)@,
    {
        if !self.working {
            return None;
        }
        self.tell(true, "Analysis paused");
        Some(WorkerCommand::Pause)
    }

    /// Lets the running job go on, where there is one.
    pub fn resume(&mut self) -> (command: Option<WorkerCommand>)
        ensures
            old(self)@.working ==> command == Some(WorkerCommand::Resume) && final(self)@ == told(
                old(self)@,
                false,
                "Analysis resumed"@,
            ),
            !old(self)@.working ==> command is None && final(self)@ == old(self)@,
    {
        if !self.working {
            return None;
        }
        self.tell(false, "Analysis resumed");
        Some(WorkerCommand::Resume)
    }

    /// Ends the running job, where there is one.
    pub fn stop(&mut self) -> (command: Option<WorkerCommand>)
        ensures
            old(self)@.working ==> command == Some(WorkerCommand::Cancel) && final(self)@ == told(
                old(self)@,
                old(self)@.paused,
                "Stopping analysis…"@,
            ),
            !old(self)@.working ==> command is None && final(self)@ == old(self)@,
    {
        if !self.working {
            return None;
        }
        self.tell(self.paused, "Stopping analysis…");
        Some(WorkerCommand::Cancel)
    }

    /// Takes in a request to plan, and says what is to be asked of the
    /// service: every fragmented file is taken.
    pub fn build_plan(&mut self) -> (ask: Option<(AnalysisId, DefragPolicy)>)
        ensures
            match old(self)@.display.analysis_id {
                None => ask is None && final(self)@ == saying(
                    old(self)@,
                    "Analyze the selected volume first"@,
                ),
                Some(id) => if old(self)@.connected {
                    ask == Some(
                        (
                            id,
                            DefragPolicy {
                                mode: OptimizationMode::Defragment,
                                minimum_excess_runs: 1,
                                minimum_file_bytes: 0,
                            },
                        ),
                    ) && final(self)@ == old(self)@
                } else {
                    ask is None && final(self)@ == saying(
                        old(self)@,
                        "The analysis session is unavailable"@,
                    )
                },
            },
    {
        let id: AnalysisId = match self.display.analysis_id {
            None => {
                self.say("Analyze the selected volume first".to_owned());
                return None;
            },
            Some(id) => id,
        };
        if !self.connected {
            self.say("The analysis session is unavailable".to_owned());
            return None;
        }
        Some(
            (
                id,
                DefragPolicy {
                    mode: OptimizationMode::Defragment,
                    minimum_excess_runs: 1,
                    minimum_file_bytes: 0,
                },
            ),
        )
    }

    /// Takes in a plan.
    pub fn plan_ready(&mut self, plan_id: PlanId, summary: PlanSummary)
        ensures
            final(self)@ == (ControllerView {
                display: DisplayView {
                    plan_candidates: summary@.candidates,
                    plan_id: Some(plan_id),
                    plan_candidate_count: shown_count(summary@.candidates.len() as int),
                    plan_estimated_rewrite_bytes: summary@.estimated_rewrite_bytes,
                    plan_revision: next_plan_revision(old(self)@.display.plan_revision),
                    status: "Defragmentation plan ready"@,
                    ..old(self)@.display
                },
                ..old(self)@
            }),
    {
        self.display.plan_candidate_count = count_i32(summary.candidates.len());
        self.display.plan_estimated_rewrite_bytes = summary.estimated_rewrite_bytes;
        self.display.plan_candidates = summary.candidates;
        self.display.plan_id = Some(plan_id);
        let revision: i32 = next_revision(self.display.plan_revision);
        self.display.plan_revision = if revision < 1 {
            1
        } else {
            revision
        };
        self.say("Defragmentation plan ready".to_owned());
    }

    /// Takes in that no plan could be made.
    pub fn plan_failed(&mut self, message: &str)
        ensures
            final(self)@ == saying(old(self)@, "Could not build plan: "@ + message@),
    {
        let mut status: String = "Could not build plan: ".to_owned();
        text::push_text(&mut status, message);
        self.say(status);
    }

    /// Takes in a request to execute the plan, and says which plan is to be
    /// executed.
    pub fn start_defrag(&mut self) -> (begin: Option<(PlanId, VolumeId)>)
        ensures
            (final(self)@, begin) == defrag_request(old(self)@),
    {
        if self.busy {
            return None;
        }
        let taken: Option<PlanId> = self.display.plan_id;
        self.display.plan_id = None;
        let plan_id: PlanId = match taken {
            None => {
                self.say("Build a defragmentation plan first".to_owned());
                return None;
            },
            Some(plan_id) => plan_id,
        };
        if !self.connected {
            self.say("The helper is unavailable".to_owned());
            return None;
        }
        let id: VolumeId = match self.visible_volume_id {
            None => {
                return None;
            },
            Some(id) => id,
        };
        self.working = true;
        self.active.volume_id = Some(id);
        self.active.map_bins = views::copy_list(&self.display.map_bins);
        self.busy = true;
        self.paused = false;
        self.analyzing_volume_id = decimal_text(id.0);
        self.say("Starting defragmentation…".to_owned());
        Some((plan_id, id))
    }

    /// Ends the running job.
    fn become_idle(&mut self)
        ensures
            final(self)@ == idle(old(self)@),
    {
        self.working = false;
        self.active.volume_id = None;
        self.active.map_bins = Vec::new();
        self.active.status = String::new();
        self.busy = false;
        self.paused = false;
        self.analyzing_volume_id = String::new();
        assert(self.active.map_bins@ =~= Seq::empty());
        assert(self.active.status@ =~= Seq::empty());
        assert(self.analyzing_volume_id@ =~= Seq::empty());
    }

    fn keep(&mut self, id: VolumeId, kept: CachedAnalysis)
        ensures
            final(self)@ == keeping(old(self)@, id, kept@),
    {
        let ghost before = self.analyses@;
        let ghost added = kept@;
        self.analyses.insert(id.0, kept);
        assert(kept_views(self.analyses@) =~= kept_views(before).insert(id.0, added));
        self.analysis_revision = next_revision(self.analysis_revision);
    }

    fn forget_activity(&mut self)
        ensures
            final(self)@ == (ControllerView { activity_data: Seq::empty(), ..old(self)@ }),
    {
        self.activity_data = Vec::new();
        assert(self.activity_data@ =~= Seq::empty());
    }

    fn give_up(&mut self, status: String)
        ensures
            final(self)@ == given_up(old(self)@, status@),
    {
        let visible: bool = self.active_is_visible();
        let running: Option<VolumeId> = self.active.volume_id;
        self.become_idle();
        self.forget_activity();
        if visible {
            if let Some(id) = running {
                self.display_volume(id);
                self.say(status);
            }
        }
    }

    /// Takes in what the running job told.
    pub fn apply_update(&mut self, update: UiUpdate)
        ensures
            final(self)@ == updated(old(self)@, update@),
    {
        match update {
            UiUpdate::MapChanged { full, bins } => {
                map_view::merge_map_bins(&mut self.active.map_bins, full, bins);
                if self.active_is_visible() {
                    self.display.map_bins = views::copy_list(&self.active.map_bins);
                    self.display.map_revision = next_revision(self.display.map_revision);
                }
            },
            UiUpdate::Progress { files, bytes, detail } => {
                self.active.files_scanned = files;
                self.active.bytes_scanned = bytes;
                self.active.status = detail.clone();
                if self.active_is_visible() {
                    self.display.files_scanned = files;
                    self.display.bytes_scanned = bytes;
                    self.display.status = detail;
                }
            },
            UiUpdate::Finished { analysis_id, report } => {
                let (id, kept) = cache_report(report, Some(analysis_id));
                self.keep(id, kept);
                self.become_idle();
                if self.visible_volume_id == Some(id) {
                    self.display_volume(id);
                }
            },
            UiUpdate::Activity { reading, writing } => {
                self.activity_data = map_view::encode_activity(&reading, &writing);
                self.activity_revision = next_revision(self.activity_revision);
            },
            UiUpdate::DefragFinished { report, stopped } => {
                let (id, kept) = cache_report(report, None);
                self.keep(id, kept);
                self.become_idle();
                self.forget_activity();
                if self.visible_volume_id == Some(id) {
                    self.display_volume(id);
                    if stopped {
                        self.say("Defragmentation stopped safely".to_owned());
                    } else {
                        self.say("Defragmentation complete".to_owned());
                    }
                }
            },
            UiUpdate::Cancelled => {
                self.give_up("Analysis cancelled".to_owned());
            },
            UiUpdate::Failed(message) => {
                let mut status: String = "Analysis failed: ".to_owned();
                text::push_text(&mut status, message.as_str());
                self.give_up(status);
            },
        }
    }

    /// The bytes of the map, drawn for a size of the window. The map of a
    /// volume that is not analyzed shows its capacity only.
    pub fn render_map(&self, width: u32, height: u32, capacity_bytes: u64, use_analysis: bool) -> (data:
        Vec<u8>)
        ensures
            is_rendered(self@, width, height, capacity_bytes, use_analysis, data@),
    {
        let none: Vec<MapBin> = Vec::new();
        let no_ranges: Vec<MapFileRange> = Vec::new();
        assert(none@ =~= Seq::empty());
        assert(no_ranges@ =~= Seq::empty());
        let bins: Vec<MapBin> = if use_analysis {
            map_view::aggregate_map(&self.display.map_bins, capacity_bytes, width, height)
        } else {
            map_view::aggregate_map(&none, capacity_bytes, width, height)
        };
        let contributors: Vec<[MapContributor; 5]> = if use_analysis {
            contributors::file_contributors(&bins, &self.display.map_file_ranges)
        } else {
            contributors::file_contributors(&bins, &no_ranges)
        };
        let data: Vec<u8> = map_view::encode_map(&bins, &contributors);
        proof {
            let ghost goal = map_view::aggregated(
                shown_bins(self@, use_analysis),
                capacity_bytes,
                width,
                height,
            );
            assert(bins@ == goal);
            assert(shows_files(goal, contributors@, shown_ranges(self@, use_analysis)));
        }
        data
    }

    /// Takes in a drawn map.
    pub fn map_rendered(&mut self, data: Vec<u8>, generation: i32)
        ensures
            final(self)@ == (ControllerView {
                display_map_data: data@,
                display_map_generation: generation,
                ..old(self)@
            }),
    {
        self.display_map_data = data;
        self.display_map_generation = generation;
    }
}

/// The bins that a map is drawn from.
pub open spec fn shown_bins(c: ControllerView, use_analysis: bool) -> Seq<MapBin> {
    if use_analysis {
        c.display.map_bins
    } else {
        Seq::empty()
    }
}

/// The places of files that a drawn map may show.
pub open spec fn shown_ranges(c: ControllerView, use_analysis: bool) -> Seq<MapFileRange> {
    if use_analysis {
        c.display.map_file_ranges
    } else {
        Seq::empty()
    }
}

/// Whether each tile names the files that fill most of it.
pub open spec fn shows_files(
    bins: Seq<MapBin>,
    list: Seq<[MapContributor; 5]>,
    ranges: Seq<MapFileRange>,
) -> bool {
    &&& list.len() == bins.len()
    &&& forall|b: int|
        0 <= b < bins.len() ==> contributors::shows_ranking(
            (#[trigger] list[b])@,
            bins,
            b,
            ranges,
        )
}

/// Whether bytes are the map of the shown volume, drawn for a size of the
/// window.
pub open spec fn is_rendered(
    c: ControllerView,
    width: u32,
    height: u32,
    capacity: u64,
    use_analysis: bool,
    data: Seq<u8>,
) -> bool {
    let bins = map_view::aggregated(shown_bins(c, use_analysis), capacity, width, height);
    let ranges = shown_ranges(c, use_analysis);
    exists|list: Seq<[MapContributor; 5]>| #[trigger]
        shows_files(bins, list, ranges) && data == map_view::map_bytes(bins, list)
}

// ---------------------------------------------------------------------
// Rows
// ---------------------------------------------------------------------

/// The place in a list of a row that the window asks for.
pub open spec fn row_of(index: i32, len: nat) -> Option<int> {
    if 0 <= index < len {
        Some(index as int)
    } else {
        None
    }
}

fn row_index(index: i32, len: usize) -> (row: Option<usize>)
    ensures
        match row {
            Some(row) => row_of(index, len as nat) == Some(row as int),
            None => row_of(index, len as nat) is None,
        },
{
    if index >= 0 && (index as usize) < len {
        Some(index as usize)
    } else {
        None
    }
}

fn no_text() -> (nothing: String)
    ensures
        nothing@ == Seq::<char>::empty(),
{
    let nothing: String = String::new();
    assert(nothing@ =~= Seq::empty());
    nothing
}

impl ControllerRust {
    /// The volume at a row.
    pub fn volume_row(&self, index: i32) -> (volume: Option<&Volume>)
        ensures
            match row_of(index, self@.volumes.len()) {
                Some(row) => volume matches Some(v) && v@ == self@.volumes[row],
                None => volume is None,
            },
    {
        match row_index(index, self.volumes.len()) {
            Some(row) => Some(&self.volumes[row]),
            None => None,
        }
    }

    /// The fragmented file at a row.
    pub fn file_row(&self, index: i32) -> (file: Option<&FileReport>)
        ensures
            match row_of(index, self@.display.file_rows.len()) {
                Some(row) => file matches Some(f) && f@ == self@.display.file_rows[row],
                None => file is None,
            },
    {
        match row_index(index, self.display.file_rows.len()) {
            Some(row) => Some(&self.display.file_rows[row]),
            None => None,
        }
    }

    /// The file of the map with a number.
    pub fn map_file(&self, index: i32) -> (file: Option<&FileReport>)
        ensures
            match row_of(index, self@.display.map_files.len()) {
                Some(row) => file matches Some(f) && f@ == self@.display.map_files[row],
                None => file is None,
            },
    {
        match row_index(index, self.display.map_files.len()) {
            Some(row) => Some(&self.display.map_files[row]),
            None => None,
        }
    }

    /// The candidate at a row.
    pub fn plan_candidate(&self, index: i32) -> (candidate: Option<&PlanCandidate>)
        ensures
            match row_of(index, self@.display.plan_candidates.len()) {
                Some(row) => candidate matches Some(c) && c@ == self@.display.plan_candidates[row],
                None => candidate is None,
            },
    {
        match row_index(index, self.display.plan_candidates.len()) {
            Some(row) => Some(&self.display.plan_candidates[row]),
            None => None,
        }
    }

    /// The identity of the volume at a row, as text.
    pub fn volume_id(&self, index: i32) -> (id: String)
        ensures
            id@ == match row_of(index, self@.volumes.len()) {
                Some(row) => text::decimal(self@.volumes[row].id.0 as nat),
                None => Seq::empty(),
            },
    {
        match self.volume_row(index) {
            Some(volume) => decimal_text(volume.id.0),
            None => no_text(),
        }
    }

    /// Where the volume at a row is mounted, as text.
    pub fn volume_mount_point(&self, index: i32) -> (directory: String)
        ensures
            directory@ == match row_of(index, self@.volumes.len()) {
                Some(row) => match self@.volumes[row].mount_point {
                    Some(directory) => path::lossy_text(directory),
                    None => "Unmounted"@,
                },
                None => Seq::empty(),
            },
    {
        match self.volume_row(index) {
            Some(volume) => match &volume.mount_point {
                Some(directory) => directory.display(),
                None => "Unmounted".to_owned(),
            },
            None => no_text(),
        }
    }

    /// The device of the volume at a row.
    pub fn volume_source(&self, index: i32) -> (source: String)
        ensures
            source@ == match row_of(index, self@.volumes.len()) {
                Some(row) => self@.volumes[row].source,
                None => Seq::empty(),
            },
    {
        match self.volume_row(index) {
            Some(volume) => volume.source.clone(),
            None => no_text(),
        }
    }

    /// The filesystem of the volume at a row.
    pub fn volume_filesystem(&self, index: i32) -> (filesystem: String)
        ensures
            filesystem@ == match row_of(index, self@.volumes.len()) {
                Some(row) => self@.volumes[row].filesystem,
                None => Seq::empty(),
            },
    {
        match self.volume_row(index) {
            Some(volume) => volume.filesystem.clone(),
            None => no_text(),
        }
    }

    /// The size of the volume at a row.
    pub fn volume_capacity_bytes(&self, index: i32) -> (bytes: u64)
        ensures
            bytes == match row_of(index, self@.volumes.len()) {
                Some(row) => self@.volumes[row].capacity_bytes,
                None => 0,
            },
    {
        match self.volume_row(index) {
            Some(volume) => volume.capacity_bytes,
            None => 0,
        }
    }

    /// What is used of the volume at a row, where it is known.
    pub fn volume_used_bytes(&self, index: i32) -> (bytes: u64)
        ensures
            bytes == match row_of(index, self@.volumes.len()) {
                Some(row) => match self@.volumes[row].used_bytes {
                    Some(used) => used,
                    None => 0,
                },
                None => 0,
            },
    {
        match self.volume_row(index) {
            Some(volume) => match volume.used_bytes {
                Some(used) => used,
                None => 0,
            },
            None => 0,
        }
    }

    /// What is free of the volume at a row, where it is known.
    pub fn volume_free_bytes(&self, index: i32) -> (bytes: u64)
        ensures
            bytes == match row_of(index, self@.volumes.len()) {
                Some(row) => match self@.volumes[row].free_bytes {
                    Some(free) => free,
                    None => 0,
                },
                None => 0,
            },
    {
        match self.volume_row(index) {
            Some(volume) => match volume.free_bytes {
                Some(free) => free,
                None => 0,
            },
            None => 0,
        }
    }

    /// The path of the fragmented file at a row.
    pub fn file_path(&self, index: i32) -> (path: String)
        ensures
            path@ == match row_of(index, self@.display.file_rows.len()) {
                Some(row) => path::lossy_text(self@.display.file_rows[row].path),
                None => Seq::empty(),
            },
    {
        match self.file_row(index) {
            Some(file) => file.path.display(),
            None => no_text(),
        }
    }

    /// The path of the file of the map with a number.
    pub fn map_file_path(&self, index: i32) -> (path: String)
        ensures
            path@ == match row_of(index, self@.display.map_files.len()) {
                Some(row) => path::lossy_text(self@.display.map_files[row].path),
                None => Seq::empty(),
            },
    {
        match self.map_file(index) {
            Some(file) => file.path.display(),
            None => no_text(),
        }
    }

    /// The size of the fragmented file at a row.
    pub fn file_size_bytes(&self, index: i32) -> (bytes: u64)
        ensures
            bytes == match row_of(index, self@.display.file_rows.len()) {
                Some(row) => self@.display.file_rows[row].logical_bytes,
                None => 0,
            },
    {
        match self.file_row(index) {
            Some(file) => file.logical_bytes,
            None => 0,
        }
    }

    /// The mean run of the fragmented file at a row.
    pub fn file_average_fragment_bytes(&self, index: i32) -> (bytes: u64)
        ensures
            bytes == match row_of(index, self@.display.file_rows.len()) {
                Some(row) => self@.display.file_rows[row].average_run_bytes,
                None => 0,
            },
    {
        match self.file_row(index) {
            Some(file) => file.average_run_bytes,
            None => 0,
        }
    }

    /// The path of the candidate at a row.
    pub fn plan_candidate_path(&self, index: i32) -> (path: String)
        ensures
            path@ == match row_of(index, self@.display.plan_candidates.len()) {
                Some(row) => path::lossy_text(self@.display.plan_candidates[row].path),
                None => Seq::empty(),
            },
    {
        match self.plan_candidate(index) {
            Some(candidate) => candidate.path.display(),
            None => no_text(),
        }
    }

    /// Whether something can be done with the volume at a row.
    pub fn volume_supported(&self, index: i32) -> (yes: bool)
        ensures
            yes == match row_of(index, self@.volumes.len()) {
                Some(row) => !(self@.volumes[row].support is Unsupported),
                None => false,
            },
    {
        match self.volume_row(index) {
            Some(volume) => match &volume.support {
                SupportStatus::Unsupported { .. } => false,
                _ => true,
            },
            None => false,
        }
    }

    /// Whether there is a report for the volume at a row.
    pub fn volume_has_report(&self, index: i32) -> (yes: bool)
        ensures
            yes == match row_of(index, self@.volumes.len()) {
                Some(row) => self@.analyses.contains_key(self@.volumes[row].id.0),
                None => false,
            },
    {
        match self.volume_row(index) {
            Some(volume) => self.analyses.contains_key(&volume.id.0),
            None => false,
        }
    }

    /// How fragmented the volume at a row is, where there is a report.
    pub fn volume_fragmented_basis_points(&self, index: i32) -> (points: i32)
        ensures
            points == match row_of(index, self@.volumes.len()) {
                Some(row) => if self@.analyses.contains_key(self@.volumes[row].id.0) {
                    self@.analyses[self@.volumes[row].id.0].fragmented_basis_points
                } else {
                    -1i32
                },
                None => -1i32,
            },
    {
        match self.volume_row(index) {
            Some(volume) => match self.analyses.get(&volume.id.0) {
                Some(kept) => kept.fragmented_basis_points,
                None => -1,
            },
            None => -1,
        }
    }

    /// The runs of the fragmented file at a row.
    pub fn file_fragment_count(&self, index: i32) -> (count: i32)
        ensures
            count == match row_of(index, self@.display.file_rows.len()) {
                Some(row) => shown_count(self@.display.file_rows[row].physical_runs as int),
                None => 0,
            },
    {
        match self.file_row(index) {
            Some(file) => count_i32(file.physical_runs as usize),
            None => 0,
        }
    }

    /// The runs that the candidate at a row has.
    pub fn plan_candidate_current_runs(&self, index: i32) -> (count: i32)
        ensures
            count == match row_of(index, self@.display.plan_candidates.len()) {
                Some(row) => shown_count(self@.display.plan_candidates[row].current_runs as int),
                None => 0,
            },
    {
        match self.plan_candidate(index) {
            Some(candidate) => count_i32(candidate.current_runs as usize),
            None => 0,
        }
    }

    /// The runs that the candidate at a row will have.
    pub fn plan_candidate_target_runs(&self, index: i32) -> (count: i32)
        ensures
            count == match row_of(index, self@.display.plan_candidates.len()) {
                Some(row) => shown_count(self@.display.plan_candidates[row].target_runs as int),
                None => 0,
            },
    {
        match self.plan_candidate(index) {
            Some(candidate) => count_i32(candidate.target_runs as usize),
            None => 0,
        }
    }
}

// ---------------------------------------------------------------------
// What holds of the window
// ---------------------------------------------------------------------

/// The last update of a job leaves the window free for another job, and
/// nothing else does while a job runs.
pub proof fn lemma_last_update_frees_window(c: ControllerView, update: UpdateView)
    ensures
        ends_work(update) ==> !updated(c, update).busy && !updated(c, update).working && updated(
            c,
            update,
        ).active.volume_id is None,
        !ends_work(update) ==> updated(c, update).busy == c.busy && updated(c, update).working
            == c.working && updated(c, update).active.volume_id == c.active.volume_id,
{
}

/// What a job tells of a volume that is not shown changes nothing that is
/// shown of the selected volume, and no other volume is selected by it.
pub proof fn lemma_hidden_job_leaves_display(c: ControllerView, update: UpdateView)
    requires
        !job_is_visible(c),
        update matches UpdateView::Finished { analysis_id, report } ==> c.visible_volume_id != Some(
            report.volume_id,
        ),
        update matches UpdateView::DefragFinished { report, stopped } ==> c.visible_volume_id
            != Some(report.volume_id),
    ensures
        updated(c, update).display == c.display,
        updated(c, update).visible_volume_id == c.visible_volume_id,
{
}

/// While the window is busy, no second job is begun.
pub proof fn lemma_one_job_at_a_time(c: ControllerView, request: Seq<char>, in_process: bool)
    requires
        c.busy,
    ensures
        analyze_request(c, request, in_process) == (c, None::<VolumeId>),
        defrag_request(c) == (c, None::<(PlanId, VolumeId)>),
{
}

/// A plan is executed once: whether or not a job is begun, the plan is used
/// up, and a second request finds none.
pub proof fn lemma_plan_is_used_once(c: ControllerView)
    requires
        !c.busy,
    ensures
        defrag_request(c).0.display.plan_id is None,
        defrag_request(defrag_request(c).0).1 is None,
{
}

/// A report is shown as it was kept whenever its volume is selected again.
pub proof fn lemma_reports_are_kept(
    c: ControllerView,
    analysis_id: AnalysisId,
    report: UiReportView,
    other: VolumeId,
)
    requires
        other != report.volume_id,
    ensures
        ({
            let after = updated(c, UpdateView::Finished { analysis_id, report });
            let again = showing(showing(after, other), report.volume_id);
            again.display == showing_report(
                again.display.map_revision,
                report.volume_id,
                cached(report, Some(analysis_id)),
            )
        }),
{
}

} // verus!
