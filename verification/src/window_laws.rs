//! What holds of every window: that it shows what a job told it and what a
//! report says, and which requests begin a job.

use vstd::prelude::*;

use crate::contributors::MapFileRange;
use crate::controller;
use crate::controller::ControllerView;
use crate::domain::{
    AnalysisId, AnalysisReportView, EventView, FileReportView, JobId, JobProgressView, MapBin,
    PhysicalRange, VolumeId,
};
use crate::map_view;
use crate::text;

verus! {

// ---------------------------------------------------------------------
// Numbers
// ---------------------------------------------------------------------

/// A number that was written is read back.
pub proof fn lemma_written_numbers_are_read(value: nat, limit: nat)
    requires
        value <= limit,
    ensures
        text::parse_number(text::decimal(value), limit) == Some(value),
{
    lemma_digits(value);
    let digits = text::decimal(value);
    assert(text::is_digit(digits[0]));
    assert(digits[0] != '+');
    assert(text::after_plus(digits) == digits);
}

/// A number is written in decimal digits that have its value.
pub proof fn lemma_digits(value: nat)
    ensures
        text::decimal(value).len() > 0,
        forall|i: int|
            0 <= i < text::decimal(value).len() ==> text::is_digit(
                #[trigger] text::decimal(value)[i],
            ),
        text::digits_value(text::decimal(value)) == value,
    decreases value,
{
    reveal_with_fuel(text::digits_value, 2);
    if value < 10 {
        let digits = text::decimal(value);
        assert(digits =~= seq![text::digit(value)]);
        assert(digits.drop_last() =~= Seq::empty());
        assert(digits.last() as nat == 48 + value);
    } else {
        lemma_digits(value / 10);
        let front = text::decimal(value / 10);
        let digits = text::decimal(value);
        assert(digits == front.push(text::digit(value % 10)));
        assert(digits.drop_last() =~= front);
        assert(digits.last() as nat == 48 + value % 10);
    }
}

/// The number of a volume that the window shows names that volume.
pub proof fn lemma_shown_numbers_name_volumes(id: VolumeId)
    ensures
        controller::named_volume(text::decimal(id.0 as nat)) == Some(id),
{
    lemma_written_numbers_are_read(id.0 as nat, u64::MAX as nat);
}

// ---------------------------------------------------------------------
// Reports
// ---------------------------------------------------------------------

/// Whether a row of the window is that of a file.
pub open spec fn is_row_of(row: FileReportView, file: FileReportView) -> bool {
    &&& row.path == file.path
    &&& row.logical_bytes == file.logical_bytes
    &&& row.allocated_bytes == file.allocated_bytes
    &&& row.physical_runs == file.physical_runs
    &&& row.excess_runs == file.excess_runs
    &&& row.average_run_bytes == file.average_run_bytes
}

/// Whether a file has a row.
pub open spec fn has_row(rows: Seq<FileReportView>, file: FileReportView) -> bool {
    exists|k: int| 0 <= k < rows.len() && is_row_of(#[trigger] rows[k], file)
}

/// Whether a row is that of a fragmented file.
pub open spec fn is_of_fragmented(row: FileReportView, files: Seq<FileReportView>) -> bool {
    exists|i: int|
        0 <= i < files.len() && (#[trigger] files[i]).excess_runs > 0 && is_row_of(row, files[i])
}

proof fn lemma_rows(files: Seq<FileReportView>)
    ensures
        ({
            let rows = controller::fragmented_rows(files);
            &&& forall|i: int|
                0 <= i < files.len() && files[i].excess_runs > 0 ==> #[trigger] has_row(
                    rows,
                    files[i],
                )
            &&& forall|k: int|
                0 <= k < rows.len() ==> #[trigger] is_of_fragmented(rows[k], files)
            &&& rows.len() == crate::file_laws::fragmented_count(files)
        }),
    decreases files.len(),
{
    if files.len() > 0 {
        let rest = files.drop_last();
        let before = controller::fragmented_rows(rest);
        let rows = controller::fragmented_rows(files);
        lemma_rows(rest);
        assert forall|i: int|
            0 <= i < files.len() && files[i].excess_runs > 0 implies #[trigger] has_row(
            rows,
            files[i],
        ) by {
            if i < rest.len() {
                assert(rest[i] == files[i]);
                assert(has_row(before, rest[i]));
                let k = choose|k: int|
                    0 <= k < before.len() && is_row_of(#[trigger] before[k], rest[i]);
                assert(rows[k] == before[k]);
            } else {
                assert(is_row_of(rows[rows.len() - 1], files[i]));
            }
        }
        assert forall|k: int| 0 <= k < rows.len() implies #[trigger] is_of_fragmented(
            rows[k],
            files,
        ) by {
            if k < before.len() {
                assert(rows[k] == before[k]);
                assert(is_of_fragmented(before[k], rest));
                let i = choose|i: int|
                    0 <= i < rest.len() && (#[trigger] rest[i]).excess_runs > 0 && is_row_of(
                        before[k],
                        rest[i],
                    );
                assert(files[i] == rest[i]);
            } else {
                assert(files[files.len() - 1] == files.last());
            }
        }
    }
}

/// The window lists the fragmented files of a report and no others, and shows
/// its map, its counts and its shares; a share that is not known shows as
/// minus one.
pub proof fn lemma_reports_are_prepared(report: AnalysisReportView)
    ensures
        ({
            let shown = controller::prepared(report);
            &&& shown.volume_id == report.volume.id
            &&& shown.map_bins == report.map
            &&& shown.map_files == report.files
            &&& shown.files_scanned == report.coverage.files_scanned
            &&& shown.bytes_scanned == report.coverage.scanned_allocated_bytes
            &&& shown.skipped_entries == report.coverage.skipped_entries
            &&& report.fragmentation.fragmented_basis_points is None
                ==> shown.fragmented_basis_points == -1
            &&& report.fragmentation.fragmented_basis_points matches Some(share)
                ==> shown.fragmented_basis_points == share
            &&& report.coverage.estimated_basis_points is None ==> shown.coverage_basis_points == -1
            &&& report.coverage.estimated_basis_points matches Some(share)
                ==> shown.coverage_basis_points == share
            &&& report.coverage.skipped_entries == 0 ==> shown.status.len() == 0
            &&& report.coverage.skipped_entries > 0 && report.warnings.len() > 0 ==> shown.status
                == report.warnings[report.warnings.len() - 1]
            &&& shown.file_rows.len() == crate::file_laws::fragmented_count(report.files)
            &&& forall|i: int|
                0 <= i < report.files.len() && report.files[i].excess_runs > 0
                    ==> #[trigger] has_row(shown.file_rows, report.files[i])
            &&& forall|k: int|
                0 <= k < shown.file_rows.len() ==> #[trigger] is_of_fragmented(
                    shown.file_rows[k],
                    report.files,
                )
        }),
{
    lemma_rows(report.files);
}

/// The places of a file are kept under the number that the file has in the
/// list of files.
pub proof fn lemma_places_keep_their_file(files: Seq<FileReportView>, f: int, r: int)
    requires
        files.len() <= usize::MAX,
        0 <= f < files.len(),
        0 <= r < files[f].physical_ranges.len(),
    ensures
        controller::numbered_ranges(files).contains(
            MapFileRange { file_index: f as usize, physical: files[f].physical_ranges[r] },
        ),
        controller::placeless_files(files).len() == files.len(),
        controller::placeless_files(files)[f].path == files[f].path,
    decreases files.len(),
{
    let rest = files.drop_last();
    let all = controller::numbered_ranges(files);
    let before = controller::numbered_ranges(rest);
    let wanted = MapFileRange { file_index: f as usize, physical: files[f].physical_ranges[r] };
    if f < rest.len() {
        assert(rest[f] == files[f]);
        lemma_places_keep_their_file(rest, f, r);
        let k = choose|k: int| 0 <= k < before.len() && before[k] == wanted;
        assert(all[k] == wanted);
    } else {
        assert(files.last() == files[f]);
        assert(all[before.len() + r] == wanted);
    }
}

/// A finished analysis is kept, and shown where its volume is selected: its
/// map, its rows and its counts; and the window is free for another job.
pub proof fn lemma_finished_analyses_are_shown(
    c: ControllerView,
    job_id: JobId,
    analysis_id: AnalysisId,
    report: AnalysisReportView,
)
    ensures
        ({
            let event = EventView::AnalysisFinished { job_id, analysis_id, report };
            controller::analysis_update_of(event) matches Some(update) && ({
                let after = controller::updated(c, update);
                let kept = after.analyses[report.volume.id.0];
                &&& !after.busy && !after.working && !after.paused
                &&& after.active.volume_id is None
                &&& after.visible_volume_id == c.visible_volume_id
                &&& after.analyses.contains_key(report.volume.id.0)
                &&& kept.analysis_id == Some(analysis_id)
                &&& kept.map_bins == report.map
                &&& c.visible_volume_id == Some(report.volume.id) ==> {
                    &&& after.display.has_report
                    &&& after.display.analysis_id == Some(analysis_id)
                    &&& after.display.map_bins == report.map
                    &&& after.display.files_scanned == report.coverage.files_scanned
                    &&& after.display.bytes_scanned == report.coverage.scanned_allocated_bytes
                    &&& after.display.skipped_entries == report.coverage.skipped_entries
                    &&& after.display.file_rows == controller::prepared(report).file_rows
                    &&& after.display.map_files.len() == report.files.len()
                    &&& after.display.map_file_ranges == controller::numbered_ranges(report.files)
                    &&& after.display.report_volume_id == text::decimal(report.volume.id.0 as nat)
                    &&& after.display.map_revision != c.display.map_revision
                }
                &&& c.visible_volume_id != Some(report.volume.id) ==> after.display == c.display
            })
        }),
{
}

/// A finished or stopped defragmentation leaves its report in place of the
/// one before; a plan has to be built from a new analysis.
pub proof fn lemma_finished_defragmentations_are_shown(
    c: ControllerView,
    job_id: JobId,
    report: AnalysisReportView,
    stopped: bool,
)
    ensures
        ({
            let event = if stopped {
                EventView::DefragStopped { job_id, report }
            } else {
                EventView::DefragFinished { job_id, report }
            };
            controller::defrag_update_of(event) matches Some(update) && ({
                let after = controller::updated(c, update);
                &&& !after.busy && !after.working && !after.paused
                &&& after.activity_data.len() == 0
                &&& after.analyses.contains_key(report.volume.id.0)
                &&& after.analyses[report.volume.id.0].analysis_id is None
                &&& after.analyses[report.volume.id.0].map_bins == report.map
                &&& c.visible_volume_id == Some(report.volume.id) ==> {
                    &&& after.display.has_report
                    &&& after.display.analysis_id is None
                    &&& after.display.map_bins == report.map
                    &&& after.display.file_rows == controller::prepared(report).file_rows
                    &&& after.display.status == (if stopped {
                        "Defragmentation stopped safely"@
                    } else {
                        "Defragmentation complete"@
                    })
                }
            })
        }),
{
}

// ---------------------------------------------------------------------
// Running jobs
// ---------------------------------------------------------------------

/// What a job tells is shown where the window shows its volume, and otherwise
/// remembered: a whole map replaces the one before, changed bins are put in
/// their places, and progress shows its counts.
pub proof fn lemma_told_things_are_shown(
    c: ControllerView,
    job_id: JobId,
    full_snapshot: bool,
    bins: Seq<MapBin>,
    progress: JobProgressView,
)
    ensures
        ({
            let event = EventView::MapUpdated { job_id, full_snapshot, bins };
            &&& controller::analysis_update_of(event) == controller::defrag_update_of(event)
            &&& controller::analysis_update_of(event) matches Some(update) && ({
                let after = controller::updated(c, update);
                let merged = map_view::merged(c.active.map_bins, full_snapshot, bins);
                &&& after.active.map_bins == merged
                &&& full_snapshot ==> merged == bins
                &&& after.busy == c.busy
                &&& after.analyses == c.analyses
                &&& if c.active.volume_id is Some && c.active.volume_id == c.visible_volume_id {
                    after.display.map_bins == merged && after.display.map_revision
                        != c.display.map_revision
                } else {
                    after.display == c.display
                }
            })
        }),
        controller::analysis_update_of(EventView::Progress(progress)) matches Some(update) && ({
            let after = controller::updated(c, update);
            &&& after.active.files_scanned == progress.files_scanned
            &&& after.active.bytes_scanned == progress.bytes_scanned
            &&& after.active.map_bins == c.active.map_bins
            &&& after.busy == c.busy
            &&& if c.active.volume_id is Some && c.active.volume_id == c.visible_volume_id {
                &&& after.display.files_scanned == progress.files_scanned
                &&& after.display.bytes_scanned == progress.bytes_scanned
                &&& after.display.map_bins == c.display.map_bins
            } else {
                after.display == c.display
            }
        }),
{
}

/// A job that was cancelled or failed frees the window and leaves what was
/// kept: where its volume is shown, the report from before is shown again,
/// with what happened.
pub proof fn lemma_broken_off_jobs_leave_reports(
    c: ControllerView,
    job_id: JobId,
    message: Seq<char>,
    id: VolumeId,
)
    requires
        c.active.volume_id == Some(id),
    ensures
        ({
            let events = seq![
                EventView::JobCancelled { job_id },
                EventView::Failed { job_id: Some(job_id), message },
            ];
            forall|i: int|
                0 <= i < 2 ==> {
                    let event = #[trigger] events[i];
                    &&& controller::analysis_update_of(event) == controller::defrag_update_of(event)
                    &&& controller::analysis_update_of(event) matches Some(update) && ({
                        let after = controller::updated(c, update);
                        &&& !after.busy && !after.working && !after.paused
                        &&& after.active.volume_id is None
                        &&& after.analyses == c.analyses
                        &&& after.activity_data.len() == 0
                        &&& c.visible_volume_id == Some(id) ==> {
                            &&& after.display.has_report == c.analyses.contains_key(id.0)
                            &&& c.analyses.contains_key(id.0) ==> after.display.map_bins
                                == c.analyses[id.0].map_bins && after.display.analysis_id
                                == c.analyses[id.0].analysis_id && after.display.file_rows
                                == c.analyses[id.0].file_rows
                            &&& after.display.status == (if i == 0 {
                                "Analysis cancelled"@
                            } else {
                                "Analysis failed: "@ + message
                            })
                        }
                        &&& c.visible_volume_id != Some(id) ==> after.display == c.display
                    })
                }
        }),
{
}

/// A window that is free and connected begins an analysis of the volume that
/// a request names, and shows that volume; any other request begins nothing.
pub proof fn lemma_requests_begin_analyses(
    c: ControllerView,
    request: Seq<char>,
    in_process: bool,
    id: VolumeId,
)
    ensures
        ({
            let (after, begun) = controller::analyze_request(c, request, in_process);
            let number = text::parse_number(request, u64::MAX as nat);
            &&& begun is Some <==> !c.busy && c.connected && number is Some
            &&& begun matches Some(id) ==> {
                &&& number == Some(id.0 as nat)
                &&& after.busy && after.working && !after.paused
                &&& after.active.volume_id == Some(id)
                &&& after.visible_volume_id == Some(id)
                &&& after.active.map_bins.len() == 0
                &&& after.display.map_bins.len() == 0
                &&& after.display.files_scanned == 0
                &&& after.analyses == c.analyses
            }
            &&& begun is None ==> {
                &&& after.busy == c.busy
                &&& after.working == c.working
                &&& after.active == c.active
                &&& after.visible_volume_id == c.visible_volume_id
                &&& after.display.map_bins == c.display.map_bins
            }
            &&& c.busy ==> after == c
        }),
{
}

/// A window that is free and connected executes the plan that it shows, for
/// the volume that it shows, and goes on showing its map; without a plan or a
/// volume nothing begins.
pub proof fn lemma_requests_begin_defragmentations(c: ControllerView)
    ensures
        ({
            let (after, begun) = controller::defrag_request(c);
            &&& begun is Some <==> !c.busy && c.connected && c.display.plan_id is Some
                && c.visible_volume_id is Some
            &&& begun matches Some((plan, id)) ==> {
                &&& c.display.plan_id == Some(plan)
                &&& c.visible_volume_id == Some(id)
                &&& after.busy && after.working && !after.paused
                &&& after.active.volume_id == Some(id)
                &&& after.active.map_bins == c.display.map_bins
                &&& after.display.map_bins == c.display.map_bins
                &&& after.display.plan_id is None
            }
            &&& begun is None ==> after.busy == c.busy && after.active == c.active
            &&& c.busy ==> after == c
        }),
{
}

/// Selecting a volume shows its running job, else the report that was kept of
/// it, else nothing; what another volume showed is gone.
pub proof fn lemma_selected_volumes_are_shown(c: ControllerView, id: VolumeId)
    ensures
        ({
            let after = controller::showing(c, id);
            &&& after.visible_volume_id == Some(id)
            &&& after.active == c.active
            &&& after.analyses == c.analyses
            &&& after.busy == c.busy
            &&& after.display.plan_id is None
            &&& after.display.map_revision != c.display.map_revision
            &&& if c.active.volume_id == Some(id) {
                &&& after.display.map_bins == c.active.map_bins
                &&& after.display.files_scanned == c.active.files_scanned
                &&& after.display.bytes_scanned == c.active.bytes_scanned
                &&& after.display.status == c.active.status
                &&& !after.display.has_report
            } else if c.analyses.contains_key(id.0) {
                &&& after.display.has_report
                &&& after.display.map_bins == c.analyses[id.0].map_bins
                &&& after.display.file_rows == c.analyses[id.0].file_rows
                &&& after.display.map_files == c.analyses[id.0].map_files
                &&& after.display.analysis_id == c.analyses[id.0].analysis_id
                &&& after.display.files_scanned == c.analyses[id.0].files_scanned
                &&& after.display.fragmented_basis_points
                    == c.analyses[id.0].fragmented_basis_points
            } else {
                &&& !after.display.has_report
                &&& after.display.map_bins.len() == 0
                &&& after.display.file_rows.len() == 0
                &&& after.display.analysis_id is None
            }
        }),
{
}

/// The announced input and output of a job is shown range by range, first
/// what is read and then what is written, each with its mark.
pub proof fn lemma_announced_ranges_are_shown(
    c: ControllerView,
    job_id: JobId,
    reading: Seq<PhysicalRange>,
    writing: Seq<PhysicalRange>,
    k: int,
)
    ensures
        controller::defrag_update_of(EventView::DefragPendingIo { job_id, reading, writing })
            matches Some(update) && ({
            let after = controller::updated(c, update);
            &&& after.activity_data.len() == 24 * (reading.len() + writing.len())
            &&& after.activity_revision != c.activity_revision
            &&& after.display == c.display
            &&& 0 <= k < reading.len() ==> holds_range(after.activity_data, 24 * k, reading[k], 1)
            &&& 0 <= k < writing.len() ==> holds_range(
                after.activity_data,
                24 * (reading.len() + k),
                writing[k],
                2,
            )
        }),
{
    let first = map_view::ranges_bytes(reading, 1);
    let second = map_view::ranges_bytes(writing, 2);
    lemma_ranges_len(reading, 1);
    lemma_ranges_len(writing, 2);
    if 0 <= k < reading.len() {
        lemma_range_place(reading, 1, k);
        assert((first + second).subrange(24 * k, 24 * k + 24) =~= first.subrange(
            24 * k,
            24 * k + 24,
        ));
    }
    if 0 <= k < writing.len() {
        lemma_range_place(writing, 2, k);
        let at = 24 * (reading.len() + k);
        assert((first + second).subrange(at, at + 24) =~= second.subrange(24 * k, 24 * k + 24));
    }
}

/// Whether the record of a range stands at a place: where it begins, its
/// length, and its mark.
pub open spec fn holds_range(bytes: Seq<u8>, at: int, range: PhysicalRange, mark: u8) -> bool {
    &&& at + 24 <= bytes.len()
    &&& bytes.subrange(at, at + 24).subrange(0, 8) == crate::arith::le_bytes(
        range.offset_bytes as nat,
        8,
    )
    &&& bytes.subrange(at, at + 24).subrange(8, 16) == crate::arith::le_bytes(
        range.length_bytes as nat,
        8,
    )
    &&& bytes.subrange(at, at + 24)[16] == mark
}

proof fn lemma_ranges_len(ranges: Seq<PhysicalRange>, mark: u8)
    ensures
        map_view::ranges_bytes(ranges, mark).len() == 24 * ranges.len(),
    decreases ranges.len(),
{
    if ranges.len() > 0 {
        lemma_ranges_len(ranges.drop_last(), mark);
        crate::arith::lemma_le_bytes_len(ranges.last().offset_bytes as nat, 8);
        crate::arith::lemma_le_bytes_len(ranges.last().length_bytes as nat, 8);
    }
}

proof fn lemma_range_place(ranges: Seq<PhysicalRange>, mark: u8, k: int)
    requires
        0 <= k < ranges.len(),
    ensures
        holds_range(map_view::ranges_bytes(ranges, mark), 24 * k, ranges[k], mark),
    decreases ranges.len(),
{
    let rest = ranges.drop_last();
    let all = map_view::ranges_bytes(ranges, mark);
    let before = map_view::ranges_bytes(rest, mark);
    let last = ranges.last();
    lemma_ranges_len(ranges, mark);
    lemma_ranges_len(rest, mark);
    crate::arith::lemma_le_bytes_len(last.offset_bytes as nat, 8);
    crate::arith::lemma_le_bytes_len(last.length_bytes as nat, 8);
    if k < rest.len() {
        assert(rest[k] == ranges[k]);
        lemma_range_place(rest, mark, k);
        assert(all.subrange(24 * k, 24 * k + 24) =~= before.subrange(24 * k, 24 * k + 24));
    } else {
        let record = all.subrange(24 * k, 24 * k + 24);
        assert(record.subrange(0, 8) =~= crate::arith::le_bytes(last.offset_bytes as nat, 8));
        assert(record.subrange(8, 16) =~= crate::arith::le_bytes(last.length_bytes as nat, 8));
    }
}

} // verus!
