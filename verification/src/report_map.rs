//! The drive map of a report: drawn anew from the allocation map, the files
//! of the report, and the targets of running moves.

use vstd::prelude::*;

use crate::block_map;
use crate::block_map::BinAccumulator;
use crate::domain::{
    AnalysisReport, AnalysisReportView, FileReport, FileReportView, MapBin, MountState,
    PhysicalRange, Volume, VolumeView,
};
use crate::error::{ErrorView, IoctlErrorView, ServiceError};
use crate::linux::{FsMapRange, IoctlError};
use crate::path;
use crate::path::FsPath;
use crate::scan;
use crate::scan::{MapView, ScannedRange};
use crate::views;

verus! {

/// The error number of a kernel that finds its own metadata inconsistent.
pub const EBADMSG: i32 = 74;

pub open spec fn inconsistent_text() -> Seq<char> {
    "the kernel rejected the ext4 allocation map because filesystem metadata is inconsistent; keep the volume unmounted and run e2fsck"@
}

/// Whether the kernel finds the metadata of a filesystem inconsistent.
pub open spec fn is_inconsistent(error: IoctlErrorView) -> bool {
    match error {
        IoctlErrorView::Io { operation, source } => source.code == Some(EBADMSG),
        _ => false,
    }
}

/// What a failed read of the allocation map means while files are moved:
/// inconsistent metadata is no mere want of a picture.
pub open spec fn map_failure(error: IoctlErrorView) -> ErrorView {
    if is_inconsistent(error) {
        ErrorView::UnsafeFilesystem(inconsistent_text())
    } else {
        ErrorView::Kernel(error)
    }
}

/// Tells whether the kernel finds the metadata of a filesystem inconsistent.
fn inconsistent(error: &IoctlError) -> (yes: bool)
    ensures
        yes == is_inconsistent(error@),
{
    match error {
        IoctlError::Io { operation: _, source } => match source.code {
            Some(code) => code == EBADMSG,
            None => false,
        },
        _ => false,
    }
}

/// Reports a failed read of the allocation map.
pub fn map_error(error: IoctlError) -> (failure: ServiceError)
    ensures
        failure@ == map_failure(error@),
{
    if inconsistent(&error) {
        ServiceError::UnsafeFilesystem(
            "the kernel rejected the ext4 allocation map because filesystem metadata is inconsistent; keep the volume unmounted and run e2fsck".to_owned(),
        )
    } else {
        ServiceError::Kernel(error)
    }
}

/// The ranges of all files, each marked by whether its file is fragmented.
pub open spec fn file_ranges(files: Seq<FileReportView>) -> Seq<ScannedRange>
    decreases files.len(),
{
    if files.len() == 0 {
        Seq::empty()
    } else {
        file_ranges(files.drop_last()) + scan::marked_ranges(
            files.last().physical_ranges,
            files.last().excess_runs > 0,
        )
    }
}

/// A map when a range became the target of a running move.
pub open spec fn staged(map: MapView, range: PhysicalRange) -> MapView {
    let op = block_map::MapOp::Stage;
    MapView {
        frame: map.frame,
        bins: block_map::op_bins(map.frame, map.bins, op, range.offset_bytes, range.length_bytes),
        marks: block_map::op_changed(
            map.frame,
            map.bins,
            map.marks,
            op,
            range.offset_bytes,
            range.length_bytes,
        ),
    }
}

/// A map when ranges became the targets of running moves, one after the
/// other.
pub open spec fn staged_all(map: MapView, ranges: Seq<PhysicalRange>) -> MapView
    decreases ranges.len(),
{
    if ranges.len() == 0 {
        map
    } else {
        staged(staged_all(map, ranges.drop_last()), ranges.last())
    }
}

/// The drive map of a report.
pub open spec fn drawn(
    report: AnalysisReportView,
    ranges: Seq<FsMapRange>,
    staging: Seq<PhysicalRange>,
) -> Seq<MapBin> {
    let fresh = scan::fresh_map(ranges, report.volume.capacity_bytes);
    let map = staged_all(scan::scanned_all(fresh, file_ranges(report.files)), staging);
    block_map::map_bins(map.frame, map.bins)
}

/// A report with its drive map drawn anew.
pub open spec fn redrawn(
    report: AnalysisReportView,
    ranges: Seq<FsMapRange>,
    staging: Seq<PhysicalRange>,
) -> AnalysisReportView {
    AnalysisReportView { map: drawn(report, ranges, staging), ..report }
}

fn push_ranges(list: &mut Vec<ScannedRange>, file: &FileReport)
    ensures
        final(list)@ == old(list)@ + scan::marked_ranges(
            file.physical_ranges@,
            file.excess_runs > 0,
        ),
{
    let fragmented: bool = file.excess_runs > 0;
    let ghost start = list@;
    let ghost added = scan::marked_ranges(file.physical_ranges@, fragmented);
    let mut i: usize = 0;
    assert(start + added.take(0) =~= start);
    while i < file.physical_ranges.len()
        invariant
            i <= file.physical_ranges@.len(),
            added == scan::marked_ranges(file.physical_ranges@, fragmented),
            list@ == start + added.take(i as int),
        decreases file.physical_ranges@.len() - i,
    {
        list.push(ScannedRange { range: file.physical_ranges[i], fragmented });
        i = i + 1;
        assert(list@ =~= start + added.take(i as int));
    }
    assert(added.take(i as int) =~= added);
}

fn collect_ranges(files: &Vec<FileReport>) -> (list: Vec<ScannedRange>)
    ensures
        list@ == file_ranges(views::of(files@)),
{
    let ghost all = views::of(files@);
    let mut list: Vec<ScannedRange> = Vec::new();
    let mut i: usize = 0;
    while i < files.len()
        invariant
            i <= files@.len(),
            all == views::of(files@),
            list@ == file_ranges(all.take(i as int)),
        decreases files@.len() - i,
    {
        assert(all.take(i + 1).drop_last() =~= all.take(i as int));
        push_ranges(&mut list, &files[i]);
        i = i + 1;
    }
    assert(all.take(i as int) =~= all);
    list
}

/// Draws the drive map of a report anew.
pub fn redraw(report: &mut AnalysisReport, ranges: &Vec<FsMapRange>, staging: &Vec<PhysicalRange>)
    ensures
        final(report)@ == redrawn(old(report)@, ranges@, staging@),
{
    let list: Vec<ScannedRange> = collect_ranges(&report.files);
    let mut map: BinAccumulator = scan::new_map(ranges, report.volume.capacity_bytes);
    let ghost fresh = scan::fresh_map(ranges@, report.volume.capacity_bytes);
    let mut i: usize = 0;
    while i < list.len()
        invariant
            i <= list@.len(),
            map.wf(),
            scan::map_of(map) == scan::scanned_all(fresh, list@.take(i as int)),
        decreases list@.len() - i,
    {
        let one: ScannedRange = list[i];
        assert(list@.take(i + 1).drop_last() =~= list@.take(i as int));
        map.mark_scanned(one.range.offset_bytes, one.range.length_bytes, one.fragmented);
        i = i + 1;
    }
    assert(list@.take(i as int) =~= list@);
    let ghost scanned = scan::map_of(map);
    let mut j: usize = 0;
    while j < staging.len()
        invariant
            j <= staging@.len(),
            map.wf(),
            scan::map_of(map) == staged_all(scanned, staging@.take(j as int)),
        decreases staging@.len() - j,
    {
        let range: PhysicalRange = staging[j];
        assert(staging@.take(j + 1).drop_last() =~= staging@.take(j as int));
        map.mark_staging(range.offset_bytes, range.length_bytes);
        j = j + 1;
    }
    assert(staging@.take(j as int) =~= staging@);
    report.map = map.finish();
}

// ---------------------------------------------------------------------
// Paths of a report
// ---------------------------------------------------------------------

/// A path below one root as the same path below another; a path elsewhere
/// stays.
pub open spec fn moved_path(path: Seq<u8>, from: Seq<u8>, to: Seq<u8>) -> Seq<u8> {
    if path::is_below(path, from) {
        path::joined(to, path::relative_to(path, from))
    } else {
        path
    }
}

/// Files below one root as the same files below another.
pub open spec fn moved_files(files: Seq<FileReportView>, from: Seq<u8>, to: Seq<u8>) -> Seq<
    FileReportView,
> {
    Seq::new(
        files.len(),
        |i: int| FileReportView { path: moved_path(files[i].path, from, to), ..files[i] },
    )
}

/// Moves the files of a report from below one root to below another.
pub fn move_files(report: &mut AnalysisReport, from: &FsPath, to: &FsPath)
    ensures
        final(report)@ == (AnalysisReportView {
            files: moved_files(old(report)@.files, from@, to@),
            ..old(report)@
        }),
{
    let ghost start = report@;
    let count: usize = report.files.len();
    let mut i: usize = 0;
    while i < count
        invariant
            i <= count,
            count == report.files@.len(),
            count == start.files.len(),
            report@ == (AnalysisReportView { files: report@.files, ..start }),
            forall|k: int|
                0 <= k < i ==> (#[trigger] report.files@[k])@ == moved_files(
                    start.files,
                    from@,
                    to@,
                )[k],
            forall|k: int| i <= k < count ==> (#[trigger] report.files@[k])@ == start.files[k],
        decreases count - i,
    {
        let relative: Option<FsPath> = report.files[i].path.strip_prefix(from);
        if let Some(relative) = relative {
            let mut file: FileReport = report.files[i].clone();
            file.path = to.join(&relative);
            report.files.set(i, file);
        }
        i = i + 1;
    }
    assert(report@.files =~= moved_files(start.files, from@, to@));
}

/// A report as the owner of the volume sees it: where the volume was mounted
/// only for the job, the volume is unmounted again and its files have their
/// paths inside the filesystem.
pub open spec fn settled(
    report: AnalysisReportView,
    volume: VolumeView,
    root: Seq<u8>,
) -> AnalysisReportView {
    if volume.mount_state == MountState::Unmounted {
        AnalysisReportView {
            volume: VolumeView {
                capacity_bytes: report.volume.capacity_bytes,
                used_bytes: report.volume.used_bytes,
                free_bytes: report.volume.free_bytes,
                ..volume
            },
            files: moved_files(report.files, root, seq![path::SLASH]),
            ..report
        }
    } else {
        report
    }
}

/// Turns the report of a job into one for the owner of the volume.
pub fn normalize_finished_report(report: &mut AnalysisReport, volume: &Volume, root: &FsPath)
    ensures
        final(report)@ == settled(old(report)@, volume@, root@),
{
    if volume.mount_state == MountState::Unmounted {
        let mut own: Volume = volume.clone();
        own.capacity_bytes = report.volume.capacity_bytes;
        own.used_bytes = report.volume.used_bytes;
        own.free_bytes = report.volume.free_bytes;
        report.volume = own;
        move_files(report, root, &FsPath::root());
    }
}

} // verus!
