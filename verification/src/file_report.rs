//! What an analysis says of one file, and of all files together.

use vstd::prelude::*;

use crate::arith;
use crate::domain::{
    AnalysisReport, AnalysisReportView, FileReport, FileReportView, FragmentationMetrics,
};
use crate::extents;
use crate::linux::{
    FileExtent, EXT4_EXTENTS_FL, EXT4_INLINE_DATA_FL, FS_APPEND_FL, FS_IMMUTABLE_FL,
};
use crate::path;
use crate::path::FsPath;
use crate::text;
use crate::views;

verus! {

/// What a directory entry is.
#[derive(Clone, Copy, Debug, PartialEq, Eq, Structural)]
pub enum FileKind {
    Regular,
    Directory,
    Symlink,
    Other,
}

/// What the system says of a directory entry.
#[derive(Clone, Copy, Debug, PartialEq, Eq, Structural)]
pub struct FileFacts {
    pub kind: FileKind,
    pub device: u64,
    pub inode: u64,
    pub length: u64,
    pub block_size: u64,
}

/// The number of blocks that one ext4 extent can hold.
pub const EXT4_EXTENT_BLOCKS: u64 = 32_768;

/// The fewest runs that so many bytes of an ext4 file can have: an extent
/// holds a limited number of blocks.
pub open spec fn ext4_minimum_runs(allocated: u64, block_size: u64) -> u32 {
    let extent_bytes = arith::sat64(arith::max_int(block_size as int, 1) * EXT4_EXTENT_BLOCKS);
    if allocated == 0 {
        0
    } else {
        arith::min_int(arith::ceil_div(allocated as int, extent_bytes), u32::MAX as int) as u32
    }
}

/// The fewest runs that so many bytes of a FAT file can have.
pub open spec fn fat_minimum_runs(allocated: u64) -> u32 {
    if allocated > 0 {
        1
    } else {
        0
    }
}

/// The mean length of a run.
pub open spec fn mean_run(bytes: u64, runs: int) -> u64 {
    if runs == 0 {
        0
    } else {
        (bytes as int / runs) as u64
    }
}

/// Why the extents of a file keep it from being moved.
pub open spec fn unmovable_text(flags: u32) -> Seq<char> {
    "unsupported FIEMAP flags 0x"@ + text::hexadecimal(flags as nat)
}

/// Why an ext4 file is left out of plans, where it is. The first reason that
/// applies is given.
pub open spec fn ext4_exclusion(
    flags: Result<u32, Seq<char>>,
    list: Seq<FileExtent>,
    length: u64,
) -> Option<Seq<char>> {
    let bad = extents::unmovable_flags(list);
    match flags {
        Err(message) => Some("could not read ext4 file flags: "@ + message),
        Ok(flags) => if flags & FS_IMMUTABLE_FL != 0 {
            Some("immutable file"@)
        } else if flags & FS_APPEND_FL != 0 {
            Some("append-only file"@)
        } else if flags & EXT4_INLINE_DATA_FL != 0 {
            Some("inline data"@)
        } else if flags & EXT4_EXTENTS_FL == 0 {
            Some("legacy indirect block mapping"@)
        } else if bad != 0 {
            Some(unmovable_text(bad))
        } else if extents::total_bytes(list) == 0 {
            Some("no allocated extents"@)
        } else if !extents::is_dense(list, length) {
            Some("sparse files are not moved by the first writer"@)
        } else {
            None
        },
    }
}

/// Why a FAT file is left out of plans, where it is.
pub open spec fn fat_exclusion(list: Seq<FileExtent>) -> Option<Seq<char>> {
    let bad = extents::unmovable_flags(list);
    if bad != 0 {
        Some(unmovable_text(bad))
    } else if extents::total_bytes(list) == 0 {
        Some("no allocated extents"@)
    } else {
        None
    }
}

/// The report on a file with the given extents.
pub open spec fn file_report(
    path: Seq<u8>,
    length: u64,
    list: Seq<FileExtent>,
    minimum_runs: u32,
    exclusion: Option<Seq<char>>,
) -> FileReportView {
    let allocated = arith::sat64(extents::total_bytes(list) as int) as u64;
    let runs = extents::run_count(list);
    FileReportView {
        path,
        logical_bytes: length,
        allocated_bytes: allocated,
        physical_runs: runs,
        minimum_runs,
        excess_runs: arith::max_int(runs - minimum_runs, 0) as u32,
        average_run_bytes: mean_run(allocated, runs as int),
        eligible_for_plan: exclusion is None,
        exclusion_reason: exclusion,
        physical_ranges: extents::placed_ranges(list),
    }
}

/// The report on an ext4 file.
pub open spec fn ext4_file_report(
    path: Seq<u8>,
    facts: FileFacts,
    flags: Result<u32, Seq<char>>,
    list: Seq<FileExtent>,
) -> FileReportView {
    let allocated = arith::sat64(extents::total_bytes(list) as int) as u64;
    file_report(
        path,
        facts.length,
        list,
        ext4_minimum_runs(allocated, facts.block_size),
        ext4_exclusion(flags, list, facts.length),
    )
}

/// The report on a FAT file.
pub open spec fn fat_file_report(path: Seq<u8>, facts: FileFacts, list: Seq<FileExtent>) -> FileReportView {
    let allocated = arith::sat64(extents::total_bytes(list) as int) as u64;
    file_report(path, facts.length, list, fat_minimum_runs(allocated), fat_exclusion(list))
}

/// The flags of a file as the system gave them, or the text of its error.
pub open spec fn flags_view(flags: Result<u32, String>) -> Result<u32, Seq<char>> {
    match flags {
        Ok(value) => Ok(value),
        Err(message) => Err(message@),
    }
}

fn unmovable_message(flags: u32) -> (message: String)
    ensures
        message@ == unmovable_text(flags),
{
    let mut message: String = "unsupported FIEMAP flags 0x".to_owned();
    text::push_hexadecimal(&mut message, flags as u64);
    message
}

fn ext4_minimum(allocated: u64, block_size: u64) -> (runs: u32)
    ensures
        runs == ext4_minimum_runs(allocated, block_size),
{
    if allocated == 0 {
        return 0;
    }
    let block: u64 = if block_size == 0 {
        1
    } else {
        block_size
    };
    let extent_bytes: u64 = arith::saturating_mul(block, EXT4_EXTENT_BLOCKS);
    let runs: u64 = arith::div_ceil(allocated, extent_bytes);
    if runs > u32::MAX as u64 {
        u32::MAX
    } else {
        runs as u32
    }
}

fn ext4_reason(
    flags: Result<u32, String>,
    list: &Vec<FileExtent>,
    allocated: u64,
    length: u64,
) -> (reason: Option<String>)
    requires
        allocated == arith::sat64(extents::total_bytes(list@) as int),
    ensures
        views::opt(reason) == ext4_exclusion(flags_view(flags), list@, length),
{
    match flags {
        Err(error) => {
            let mut message: String = "could not read ext4 file flags: ".to_owned();
            text::push_text(&mut message, error.as_str());
            Some(message)
        },
        Ok(flags) => {
            if flags & FS_IMMUTABLE_FL != 0 {
                return Some("immutable file".to_owned());
            }
            if flags & FS_APPEND_FL != 0 {
                return Some("append-only file".to_owned());
            }
            if flags & EXT4_INLINE_DATA_FL != 0 {
                return Some("inline data".to_owned());
            }
            if flags & EXT4_EXTENTS_FL == 0 {
                return Some("legacy indirect block mapping".to_owned());
            }
            let bad: u32 = extents::bad_flags(list);
            if bad != 0 {
                return Some(unmovable_message(bad));
            }
            if allocated == 0 {
                return Some("no allocated extents".to_owned());
            }
            if !extents::logical_data_is_dense(list, length) {
                return Some("sparse files are not moved by the first writer".to_owned());
            }
            None
        },
    }
}

fn fat_reason(list: &Vec<FileExtent>, allocated: u64) -> (reason: Option<String>)
    requires
        allocated == arith::sat64(extents::total_bytes(list@) as int),
    ensures
        views::opt(reason) == fat_exclusion(list@),
{
    let bad: u32 = extents::bad_flags(list);
    if bad != 0 {
        return Some(unmovable_message(bad));
    }
    if allocated == 0 {
        return Some("no allocated extents".to_owned());
    }
    None
}

fn report_on(
    path: FsPath,
    length: u64,
    list: &Vec<FileExtent>,
    allocated: u64,
    minimum_runs: u32,
    reason: Option<String>,
) -> (report: FileReport)
    requires
        allocated == arith::sat64(extents::total_bytes(list@) as int),
    ensures
        report@ == file_report(path@, length, list@, minimum_runs, views::opt(reason)),
{
    let runs: u32 = extents::count_runs(list);
    let average: u64 = if runs == 0 {
        0
    } else {
        allocated / runs as u64
    };
    FileReport {
        path,
        logical_bytes: length,
        allocated_bytes: allocated,
        physical_runs: runs,
        minimum_runs,
        excess_runs: runs.saturating_sub(minimum_runs),
        average_run_bytes: average,
        eligible_for_plan: reason.is_none(),
        exclusion_reason: reason,
        physical_ranges: extents::physical_ranges(list),
    }
}

/// Reports on an ext4 file.
pub fn inspect_ext4_file(
    path: FsPath,
    facts: FileFacts,
    flags: Result<u32, String>,
    list: &Vec<FileExtent>,
) -> (report: FileReport)
    ensures
        report@ == ext4_file_report(path@, facts, flags_view(flags), list@),
{
    let allocated: u64 = extents::allocated_bytes(list);
    let minimum: u32 = ext4_minimum(allocated, facts.block_size);
    let reason: Option<String> = ext4_reason(flags, list, allocated, facts.length);
    report_on(path, facts.length, list, allocated, minimum, reason)
}

/// Reports on a FAT file.
pub fn inspect_fat_file(path: FsPath, facts: FileFacts, list: &Vec<FileExtent>) -> (report:
    FileReport)
    ensures
        report@ == fat_file_report(path@, facts, list@),
{
    let allocated: u64 = extents::allocated_bytes(list);
    let minimum: u32 = if allocated > 0 {
        1
    } else {
        0
    };
    let reason: Option<String> = fat_reason(list, allocated);
    report_on(path, facts.length, list, allocated, minimum, reason)
}

// ---------------------------------------------------------------------
// All files together
// ---------------------------------------------------------------------

/// The counts when one more file is seen. The means are left for the end.
pub open spec fn counted(metrics: FragmentationMetrics, file: FileReportView) -> FragmentationMetrics {
    FragmentationMetrics {
        total_physical_runs: arith::sat64(
            metrics.total_physical_runs + file.physical_runs,
        ) as u64,
        total_excess_runs: arith::sat64(metrics.total_excess_runs + file.excess_runs) as u64,
        fragmented_files: if file.excess_runs > 0 {
            arith::sat64(metrics.fragmented_files + 1) as u64
        } else {
            metrics.fragmented_files
        },
        fragmented_allocated_bytes: if file.excess_runs > 0 {
            arith::sat64(metrics.fragmented_allocated_bytes + file.allocated_bytes) as u64
        } else {
            metrics.fragmented_allocated_bytes
        },
        average_run_bytes: metrics.average_run_bytes,
        fragmented_basis_points: metrics.fragmented_basis_points,
    }
}

/// Counts of nothing.
pub open spec fn no_metrics() -> FragmentationMetrics {
    FragmentationMetrics {
        fragmented_files: 0,
        fragmented_allocated_bytes: 0,
        total_physical_runs: 0,
        total_excess_runs: 0,
        average_run_bytes: 0,
        fragmented_basis_points: None,
    }
}

/// The counts over all files.
pub open spec fn counted_all(files: Seq<FileReportView>) -> FragmentationMetrics
    decreases files.len(),
{
    if files.len() == 0 {
        no_metrics()
    } else {
        counted(counted_all(files.drop_last()), files.last())
    }
}

/// The counts with their means, over so many scanned bytes.
pub open spec fn completed(metrics: FragmentationMetrics, scanned: u64) -> FragmentationMetrics {
    FragmentationMetrics {
        average_run_bytes: mean_run(scanned, metrics.total_physical_runs as int),
        fragmented_basis_points: arith::basis_points(
            metrics.fragmented_allocated_bytes as int,
            scanned as int,
        ),
        ..metrics
    }
}

/// Counts one more file.
pub fn count_file(metrics: &mut FragmentationMetrics, file: &FileReport)
    ensures
        *final(metrics) == counted(*old(metrics), file@),
{
    metrics.total_physical_runs = metrics.total_physical_runs.saturating_add(
        file.physical_runs as u64,
    );
    metrics.total_excess_runs = metrics.total_excess_runs.saturating_add(file.excess_runs as u64);
    if file.excess_runs > 0 {
        metrics.fragmented_files = metrics.fragmented_files.saturating_add(1);
        metrics.fragmented_allocated_bytes = metrics.fragmented_allocated_bytes.saturating_add(
            file.allocated_bytes,
        );
    }
}

/// Works out the means.
pub fn complete_metrics(metrics: &mut FragmentationMetrics, scanned: u64)
    ensures
        *final(metrics) == completed(*old(metrics), scanned),
{
    metrics.average_run_bytes = if metrics.total_physical_runs == 0 {
        0
    } else {
        scanned / metrics.total_physical_runs
    };
    metrics.fragmented_basis_points = arith::ratio_basis_points(
        metrics.fragmented_allocated_bytes,
        scanned,
    );
}

/// A report whose counts are those of its files.
pub open spec fn recounted(report: AnalysisReportView) -> AnalysisReportView {
    AnalysisReportView {
        fragmentation: completed(
            counted_all(report.files),
            report.coverage.scanned_allocated_bytes,
        ),
        ..report
    }
}

/// Counts the files of a report anew.
pub fn recompute_fragmentation(report: &mut AnalysisReport)
    ensures
        final(report)@ == recounted(old(report)@),
{
    let mut metrics: FragmentationMetrics = FragmentationMetrics {
        fragmented_files: 0,
        fragmented_allocated_bytes: 0,
        total_physical_runs: 0,
        total_excess_runs: 0,
        average_run_bytes: 0,
        fragmented_basis_points: None,
    };
    let ghost files = views::of(report.files@);
    let ghost start = *report;
    let mut i: usize = 0;
    while i < report.files.len()
        invariant
            i <= report.files@.len(),
            *report == start,
            files == views::of(report.files@),
            metrics == counted_all(files.take(i as int)),
        decreases report.files@.len() - i,
    {
        assert(files.take(i + 1).drop_last() =~= files.take(i as int));
        count_file(&mut metrics, &report.files[i]);
        i = i + 1;
    }
    assert(files.take(i as int) =~= files);
    complete_metrics(&mut metrics, report.coverage.scanned_allocated_bytes);
    report.fragmentation = metrics;
}

/// Whether the report at a place is the first on a path.
pub open spec fn is_first_on(files: Seq<FileReportView>, path: Seq<u8>, i: int) -> bool {
    &&& 0 <= i < files.len()
    &&& path::same_path(files[i].path, path)
    &&& forall|k: int| 0 <= k < i ==> !path::same_path((#[trigger] files[k]).path, path)
}

/// Reports with the first report on a path replaced; a path that is not in
/// the list changes nothing.
pub open spec fn replaced(files: Seq<FileReportView>, updated: FileReportView) -> Seq<
    FileReportView,
> {
    if exists|i: int| is_first_on(files, updated.path, i) {
        files.update(choose|i: int| is_first_on(files, updated.path, i), updated)
    } else {
        files
    }
}

/// Replaces the report on a file.
pub fn replace_file_report(report: &mut AnalysisReport, updated: FileReport)
    ensures
        final(report)@ == (AnalysisReportView {
            files: replaced(old(report)@.files, updated@),
            ..old(report)@
        }),
{
    let ghost files = views::of(report.files@);
    let ghost start = *report;
    let mut i: usize = 0;
    while i < report.files.len()
        invariant
            i <= report.files@.len(),
            *report == start,
            start == *old(report),
            files == views::of(report.files@),
            forall|k: int|
                0 <= k < i ==> !path::same_path((#[trigger] files[k]).path, updated@.path),
        decreases report.files@.len() - i,
    {
        if report.files[i].path.same(&updated.path) {
            assert(is_first_on(files, updated@.path, i as int));
            let ghost new = updated@;
            report.files.set(i, updated);
            assert(views::of(report.files@) =~= files.update(i as int, new));
            return ;
        }
        i = i + 1;
    }
}

/// Replacing a report leaves as many reports as before, and every report on
/// another path as it was; the report on the path itself is the new one.
pub proof fn lemma_replacing_keeps_others(files: Seq<FileReportView>, updated: FileReportView)
    ensures
        replaced(files, updated).len() == files.len(),
        forall|i: int|
            0 <= i < files.len() && !path::same_path((#[trigger] files[i]).path, updated.path)
                ==> replaced(files, updated)[i] == files[i],
        forall|i: int| #[trigger]
            is_first_on(files, updated.path, i) ==> replaced(files, updated)[i] == updated,
{
}

/// An eligible file has bytes on the device, and a file with more than the
/// fewest runs is fragmented: it has at least two.
pub proof fn lemma_fragmented_files_have_runs(
    path: Seq<u8>,
    facts: FileFacts,
    flags: Result<u32, Seq<char>>,
    list: Seq<FileExtent>,
)
    ensures
        ({
            let report = ext4_file_report(path, facts, flags, list);
            &&& report.eligible_for_plan ==> report.allocated_bytes > 0 && report.minimum_runs >= 1
            &&& report.eligible_for_plan && report.excess_runs > 0 ==> report.physical_runs >= 2
        }),
        ({
            let report = fat_file_report(path, facts, list);
            &&& report.eligible_for_plan ==> report.allocated_bytes > 0 && report.minimum_runs == 1
            &&& report.eligible_for_plan && report.excess_runs > 0 ==> report.physical_runs >= 2
        }),
{
    let allocated = arith::sat64(extents::total_bytes(list) as int);
    let extent_bytes = arith::sat64(
        arith::max_int(facts.block_size as int, 1) * EXT4_EXTENT_BLOCKS,
    );
    if allocated > 0 {
        arith::lemma_ceil_div(allocated, extent_bytes);
        let least = arith::ceil_div(allocated, extent_bytes);
        assert(least >= 1) by (nonlinear_arith)
            requires
                least * extent_bytes >= allocated,
                allocated > 0,
                extent_bytes > 0,
        ;
    }
}

} // verus!
