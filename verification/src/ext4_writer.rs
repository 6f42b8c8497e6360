//! The ext4 writer: which file is rewritten next, how its blocks are
//! exchanged with those of a donor, and what is told on the way. A file's
//! blocks move in chunks; each is on the device before the next begins.

use vstd::prelude::*;

use crate::arith;
use crate::domain::{
    AnalysisReport, AnalysisReportView, DefragPhase, DefragProgress, DefragProgressView, EventView,
    FileReport, FileReportView, JobId, PhysicalRange, Volume, VolumeView,
};
use crate::error;
use crate::error::{ErrorView, IoKind, IoctlErrorView, ServiceError};
use crate::extents;
use crate::file_report;
use crate::file_report::{FileFacts, FileKind};
use crate::jobs::EventSink;
use crate::linux::{FileExtent, FsMapRange, IoctlError};
use crate::path;
use crate::path::FsPath;
use crate::plan::{Ext4Plan, Ext4PlanView, ExecutionView, PlanExecution};
use crate::report_map;
use crate::text;
use crate::views;

verus! {

/// The most bytes that one exchange is asked to move.
pub const MOVE_CHUNK_BYTES: u64 = 0x100_0000;

/// What the writer waits for.
#[derive(Clone, Copy, Debug, PartialEq, Eq, Structural)]
pub enum WriteStage {
    /// A checkpoint before anything else.
    Starting,
    Mounting,
    /// A checkpoint before a file.
    EnteringFile,
    OpeningTarget,
    ReadingTarget,
    ReadingBlockSize,
    CreatingDonor,
    AllocatingDonor,
    /// The donor is no better than the file and is given up.
    DroppingDonor,
    StagingMap,
    /// A checkpoint before a chunk.
    EnteringChunk,
    Moving,
    Syncing { moved: u64 },
    ClosingDonor,
    RereadingTarget,
    RefreshingMap,
    FinishingMap,
    Finished,
}

/// What the writer asks for.
#[derive(Debug)]
pub enum WriteAction {
    /// Wait while the job is paused, and tell whether it was cancelled.
    Checkpoint,
    /// Mount the volume for writing, or find it so mounted.
    Mount,
    /// Open a file for reading and writing, and read its facts.
    OpenTarget { path: FsPath },
    /// Write the file's data back, and read its extents and flags.
    ReadTarget,
    /// Read the block size of the filesystem.
    ReadBlockSize,
    /// Create an unlinked file in a directory.
    CreateDonor { directory: FsPath },
    /// Allocate the donor's blocks, write them out, and read its extents.
    AllocateDonor { length: u64 },
    /// Close the donor; its blocks become free.
    CloseDonor,
    /// Read the allocation map of the filesystem.
    ReadMap,
    /// Exchange blocks of the file with the same blocks of the donor.
    MoveExtents { start: u64, count: u64 },
    /// Write a range of the file out and release it from the page cache.
    SyncRange { offset: u64, length: u64 },
    /// Read the facts, extents and flags of the file again.
    RereadTarget,
    /// Nothing: the plan was executed or stopped.
    Finish,
}

/// The contents of a [`WriteAction`].
#[verifier::ext_equal]
pub enum WriteActionView {
    Checkpoint,
    Mount,
    OpenTarget { path: Seq<u8> },
    ReadTarget,
    ReadBlockSize,
    CreateDonor { directory: Seq<u8> },
    AllocateDonor { length: u64 },
    CloseDonor,
    ReadMap,
    MoveExtents { start: u64, count: u64 },
    SyncRange { offset: u64, length: u64 },
    RereadTarget,
    Finish,
}

impl View for WriteAction {
    type V = WriteActionView;

    open spec fn view(&self) -> WriteActionView {
        match self {
            WriteAction::Checkpoint => WriteActionView::Checkpoint,
            WriteAction::Mount => WriteActionView::Mount,
            WriteAction::OpenTarget { path } => WriteActionView::OpenTarget { path: path@ },
            WriteAction::ReadTarget => WriteActionView::ReadTarget,
            WriteAction::ReadBlockSize => WriteActionView::ReadBlockSize,
            WriteAction::CreateDonor { directory } => WriteActionView::CreateDonor {
                directory: directory@,
            },
            WriteAction::AllocateDonor { length } => WriteActionView::AllocateDonor {
                length: *length,
            },
            WriteAction::CloseDonor => WriteActionView::CloseDonor,
            WriteAction::ReadMap => WriteActionView::ReadMap,
            WriteAction::MoveExtents { start, count } => WriteActionView::MoveExtents {
                start: *start,
                count: *count,
            },
            WriteAction::SyncRange { offset, length } => WriteActionView::SyncRange {
                offset: *offset,
                length: *length,
            },
            WriteAction::RereadTarget => WriteActionView::RereadTarget,
            WriteAction::Finish => WriteActionView::Finish,
        }
    }
}

/// What came of an action.
#[derive(Debug)]
pub enum WriteEvent {
    /// The job may go on.
    Passed,
    /// The job was cancelled.
    Cancelled,
    /// The action failed; the job ends with its error.
    Failed(ServiceError),
    Mounted(Volume),
    TargetOpened(FileFacts),
    TargetRead { extents: Vec<FileExtent>, flags: Result<u32, String> },
    BlockSize(u64),
    DonorCreated,
    DonorAllocated(Vec<FileExtent>),
    DonorClosed,
    MapRead(Result<Vec<FsMapRange>, IoctlError>),
    /// So many blocks were exchanged.
    Moved(u64),
    /// The range is on the device; whether the job was cancelled meanwhile.
    Synced { cancelled: bool },
    TargetReread { facts: FileFacts, extents: Vec<FileExtent>, flags: Result<u32, String> },
}

/// The contents of a [`WriteEvent`].
#[verifier::ext_equal]
pub enum WriteEventView {
    Passed,
    Cancelled,
    Failed(ErrorView),
    Mounted(VolumeView),
    TargetOpened(FileFacts),
    TargetRead { extents: Seq<FileExtent>, flags: Result<u32, Seq<char>> },
    BlockSize(u64),
    DonorCreated,
    DonorAllocated(Seq<FileExtent>),
    DonorClosed,
    MapRead(Result<Seq<FsMapRange>, IoctlErrorView>),
    Moved(u64),
    Synced { cancelled: bool },
    TargetReread { facts: FileFacts, extents: Seq<FileExtent>, flags: Result<u32, Seq<char>> },
}

impl View for WriteEvent {
    type V = WriteEventView;

    open spec fn view(&self) -> WriteEventView {
        match self {
            WriteEvent::Passed => WriteEventView::Passed,
            WriteEvent::Cancelled => WriteEventView::Cancelled,
            WriteEvent::Failed(e) => WriteEventView::Failed(e@),
            WriteEvent::Mounted(volume) => WriteEventView::Mounted(volume@),
            WriteEvent::TargetOpened(facts) => WriteEventView::TargetOpened(*facts),
            WriteEvent::TargetRead { extents, flags } => WriteEventView::TargetRead {
                extents: extents@,
                flags: file_report::flags_view(*flags),
            },
            WriteEvent::BlockSize(size) => WriteEventView::BlockSize(*size),
            WriteEvent::DonorCreated => WriteEventView::DonorCreated,
            WriteEvent::DonorAllocated(extents) => WriteEventView::DonorAllocated(extents@),
            WriteEvent::DonorClosed => WriteEventView::DonorClosed,
            WriteEvent::MapRead(Ok(ranges)) => WriteEventView::MapRead(Ok(ranges@)),
            WriteEvent::MapRead(Err(e)) => WriteEventView::MapRead(Err(e@)),
            WriteEvent::Moved(count) => WriteEventView::Moved(*count),
            WriteEvent::Synced { cancelled } => WriteEventView::Synced { cancelled: *cancelled },
            WriteEvent::TargetReread { facts, extents, flags } => WriteEventView::TargetReread {
                facts: *facts,
                extents: extents@,
                flags: file_report::flags_view(*flags),
            },
        }
    }
}

/// Whether an event is an answer to what the writer waits for. Every action
/// but a checkpoint can fail.
pub open spec fn answers(stage: WriteStage, event: WriteEventView) -> bool {
    match stage {
        WriteStage::Starting | WriteStage::EnteringFile | WriteStage::EnteringChunk => event
            is Passed || event is Cancelled,
        WriteStage::Mounting => event is Mounted || event is Failed,
        WriteStage::OpeningTarget => event is TargetOpened || event is Failed,
        WriteStage::ReadingTarget => event is TargetRead || event is Failed,
        WriteStage::ReadingBlockSize => event is Failed || (event matches WriteEventView::BlockSize(
            size,
        ) && size > 0),
        WriteStage::CreatingDonor => event is DonorCreated || event is Failed,
        WriteStage::AllocatingDonor => event is DonorAllocated || event is Failed,
        WriteStage::DroppingDonor | WriteStage::ClosingDonor => event is DonorClosed || event
            is Failed,
        WriteStage::StagingMap | WriteStage::RefreshingMap | WriteStage::FinishingMap => event
            is MapRead || event is Failed,
        WriteStage::Moving => event is Moved || event is Failed,
        WriteStage::Syncing { .. } => event is Synced || event is Failed,
        WriteStage::RereadingTarget => event is TargetReread || event is Failed,
        WriteStage::Finished => false,
    }
}

// ---------------------------------------------------------------------
// The state of the writer
// ---------------------------------------------------------------------

/// The contents of an [`Ext4Writer`].
pub struct WriterView {
    pub plan: Ext4PlanView,
    pub job_id: JobId,
    pub stage: WriteStage,
    /// The root of the mounted filesystem.
    pub root: Seq<u8>,
    pub report: AnalysisReportView,
    /// The place of the file in the plan.
    pub index: nat,
    /// Whether the file was tried before.
    pub retried: bool,
    pub path: Seq<u8>,
    pub facts: FileFacts,
    /// The file before its blocks moved.
    pub before: FileReportView,
    /// The file after its blocks moved.
    pub fresh: FileReportView,
    pub before_extents: Seq<FileExtent>,
    pub donor_extents: Seq<FileExtent>,
    pub block_size: u64,
    pub total_blocks: u64,
    /// The first block that has not moved.
    pub logical_block: u64,
    /// Whether the job ends with this file.
    pub stopping: bool,
    pub files_completed: u64,
    pub bytes_moved: u64,
}

/// What a step of the writer leaves: the writer, what was told so far, and
/// what is asked for next or why the job ends.
pub struct Step {
    pub writer: WriterView,
    pub log: Seq<EventView>,
    pub result: Result<WriteActionView, ErrorView>,
}

pub open spec fn no_facts() -> FileFacts {
    FileFacts { kind: FileKind::Other, device: 0, inode: 0, length: 0, block_size: 0 }
}

pub open spec fn no_report() -> FileReportView {
    FileReportView {
        path: Seq::empty(),
        logical_bytes: 0,
        allocated_bytes: 0,
        physical_runs: 0,
        minimum_runs: 0,
        excess_runs: 0,
        average_run_bytes: 0,
        eligible_for_plan: false,
        exclusion_reason: None,
        physical_ranges: Seq::empty(),
    }
}

/// A writer that has not begun.
pub open spec fn new_writer(plan: Ext4PlanView, job_id: JobId) -> WriterView {
    WriterView {
        plan,
        job_id,
        stage: WriteStage::Starting,
        root: Seq::empty(),
        report: plan.report,
        index: 0,
        retried: false,
        path: Seq::empty(),
        facts: no_facts(),
        before: no_report(),
        fresh: no_report(),
        before_extents: Seq::empty(),
        donor_extents: Seq::empty(),
        block_size: 1,
        total_blocks: 0,
        logical_block: 0,
        stopping: false,
        files_completed: 0,
        bytes_moved: 0,
    }
}

pub open spec fn progress_event(w: WriterView, phase: DefragPhase) -> EventView {
    EventView::DefragProgress(
        DefragProgressView {
            job_id: w.job_id,
            phase,
            files_completed: w.files_completed,
            files_total: w.plan.relative_paths.len() as u64,
            bytes_moved: w.bytes_moved,
            bytes_total: w.plan.summary.estimated_rewrite_bytes,
            current_path: Some(w.path),
        },
    )
}

/// The event that tells of the drive map of the report.
pub open spec fn map_event(w: WriterView) -> EventView {
    EventView::MapUpdated { job_id: w.job_id, full_snapshot: true, bins: w.report.map }
}

/// The event that clears the announced I/O.
pub open spec fn quiet_event(w: WriterView) -> EventView {
    EventView::DefragPendingIo {
        job_id: w.job_id,
        reading: Seq::empty(),
        writing: Seq::empty(),
    }
}

/// A writer that fails with an error.
pub open spec fn failed(w: WriterView, log: Seq<EventView>, error: ErrorView) -> Step {
    Step { writer: w, log, result: Err(error) }
}

/// A writer that asks for something.
pub open spec fn asked(
    w: WriterView,
    log: Seq<EventView>,
    stage: WriteStage,
    action: WriteActionView,
) -> Step {
    Step { writer: WriterView { stage, ..w }, log, result: Ok(action) }
}

/// A writer before the file at its place, or past all files. When all are
/// done, the announced I/O is cleared and the map is drawn once more.
pub open spec fn at_file(w: WriterView, log: Seq<EventView>) -> Step {
    if w.index < w.plan.relative_paths.len() {
        asked(w, log, WriteStage::EnteringFile, WriteActionView::Checkpoint)
    } else {
        asked(w, log.push(quiet_event(w)), WriteStage::FinishingMap, WriteActionView::ReadMap)
    }
}

/// A writer that is done with the file at its place.
pub open spec fn past_file(w: WriterView) -> WriterView {
    WriterView {
        index: w.index + 1,
        retried: false,
        files_completed: arith::sat64(w.files_completed + 1) as u64,
        ..w
    }
}

/// The step that takes in the mounted volume.
#[verifier::opaque]
pub open spec fn mounted(w: WriterView, log: Seq<EventView>, volume: VolumeView) -> Step {
    match (volume.mount_point, w.plan.volume.mount_point) {
        (None, _) => failed(
            w,
            log,
            error::io_failure(IoKind::NotFound, "ext4 writer has no mount point"@),
        ),
        (_, None) => failed(
            w,
            log,
            error::io_failure(IoKind::NotFound, "ext4 plan has no analyzed root"@),
        ),
        (Some(root), Some(analyzed)) => at_file(
            WriterView {
                root,
                report: AnalysisReportView {
                    volume,
                    files: report_map::moved_files(w.report.files, analyzed, root),
                    ..w.report
                },
                ..w
            },
            log,
        ),
    }
}

/// The step past the checkpoint before a file.
#[verifier::opaque]
pub open spec fn file_entered(w: WriterView, log: Seq<EventView>) -> Step {
    let path = path::joined(w.root, w.plan.relative_paths[w.index as int]);
    let entered = WriterView { path, stage: WriteStage::OpeningTarget, ..w };
    Step {
        writer: entered,
        log: log.push(progress_event(entered, DefragPhase::Revalidating)),
        result: Ok(WriteActionView::OpenTarget { path }),
    }
}

/// The step that takes in what was opened. What is no file any more is
/// passed over.
#[verifier::opaque]
pub open spec fn target_opened(w: WriterView, log: Seq<EventView>, facts: FileFacts) -> Step {
    if facts.kind != FileKind::Regular {
        at_file(past_file(w), log)
    } else {
        asked(
            WriterView { facts, ..w },
            log,
            WriteStage::ReadingTarget,
            WriteActionView::ReadTarget,
        )
    }
}

/// The step that looks at the file once more. One that cannot be moved any
/// more, or is no longer fragmented, is passed over.
#[verifier::opaque]
pub open spec fn target_read(
    w: WriterView,
    log: Seq<EventView>,
    list: Seq<FileExtent>,
    flags: Result<u32, Seq<char>>,
) -> Step {
    let before = file_report::ext4_file_report(w.path, w.facts, flags, list);
    if !before.eligible_for_plan || before.excess_runs == 0 {
        at_file(past_file(w), log)
    } else {
        asked(
            WriterView { before, before_extents: list, ..w },
            log,
            WriteStage::ReadingBlockSize,
            WriteActionView::ReadBlockSize,
        )
    }
}

/// The bytes that the donor of a file needs: whole blocks.
pub open spec fn donor_bytes(length: u64, block_size: u64) -> int {
    arith::sat64(arith::ceil_div(length as int, block_size as int) * block_size)
}

/// Where the donor of a file is made: beside the file, at a second try at
/// the root of the filesystem.
pub open spec fn donor_directory(w: WriterView) -> Seq<u8> {
    if w.retried {
        w.root
    } else {
        match path::parent_of(w.path) {
            Some(parent) => parent,
            None => w.root,
        }
    }
}

/// The step that takes in the block size.
#[verifier::opaque]
pub open spec fn size_read(w: WriterView, log: Seq<EventView>, block_size: u64) -> Step {
    let sized = WriterView {
        block_size,
        total_blocks: (donor_bytes(w.facts.length, block_size) / block_size as int) as u64,
        logical_block: 0,
        ..w
    };
    asked(
        sized,
        log,
        WriteStage::CreatingDonor,
        WriteActionView::CreateDonor { directory: donor_directory(w) },
    )
}

/// The step that has the donor's blocks allocated. A length that the system
/// cannot take is refused.
#[verifier::opaque]
pub open spec fn donor_created(w: WriterView, log: Seq<EventView>) -> Step {
    let length = donor_bytes(w.facts.length, w.block_size);
    let told = log.push(progress_event(w, DefragPhase::AllocatingDonor));
    if length > i64::MAX {
        failed(w, told, error::io_failure(IoKind::FileTooLarge, "donor is too large"@))
    } else {
        asked(
            w,
            told,
            WriteStage::AllocatingDonor,
            WriteActionView::AllocateDonor { length: length as u64 },
        )
    }
}

/// The step that looks at the donor. One that has no fewer runs than the
/// file is given up.
#[verifier::opaque]
pub open spec fn donor_allocated(w: WriterView, log: Seq<EventView>, list: Seq<FileExtent>) -> Step {
    if list.len() == 0 || extents::run_count(list) >= w.before.physical_runs {
        asked(w, log, WriteStage::DroppingDonor, WriteActionView::CloseDonor)
    } else {
        asked(
            WriterView { donor_extents: list, ..w },
            log,
            WriteStage::StagingMap,
            WriteActionView::ReadMap,
        )
    }
}

/// A writer before a chunk, or past all of them: then the donor is closed.
pub open spec fn at_chunk(w: WriterView, log: Seq<EventView>) -> Step {
    if w.logical_block < w.total_blocks {
        asked(w, log, WriteStage::EnteringChunk, WriteActionView::Checkpoint)
    } else {
        asked(w, log, WriteStage::ClosingDonor, WriteActionView::CloseDonor)
    }
}

/// The most blocks of a chunk.
pub open spec fn chunk_limit(block_size: u64) -> int {
    arith::max_int(MOVE_CHUNK_BYTES as int / block_size as int, 1)
}

/// The blocks of the next chunk.
pub open spec fn chunk_blocks(w: WriterView) -> int {
    arith::min_int(chunk_limit(w.block_size), w.total_blocks - w.logical_block)
}

/// Where the next chunk begins in the file.
pub open spec fn chunk_offset(w: WriterView) -> u64 {
    arith::sat64(w.logical_block * w.block_size) as u64
}

/// The step past the checkpoint before a chunk: the places on the device
/// that will be read and written are announced.
#[verifier::opaque]
pub open spec fn chunk_entered(w: WriterView, log: Seq<EventView>) -> Step {
    let length = arith::sat64(chunk_blocks(w) * w.block_size) as u64;
    let told = log.push(
        EventView::DefragPendingIo {
            job_id: w.job_id,
            reading: extents::mapped_ranges(w.before_extents, chunk_offset(w), length),
            writing: extents::mapped_ranges(w.donor_extents, chunk_offset(w), length),
        },
    ).push(progress_event(w, DefragPhase::MovingExtents));
    asked(
        w,
        told,
        WriteStage::Moving,
        WriteActionView::MoveExtents { start: w.logical_block, count: chunk_blocks(w) as u64 },
    )
}

/// The step past an exchange. One that moved nothing ends the job.
#[verifier::opaque]
pub open spec fn moved(w: WriterView, log: Seq<EventView>, count: u64) -> Step {
    if count == 0 {
        failed(
            w,
            log,
            error::io_failure(
                IoKind::Other,
                "EXT4_IOC_MOVE_EXT completed without moving any blocks"@,
            ),
        )
    } else {
        asked(
            w,
            log,
            WriteStage::Syncing { moved: count },
            WriteActionView::SyncRange {
                offset: chunk_offset(w),
                length: arith::sat64(count * w.block_size) as u64,
            },
        )
    }
}

/// The step past a chunk that is on the device. A cancelled job moves no
/// further chunk and finishes the file as it is.
#[verifier::opaque]
pub open spec fn synced(w: WriterView, log: Seq<EventView>, count: u64, cancelled: bool) -> Step {
    let after = WriterView {
        logical_block: arith::sat64(w.logical_block + count) as u64,
        bytes_moved: arith::sat64(
            w.bytes_moved + arith::sat64(count * w.block_size),
        ) as u64,
        stopping: cancelled,
        ..w
    };
    if cancelled {
        asked(after, log, WriteStage::ClosingDonor, WriteActionView::CloseDonor)
    } else {
        at_chunk(after, log)
    }
}

/// The step that takes in the file after its blocks moved: its report
/// replaces the one before it, and the counts follow.
#[verifier::opaque]
pub open spec fn reread(
    w: WriterView,
    log: Seq<EventView>,
    facts: FileFacts,
    list: Seq<FileExtent>,
    flags: Result<u32, Seq<char>>,
) -> Step {
    let fresh = file_report::ext4_file_report(w.path, facts, flags, list);
    asked(
        WriterView {
            fresh,
            report: file_report::recounted(
                AnalysisReportView {
                    files: file_report::replaced(w.report.files, fresh),
                    ..w.report
                },
            ),
            ..w
        },
        log.push(progress_event(w, DefragPhase::RefreshingMap)),
        WriteStage::RefreshingMap,
        WriteActionView::ReadMap,
    )
}

/// Whether a file that was rewritten is worth a second try: it has fewer
/// runs than before and still too many.
pub open spec fn is_worth_retry(w: WriterView) -> bool {
    !w.retried && w.fresh.excess_runs > 0 && w.fresh.physical_runs < w.before.physical_runs
}

/// The step that takes in the allocation map after a file: the display
/// learns of the file, and the job stops or goes on.
#[verifier::opaque]
pub open spec fn refreshed(w: WriterView, log: Seq<EventView>, ranges: Seq<FsMapRange>) -> Step {
    let drawn = WriterView {
        report: report_map::redrawn(w.report, ranges, Seq::empty()),
        ..w
    };
    let told = log.push(map_event(drawn)).push(
        EventView::DefragFileUpdated {
            job_id: w.job_id,
            file: w.fresh,
            fragmentation: w.report.fragmentation,
            bytes_moved: w.bytes_moved,
        },
    ).push(quiet_event(w));
    if w.stopping {
        finished(drawn, told)
    } else if is_worth_retry(w) {
        at_file(WriterView { retried: true, ..drawn }, told)
    } else {
        at_file(past_file(drawn), told)
    }
}

/// The end of a job: the report becomes one for the owner of the volume.
pub open spec fn finished(w: WriterView, log: Seq<EventView>) -> Step {
    asked(
        WriterView {
            report: report_map::settled(w.report, w.plan.volume, w.root),
            ..w
        },
        log,
        WriteStage::Finished,
        WriteActionView::Finish,
    )
}

/// The step that takes in an allocation map.
#[verifier::opaque]
pub open spec fn map_read(
    w: WriterView,
    log: Seq<EventView>,
    read: Result<Seq<FsMapRange>, IoctlErrorView>,
) -> Step {
    match read {
        Err(e) => failed(w, log, report_map::map_failure(e)),
        Ok(ranges) => match w.stage {
            WriteStage::StagingMap => {
                let drawn = WriterView {
                    report: report_map::redrawn(
                        w.report,
                        ranges,
                        extents::filled_ranges(w.donor_extents),
                    ),
                    ..w
                };
                at_chunk(drawn, log.push(map_event(drawn)))
            },
            WriteStage::RefreshingMap => refreshed(w, log, ranges),
            _ => {
                let drawn = WriterView {
                    report: report_map::redrawn(w.report, ranges, Seq::empty()),
                    ..w
                };
                finished(drawn, log.push(map_event(drawn)))
            },
        },
    }
}

/// What the writer does when an event answers what it waits for.
pub open spec fn write_step(w: WriterView, log: Seq<EventView>, event: WriteEventView) -> Step {
    match event {
        WriteEventView::Cancelled => failed(w, log, ErrorView::Cancelled),
        WriteEventView::Failed(e) => failed(w, log, e),
        WriteEventView::Passed => match w.stage {
            WriteStage::Starting => asked(w, log, WriteStage::Mounting, WriteActionView::Mount),
            WriteStage::EnteringFile => file_entered(w, log),
            _ => chunk_entered(w, log),
        },
        WriteEventView::Mounted(volume) => mounted(w, log, volume),
        WriteEventView::TargetOpened(facts) => target_opened(w, log, facts),
        WriteEventView::TargetRead { extents, flags } => target_read(w, log, extents, flags),
        WriteEventView::BlockSize(size) => size_read(w, log, size),
        WriteEventView::DonorCreated => donor_created(w, log),
        WriteEventView::DonorAllocated(extents) => donor_allocated(w, log, extents),
        WriteEventView::DonorClosed => if w.stage == WriteStage::DroppingDonor {
            at_file(past_file(w), log)
        } else {
            asked(w, log, WriteStage::RereadingTarget, WriteActionView::RereadTarget)
        },
        WriteEventView::MapRead(read) => map_read(w, log, read),
        WriteEventView::Moved(count) => moved(w, log, count),
        WriteEventView::Synced { cancelled } => match w.stage {
            WriteStage::Syncing { moved } => synced(w, log, moved, cancelled),
            _ => failed(w, log, ErrorView::Cancelled),
        },
        WriteEventView::TargetReread { facts, extents, flags } => reread(
            w,
            log,
            facts,
            extents,
            flags,
        ),
    }
}

// ---------------------------------------------------------------------
// The writer
// ---------------------------------------------------------------------

/// Executes a plan. It says what it asks for; what came of that is handed
/// back to it.
pub struct Ext4Writer {
    plan: Ext4Plan,
    job_id: JobId,
    stage: WriteStage,
    root: FsPath,
    report: AnalysisReport,
    index: usize,
    retried: bool,
    path: FsPath,
    facts: FileFacts,
    before: FileReport,
    fresh: FileReport,
    before_extents: Vec<FileExtent>,
    donor_extents: Vec<FileExtent>,
    block_size: u64,
    total_blocks: u64,
    logical_block: u64,
    stopping: bool,
    files_completed: u64,
    bytes_moved: u64,
}

impl View for Ext4Writer {
    type V = WriterView;

    closed spec fn view(&self) -> WriterView {
        WriterView {
            plan: self.plan@,
            job_id: self.job_id,
            stage: self.stage,
            root: self.root@,
            report: self.report@,
            index: self.index as nat,
            retried: self.retried,
            path: self.path@,
            facts: self.facts,
            before: self.before@,
            fresh: self.fresh@,
            before_extents: self.before_extents@,
            donor_extents: self.donor_extents@,
            block_size: self.block_size,
            total_blocks: self.total_blocks,
            logical_block: self.logical_block,
            stopping: self.stopping,
            files_completed: self.files_completed,
            bytes_moved: self.bytes_moved,
        }
    }
}

fn blank_report() -> (report: FileReport)
    ensures
        report@ == no_report(),
{
    let report = FileReport {
        path: FsPath { bytes: Vec::new() },
        logical_bytes: 0,
        allocated_bytes: 0,
        physical_runs: 0,
        minimum_runs: 0,
        excess_runs: 0,
        average_run_bytes: 0,
        eligible_for_plan: false,
        exclusion_reason: None,
        physical_ranges: Vec::new(),
    };
    assert(report@ =~= no_report());
    report
}

impl WriterView {
    /// Between files the place lies inside the plan, and a writer that works
    /// on a file has one to work on. The block size is never zero, and a
    /// chunk that is asked for has blocks.
    pub open spec fn valid(self) -> bool {
        &&& self.index <= self.plan.relative_paths.len()
        &&& self.block_size > 0
        &&& match self.stage {
            WriteStage::Starting
            | WriteStage::Mounting
            | WriteStage::FinishingMap
            | WriteStage::Finished => true,
            WriteStage::EnteringChunk => self.index < self.plan.relative_paths.len()
                && self.logical_block < self.total_blocks,
            _ => self.index < self.plan.relative_paths.len(),
        }
    }
}

/// Whether a turn of the writer is what its event asks for.
#[verifier::opaque]
spec fn follows(
    before: (WriterView, Seq<EventView>),
    event: WriteEventView,
    after: (WriterView, Seq<EventView>),
    result: Result<WriteActionView, ErrorView>,
) -> bool {
    let step = write_step(before.0, before.1, event);
    step == (Step { writer: after.0, log: after.1, result })
}

impl Ext4Writer {
    /// The writer's own invariant.
    pub closed spec fn wf(&self) -> bool {
        self@.valid()
    }

    /// A writer that has not begun: it waits for a checkpoint.
    pub fn new(plan: Ext4Plan, job_id: JobId) -> (writer: Ext4Writer)
        ensures
            writer.wf(),
            writer@ == new_writer(plan@, job_id),
    {
        let report: AnalysisReport = plan.report.clone();
        let writer = Ext4Writer {
            plan,
            job_id,
            stage: WriteStage::Starting,
            root: FsPath { bytes: Vec::new() },
            report,
            index: 0,
            retried: false,
            path: FsPath { bytes: Vec::new() },
            facts: FileFacts {
                kind: FileKind::Other,
                device: 0,
                inode: 0,
                length: 0,
                block_size: 0,
            },
            before: blank_report(),
            fresh: blank_report(),
            before_extents: Vec::new(),
            donor_extents: Vec::new(),
            block_size: 1,
            total_blocks: 0,
            logical_block: 0,
            stopping: false,
            files_completed: 0,
            bytes_moved: 0,
        };
        assert(writer@ =~= new_writer(writer.plan@, job_id));
        writer
    }

    /// The volume that the plan is for.
    pub fn volume(&self) -> (volume: &Volume)
        ensures
            volume@ == self@.plan.volume,
    {
        &self.plan.volume
    }

    /// What the writer waits for.
    pub fn stage(&self) -> (stage: WriteStage)
        ensures
            stage == self@.stage,
    {
        self.stage
    }

    fn progress(&self, phase: DefragPhase) -> (progress: DefragProgress)
        ensures
            EventView::DefragProgress(progress@) == progress_event(self@, phase),
    {
        DefragProgress {
            job_id: self.job_id,
            phase,
            files_completed: self.files_completed,
            files_total: self.plan.relative_paths.len() as u64,
            bytes_moved: self.bytes_moved,
            bytes_total: self.plan.summary.estimated_rewrite_bytes,
            current_path: Some(self.path.clone()),
        }
    }

    fn tell_quiet<S: EventSink>(&self, sink: &mut S)
        requires
            old(sink).job() == self@.job_id,
        ensures
            final(sink).job() == old(sink).job(),
            final(sink).log() == old(sink).log().push(quiet_event(self@)),
    {
        let reading: Vec<PhysicalRange> = Vec::new();
        let writing: Vec<PhysicalRange> = Vec::new();
        assert(reading@ =~= Seq::empty());
        assert(writing@ =~= Seq::empty());
        sink.defrag_pending_io(reading, writing);
    }

    /// Draws the map of the report anew and tells of it.
    fn draw<S: EventSink>(
        &mut self,
        ranges: &Vec<FsMapRange>,
        staging: &Vec<PhysicalRange>,
        sink: &mut S,
    )
        requires
            old(sink).job() == old(self)@.job_id,
        ensures
            final(self)@ == (WriterView {
                report: report_map::redrawn(old(self)@.report, ranges@, staging@),
                ..old(self)@
            }),
            final(sink).job() == old(sink).job(),
            final(sink).log() == old(sink).log().push(map_event(final(self)@)),
    {
        report_map::redraw(&mut self.report, ranges, staging);
        sink.map_updated(true, views::copy_list(&self.report.map));
    }

    /// Goes to the file at its place, or to the end.
    fn to_file<S: EventSink>(&mut self, sink: &mut S) -> (action: WriteAction)
        requires
            old(self)@.index <= old(self)@.plan.relative_paths.len(),
            old(self)@.block_size > 0,
            old(sink).job() == old(self)@.job_id,
        ensures
            final(self).wf(),
            final(sink).job() == old(sink).job(),
            ({
                let step = at_file(old(self)@, old(sink).log());
                &&& final(self)@ == step.writer
                &&& final(sink).log() == step.log
                &&& step.result == Ok::<WriteActionView, ErrorView>(action@)
            }),
    {
        if self.index < self.plan.relative_paths.len() {
            self.stage = WriteStage::EnteringFile;
            WriteAction::Checkpoint
        } else {
            self.tell_quiet(sink);
            self.stage = WriteStage::FinishingMap;
            WriteAction::ReadMap
        }
    }

    /// Leaves the file at its place.
    fn leave_file(&mut self)
        requires
            old(self)@.index < old(self)@.plan.relative_paths.len(),
        ensures
            final(self)@ == past_file(old(self)@),
    {
        let count: usize = self.plan.relative_paths.len();
        assert(self.index < count);
        self.index = self.index + 1;
        self.retried = false;
        self.files_completed = self.files_completed.saturating_add(1);
    }

    /// Makes the report one of the mounted volume.
    fn rebase(&mut self, volume: Volume, root: FsPath, analyzed: &FsPath)
        ensures
            final(self)@ == (WriterView {
                root: root@,
                report: AnalysisReportView {
                    volume: volume@,
                    files: report_map::moved_files(old(self)@.report.files, analyzed@, root@),
                    ..old(self)@.report
                },
                ..old(self)@
            }),
    {
        report_map::move_files(&mut self.report, analyzed, &root);
        self.report.volume = volume;
        self.root = root;
    }

    fn take_volume<S: EventSink>(&mut self, volume: Volume, sink: &mut S) -> (result: Result<
        WriteAction,
        ServiceError,
    >)
        requires
            old(self).wf(),
            old(sink).job() == old(self)@.job_id,
            old(self)@.stage == WriteStage::Mounting,
        ensures
            final(self).wf(),
            final(sink).job() == old(sink).job(),
            follows(
                (old(self)@, old(sink).log()),
                WriteEventView::Mounted(volume@),
                (final(self)@, final(sink).log()),
                error::outcome(result),
            ),
    {
        reveal(mounted);
        reveal(follows);
        let root: FsPath = match &volume.mount_point {
            None => {
                return Err(error::io_error(IoKind::NotFound, "ext4 writer has no mount point"));
            },
            Some(root) => root.clone(),
        };
        let analyzed: FsPath = match &self.plan.volume.mount_point {
            None => {
                return Err(error::io_error(IoKind::NotFound, "ext4 plan has no analyzed root"));
            },
            Some(root) => root.clone(),
        };
        self.rebase(volume, root, &analyzed);
        Ok(self.to_file(sink))
    }

    fn enter_file<S: EventSink>(&mut self, sink: &mut S) -> (action: WriteAction)
        requires
            old(self).wf(),
            old(sink).job() == old(self)@.job_id,
            old(self)@.stage == WriteStage::EnteringFile,
        ensures
            final(self).wf(),
            final(sink).job() == old(sink).job(),
            ({
                let step = file_entered(old(self)@, old(sink).log());
                &&& final(self)@ == step.writer
                &&& final(sink).log() == step.log
                &&& step.result == Ok::<WriteActionView, ErrorView>(action@)
            }),
    {
        reveal(file_entered);
        let path: FsPath = self.root.join(&self.plan.relative_paths[self.index]);
        self.path = path.clone();
        self.stage = WriteStage::OpeningTarget;
        sink.defrag_progress(self.progress(DefragPhase::Revalidating));
        WriteAction::OpenTarget { path }
    }

    fn take_target<S: EventSink>(
        &mut self,
        list: Vec<FileExtent>,
        flags: Result<u32, String>,
        sink: &mut S,
    ) -> (result: WriteAction)
        requires
            old(self).wf(),
            old(sink).job() == old(self)@.job_id,
            old(self)@.stage == WriteStage::ReadingTarget,
        ensures
            final(self).wf(),
            final(sink).job() == old(sink).job(),
            follows(
                (old(self)@, old(sink).log()),
                WriteEventView::TargetRead { extents: list@, flags: file_report::flags_view(flags) },
                (final(self)@, final(sink).log()),
                Ok(result@),
            ),
    {
        reveal(target_read);
        reveal(follows);
        let before: FileReport = file_report::inspect_ext4_file(
            self.path.clone(),
            self.facts,
            flags,
            &list,
        );
        if !before.eligible_for_plan || before.excess_runs == 0 {
            self.leave_file();
            return self.to_file(sink);
        }
        self.before = before;
        self.before_extents = list;
        self.stage = WriteStage::ReadingBlockSize;
        WriteAction::ReadBlockSize
    }

    fn donor_length(&self) -> (length: u64)
        requires
            self@.block_size > 0,
        ensures
            length == donor_bytes(self@.facts.length, self@.block_size),
    {
        arith::saturating_mul(
            arith::div_ceil(self.facts.length, self.block_size),
            self.block_size,
        )
    }

    fn take_size<S: EventSink>(&mut self, size: u64, sink: &mut S) -> (result: WriteAction)
        requires
            old(self).wf(),
            old(sink).job() == old(self)@.job_id,
            old(self)@.stage == WriteStage::ReadingBlockSize,
            size > 0,
        ensures
            final(self).wf(),
            final(sink).job() == old(sink).job(),
            follows(
                (old(self)@, old(sink).log()),
                WriteEventView::BlockSize(size),
                (final(self)@, final(sink).log()),
                Ok(result@),
            ),
    {
        reveal(size_read);
        reveal(follows);
        self.block_size = size;
        let length: u64 = self.donor_length();
        self.total_blocks = length / size;
        self.logical_block = 0;
        self.stage = WriteStage::CreatingDonor;
        if self.retried {
            return WriteAction::CreateDonor { directory: self.root.clone() };
        }
        let directory: FsPath = match self.path.parent() {
            Some(parent) => parent,
            None => self.root.clone(),
        };
        WriteAction::CreateDonor { directory }
    }

    fn begin_allocation<S: EventSink>(&mut self, sink: &mut S) -> (result: Result<
        WriteAction,
        ServiceError,
    >)
        requires
            old(self).wf(),
            old(sink).job() == old(self)@.job_id,
            old(self)@.stage == WriteStage::CreatingDonor,
        ensures
            final(self).wf(),
            final(sink).job() == old(sink).job(),
            follows(
                (old(self)@, old(sink).log()),
                WriteEventView::DonorCreated,
                (final(self)@, final(sink).log()),
                error::outcome(result),
            ),
    {
        reveal(donor_created);
        reveal(follows);
        sink.defrag_progress(self.progress(DefragPhase::AllocatingDonor));
        let length: u64 = self.donor_length();
        if length > i64::MAX as u64 {
            return Err(error::io_error(IoKind::FileTooLarge, "donor is too large"));
        }
        self.stage = WriteStage::AllocatingDonor;
        Ok(WriteAction::AllocateDonor { length })
    }

    fn take_donor<S: EventSink>(&mut self, list: Vec<FileExtent>, sink: &mut S) -> (result: WriteAction)
        requires
            old(self).wf(),
            old(sink).job() == old(self)@.job_id,
            old(self)@.stage == WriteStage::AllocatingDonor,
        ensures
            final(self).wf(),
            final(sink).job() == old(sink).job(),
            follows(
                (old(self)@, old(sink).log()),
                WriteEventView::DonorAllocated(list@),
                (final(self)@, final(sink).log()),
                Ok(result@),
            ),
    {
        reveal(donor_allocated);
        reveal(follows);
        if list.len() == 0 || extents::count_runs(&list) >= self.before.physical_runs {
            self.stage = WriteStage::DroppingDonor;
            return WriteAction::CloseDonor;
        }
        self.donor_extents = list;
        self.stage = WriteStage::StagingMap;
        WriteAction::ReadMap
    }

    /// Goes to the next chunk, or past all of them.
    fn to_chunk(&mut self) -> (action: WriteAction)
        requires
            old(self)@.index < old(self)@.plan.relative_paths.len(),
            old(self)@.block_size > 0,
        ensures
            final(self).wf(),
            forall|log: Seq<EventView>|
                ({
                    let step = #[trigger] at_chunk(old(self)@, log);
                    &&& final(self)@ == step.writer
                    &&& step.log == log
                    &&& step.result == Ok::<WriteActionView, ErrorView>(action@)
                }),
    {
        if self.logical_block < self.total_blocks {
            self.stage = WriteStage::EnteringChunk;
            WriteAction::Checkpoint
        } else {
            self.stage = WriteStage::ClosingDonor;
            WriteAction::CloseDonor
        }
    }

    fn enter_chunk<S: EventSink>(&mut self, sink: &mut S) -> (action: WriteAction)
        requires
            old(self).wf(),
            old(sink).job() == old(self)@.job_id,
            old(self)@.stage == WriteStage::EnteringChunk,
        ensures
            final(self).wf(),
            final(sink).job() == old(sink).job(),
            ({
                let step = chunk_entered(old(self)@, old(sink).log());
                &&& final(self)@ == step.writer
                &&& final(sink).log() == step.log
                &&& step.result == Ok::<WriteActionView, ErrorView>(action@)
            }),
    {
        reveal(chunk_entered);
        let whole: u64 = MOVE_CHUNK_BYTES / self.block_size;
        let limit: u64 = if whole == 0 {
            1
        } else {
            whole
        };
        let left: u64 = self.total_blocks - self.logical_block;
        let count: u64 = if limit < left {
            limit
        } else {
            left
        };
        assert(limit == chunk_limit(self.block_size));
        let offset: u64 = arith::saturating_mul(self.logical_block, self.block_size);
        let length: u64 = arith::saturating_mul(count, self.block_size);
        let reading: Vec<PhysicalRange> = extents::physical_for_logical(
            &self.before_extents,
            offset,
            length,
        );
        let writing: Vec<PhysicalRange> = extents::physical_for_logical(
            &self.donor_extents,
            offset,
            length,
        );
        sink.defrag_pending_io(reading, writing);
        sink.defrag_progress(self.progress(DefragPhase::MovingExtents));
        self.stage = WriteStage::Moving;
        WriteAction::MoveExtents { start: self.logical_block, count }
    }

    fn take_move<S: EventSink>(&mut self, count: u64, sink: &mut S) -> (result: Result<WriteAction, ServiceError>)
        requires
            old(self).wf(),
            old(sink).job() == old(self)@.job_id,
            old(self)@.stage == WriteStage::Moving,
        ensures
            final(self).wf(),
            final(sink).job() == old(sink).job(),
            follows(
                (old(self)@, old(sink).log()),
                WriteEventView::Moved(count),
                (final(self)@, final(sink).log()),
                error::outcome(result),
            ),
    {
        reveal(moved);
        reveal(follows);
        if count == 0 {
            return Err(
                error::io_error(
                    IoKind::Other,
                    "EXT4_IOC_MOVE_EXT completed without moving any blocks",
                ),
            );
        }
        self.stage = WriteStage::Syncing { moved: count };
        let offset: u64 = arith::saturating_mul(self.logical_block, self.block_size);
        let length: u64 = arith::saturating_mul(count, self.block_size);
        Ok(WriteAction::SyncRange { offset, length })
    }

    fn take_sync<S: EventSink>(&mut self, count: u64, cancelled: bool, sink: &mut S) -> (result: WriteAction)
        requires
            old(self).wf(),
            old(sink).job() == old(self)@.job_id,
            old(self)@.stage == (WriteStage::Syncing { moved: count }),
        ensures
            final(self).wf(),
            final(sink).job() == old(sink).job(),
            follows(
                (old(self)@, old(sink).log()),
                WriteEventView::Synced { cancelled },
                (final(self)@, final(sink).log()),
                Ok(result@),
            ),
    {
        reveal(synced);
        reveal(follows);
        let bytes: u64 = arith::saturating_mul(count, self.block_size);
        self.logical_block = self.logical_block.saturating_add(count);
        self.bytes_moved = self.bytes_moved.saturating_add(bytes);
        self.stopping = cancelled;
        if cancelled {
            self.stage = WriteStage::ClosingDonor;
            return WriteAction::CloseDonor;
        }
        let ghost after = self@;
        let action: WriteAction = self.to_chunk();
        assert(at_chunk(after, sink.log()).log == sink.log());
        action
    }

    fn take_reread<S: EventSink>(
        &mut self,
        facts: FileFacts,
        list: Vec<FileExtent>,
        flags: Result<u32, String>,
        sink: &mut S,
    ) -> (result: WriteAction)
        requires
            old(self).wf(),
            old(sink).job() == old(self)@.job_id,
            old(self)@.stage == WriteStage::RereadingTarget,
        ensures
            final(self).wf(),
            final(sink).job() == old(sink).job(),
            follows(
                (old(self)@, old(sink).log()),
                WriteEventView::TargetReread { facts, extents: list@, flags: file_report::flags_view(flags) },
                (final(self)@, final(sink).log()),
                Ok(result@),
            ),
    {
        reveal(reread);
        reveal(follows);
        let fresh: FileReport = file_report::inspect_ext4_file(
            self.path.clone(),
            facts,
            flags,
            &list,
        );
        sink.defrag_progress(self.progress(DefragPhase::RefreshingMap));
        file_report::replace_file_report(&mut self.report, fresh.clone());
        file_report::recompute_fragmentation(&mut self.report);
        self.fresh = fresh;
        self.stage = WriteStage::RefreshingMap;
        WriteAction::ReadMap
    }

    /// Ends the job.
    fn finish(&mut self) -> (action: WriteAction)
        requires
            old(self)@.index <= old(self)@.plan.relative_paths.len(),
            old(self)@.block_size > 0,
        ensures
            final(self).wf(),
            forall|log: Seq<EventView>|
                ({
                    let step = #[trigger] finished(old(self)@, log);
                    &&& final(self)@ == step.writer
                    &&& step.log == log
                    &&& step.result == Ok::<WriteActionView, ErrorView>(action@)
                }),
    {
        report_map::normalize_finished_report(&mut self.report, &self.plan.volume, &self.root);
        self.stage = WriteStage::Finished;
        WriteAction::Finish
    }

    fn take_file_map<S: EventSink>(&mut self, ranges: Vec<FsMapRange>, sink: &mut S) -> (action:
        WriteAction)
        requires
            old(self).wf(),
            old(sink).job() == old(self)@.job_id,
            old(self)@.stage == WriteStage::RefreshingMap,
        ensures
            final(self).wf(),
            final(sink).job() == old(sink).job(),
            ({
                let step = refreshed(old(self)@, old(sink).log(), ranges@);
                &&& final(self)@ == step.writer
                &&& final(sink).log() == step.log
                &&& step.result == Ok::<WriteActionView, ErrorView>(action@)
            }),
    {
        reveal(refreshed);
        let none: Vec<PhysicalRange> = Vec::new();
        assert(none@ =~= Seq::empty());
        self.draw(&ranges, &none, sink);
        sink.defrag_file_updated(
            self.fresh.clone(),
            self.report.fragmentation,
            self.bytes_moved,
        );
        self.tell_quiet(sink);
        if self.stopping {
            let ghost drawn = self@;
            let ghost told = sink.log();
            let action: WriteAction = self.finish();
            assert(finished(drawn, told).log == told);
            return action;
        }
        if !self.retried && self.fresh.excess_runs > 0 && self.fresh.physical_runs
            < self.before.physical_runs {
            self.retried = true;
            return self.to_file(sink);
        }
        self.leave_file();
        self.to_file(sink)
    }

    fn take_map<S: EventSink>(
        &mut self,
        read: Result<Vec<FsMapRange>, IoctlError>,
        sink: &mut S,
    ) -> (result: Result<WriteAction, ServiceError>)
        requires
            old(self).wf(),
            old(sink).job() == old(self)@.job_id,
            answers(
                old(self)@.stage,
                WriteEventView::MapRead(
                    match read {
                        Ok(ranges) => Ok(ranges@),
                        Err(e) => Err(e@),
                    },
                ),
            ),
        ensures
            final(self).wf(),
            final(sink).job() == old(sink).job(),
            follows(
                (old(self)@, old(sink).log()),
                WriteEventView::MapRead(
                    match read {
                        Ok(ranges) => Ok(ranges@),
                        Err(e) => Err(e@),
                    },
                ),
                (final(self)@, final(sink).log()),
                error::outcome(result),
            ),
    {
        reveal(map_read);
        reveal(follows);
        let ranges: Vec<FsMapRange> = match read {
            Err(e) => {
                return Err(report_map::map_error(e));
            },
            Ok(ranges) => ranges,
        };
        match self.stage {
            WriteStage::StagingMap => {
                let staging: Vec<PhysicalRange> = extents::extent_ranges(&self.donor_extents);
                self.draw(&ranges, &staging, sink);
                let ghost drawn = self@;
                let action: WriteAction = self.to_chunk();
                assert(at_chunk(drawn, sink.log()).log == sink.log());
                Ok(action)
            },
            WriteStage::RefreshingMap => Ok(self.take_file_map(ranges, sink)),
            _ => {
                let none: Vec<PhysicalRange> = Vec::new();
                assert(none@ =~= Seq::empty());
                self.draw(&ranges, &none, sink);
                let ghost drawn = self@;
                let action: WriteAction = self.finish();
                assert(finished(drawn, sink.log()).log == sink.log());
                Ok(action)
            },
        }
    }

    fn pass<S: EventSink>(&mut self, sink: &mut S) -> (result: WriteAction)
        requires
            old(self).wf(),
            old(sink).job() == old(self)@.job_id,
            answers(old(self)@.stage, WriteEventView::Passed),
        ensures
            final(self).wf(),
            final(sink).job() == old(sink).job(),
            follows(
                (old(self)@, old(sink).log()),
                WriteEventView::Passed,
                (final(self)@, final(sink).log()),
                Ok(result@),
            ),
    {
        reveal(follows);
        match self.stage {
            WriteStage::Starting => {
                self.stage = WriteStage::Mounting;
                WriteAction::Mount
            },
            WriteStage::EnteringFile => self.enter_file(sink),
            _ => self.enter_chunk(sink),
        }
    }

    fn take_facts<S: EventSink>(&mut self, facts: FileFacts, sink: &mut S) -> (result: WriteAction)
        requires
            old(self).wf(),
            old(sink).job() == old(self)@.job_id,
            old(self)@.stage == WriteStage::OpeningTarget,
        ensures
            final(self).wf(),
            final(sink).job() == old(sink).job(),
            follows(
                (old(self)@, old(sink).log()),
                WriteEventView::TargetOpened(facts),
                (final(self)@, final(sink).log()),
                Ok(result@),
            ),
    {
        reveal(target_opened);
        reveal(follows);
        if facts.kind != FileKind::Regular {
            self.leave_file();
            return self.to_file(sink);
        }
        self.facts = facts;
        self.stage = WriteStage::ReadingTarget;
        WriteAction::ReadTarget
    }

    fn take_close<S: EventSink>(&mut self, sink: &mut S) -> (result: WriteAction)
        requires
            old(self).wf(),
            old(sink).job() == old(self)@.job_id,
            answers(old(self)@.stage, WriteEventView::DonorClosed),
        ensures
            final(self).wf(),
            final(sink).job() == old(sink).job(),
            follows(
                (old(self)@, old(sink).log()),
                WriteEventView::DonorClosed,
                (final(self)@, final(sink).log()),
                Ok(result@),
            ),
    {
        reveal(follows);
        if self.stage == WriteStage::DroppingDonor {
            self.leave_file();
            return self.to_file(sink);
        }
        self.stage = WriteStage::RereadingTarget;
        WriteAction::RereadTarget
    }

    fn take_failure<S: EventSink>(&mut self, failure: ServiceError, sink: &mut S) -> (result: Result<
        WriteAction,
        ServiceError,
    >)
        requires
            old(self).wf(),
            old(sink).job() == old(self)@.job_id,
        ensures
            final(self).wf(),
            final(sink).job() == old(sink).job(),
            follows(
                (old(self)@, old(sink).log()),
                WriteEventView::Failed(failure@),
                (final(self)@, final(sink).log()),
                error::outcome(result),
            ),
            failure@ == ErrorView::Cancelled ==> follows(
                (old(self)@, old(sink).log()),
                WriteEventView::Cancelled,
                (final(self)@, final(sink).log()),
                error::outcome(result),
            ),
    {
        reveal(follows);
        Err(failure)
    }

    fn dispatch<S: EventSink>(&mut self, event: WriteEvent, sink: &mut S) -> (result: Result<
        WriteAction,
        ServiceError,
    >)
        requires
            old(self).wf(),
            old(sink).job() == old(self)@.job_id,
            answers(old(self)@.stage, event@),
        ensures
            final(self).wf(),
            final(sink).job() == old(sink).job(),
            follows(
                (old(self)@, old(sink).log()),
                event@,
                (final(self)@, final(sink).log()),
                error::outcome(result),
            ),
    {
        match event {
            WriteEvent::Cancelled => self.take_failure(ServiceError::Cancelled, sink),
            WriteEvent::Failed(e) => self.take_failure(e, sink),
            WriteEvent::Passed => Ok(self.pass(sink)),
            WriteEvent::Mounted(volume) => self.take_volume(volume, sink),
            WriteEvent::TargetOpened(facts) => Ok(self.take_facts(facts, sink)),
            WriteEvent::TargetRead { extents: list, flags } => Ok(
                self.take_target(list, flags, sink),
            ),
            WriteEvent::BlockSize(size) => Ok(self.take_size(size, sink)),
            WriteEvent::DonorCreated => self.begin_allocation(sink),
            WriteEvent::DonorAllocated(list) => Ok(self.take_donor(list, sink)),
            WriteEvent::DonorClosed => Ok(self.take_close(sink)),
            WriteEvent::MapRead(read) => self.take_map(read, sink),
            WriteEvent::Moved(count) => self.take_move(count, sink),
            WriteEvent::Synced { cancelled } => match self.stage {
                WriteStage::Syncing { moved } => Ok(self.take_sync(moved, cancelled, sink)),
                _ => {
                    assert(false);
                    Err(ServiceError::Cancelled)
                },
            },
            WriteEvent::TargetReread { facts, extents: list, flags } => Ok(
                self.take_reread(facts, list, flags, sink),
            ),
        }
    }

    /// Takes in what came of the last action, and says what is asked for
    /// next or why the job ends.
    pub fn advance<S: EventSink>(&mut self, event: WriteEvent, sink: &mut S) -> (result: Result<
        WriteAction,
        ServiceError,
    >)
        requires
            old(self).wf(),
            old(sink).job() == old(self)@.job_id,
            answers(old(self)@.stage, event@),
        ensures
            final(self).wf(),
            final(sink).job() == old(sink).job(),
            ({
                let step = write_step(old(self)@, old(sink).log(), event@);
                &&& final(self)@ == step.writer
                &&& final(sink).log() == step.log
                &&& error::outcome(result) == step.result
            }),
    {
        let result: Result<WriteAction, ServiceError> = self.dispatch(event, sink);
        proof {
            reveal(follows);
        }
        result
    }

    /// What the finished or stopped job leaves.
    pub fn into_execution(self) -> (execution: PlanExecution)
        requires
            self@.stage == WriteStage::Finished,
        ensures
            execution@ == (ExecutionView { report: self@.report, stopped: self@.stopping }),
    {
        PlanExecution { report: self.report, stopped: self.stopping }
    }
}

// ---------------------------------------------------------------------
// What holds of every job
// ---------------------------------------------------------------------

/// Every exchange has blocks, begins at the first block that has not moved,
/// and stays inside the file.
pub proof fn lemma_moves_stay_inside_file(w: WriterView, log: Seq<EventView>)
    requires
        w.valid(),
        w.stage == WriteStage::EnteringChunk,
    ensures
        write_step(w, log, WriteEventView::Passed).result matches Ok(
            WriteActionView::MoveExtents { start, count },
        ) && start == w.logical_block && 1 <= count && start + count <= w.total_blocks && count
            <= chunk_limit(w.block_size),
{
    reveal(chunk_entered);
}

/// Whether the writer is at work on a file that it has looked at.
pub open spec fn has_target(stage: WriteStage) -> bool {
    match stage {
        WriteStage::Starting | WriteStage::Mounting | WriteStage::EnteringFile
        | WriteStage::OpeningTarget | WriteStage::ReadingTarget | WriteStage::FinishingMap
        | WriteStage::Finished => false,
        _ => true,
    }
}

/// Whether the writer has a donor that it uses.
pub open spec fn has_donor(stage: WriteStage) -> bool {
    match stage {
        WriteStage::StagingMap | WriteStage::EnteringChunk | WriteStage::Moving
        | WriteStage::Syncing { .. } | WriteStage::ClosingDonor => true,
        _ => false,
    }
}

/// Whether the file that the writer is at work on was found fragmented and
/// fit to be moved, and its donor better than it.
pub open spec fn is_checked(w: WriterView) -> bool {
    &&& has_target(w.stage) ==> w.before.eligible_for_plan && w.before.excess_runs > 0
    &&& has_donor(w.stage) ==> w.donor_extents.len() > 0 && extents::run_count(w.donor_extents)
        < w.before.physical_runs
}

/// Every file is looked at again before its blocks move: only one that is
/// still fragmented and fit to be moved is touched, and only with a donor
/// that has fewer runs.
pub proof fn lemma_only_checked_files_move(
    w: WriterView,
    log: Seq<EventView>,
    event: WriteEventView,
)
    requires
        is_checked(w),
        answers(w.stage, event),
    ensures
        is_checked(write_step(w, log, event).writer),
        write_step(w, log, event).result matches Ok(action) && action is MoveExtents
            ==> w.before.eligible_for_plan && w.before.excess_runs > 0 && extents::run_count(
            w.donor_extents,
        ) < w.before.physical_runs,
        forall|plan: Ext4PlanView, job_id: JobId| is_checked(#[trigger] new_writer(plan, job_id)),
{
    match event {
        WriteEventView::Mounted(_) => reveal(mounted),
        WriteEventView::Passed => {
            reveal(file_entered);
            reveal(chunk_entered);
        },
        WriteEventView::TargetOpened(_) => reveal(target_opened),
        WriteEventView::TargetRead { .. } => reveal(target_read),
        WriteEventView::BlockSize(_) => reveal(size_read),
        WriteEventView::DonorCreated => reveal(donor_created),
        WriteEventView::DonorAllocated(_) => reveal(donor_allocated),
        WriteEventView::Moved(_) => reveal(moved),
        WriteEventView::Synced { .. } => reveal(synced),
        WriteEventView::TargetReread { .. } => reveal(reread),
        WriteEventView::MapRead(_) => {
            reveal(map_read);
            reveal(refreshed);
        },
        _ => {},
    }
}

/// The display is told of the whole donor before the first blocks of a file
/// move: a file is only begun from the map that shows its donor.
pub proof fn lemma_donor_is_shown_before_moves(
    w: WriterView,
    log: Seq<EventView>,
    event: WriteEventView,
)
    requires
        answers(w.stage, event),
        w.stage != WriteStage::EnteringChunk,
        write_step(w, log, event).writer.stage == WriteStage::EnteringChunk,
    ensures
        w.stage is Syncing || (w.stage == WriteStage::StagingMap && (event matches
            WriteEventView::MapRead(Ok(ranges)) && write_step(w, log, event).log == log.push(
            EventView::MapUpdated {
                job_id: w.job_id,
                full_snapshot: true,
                bins: report_map::redrawn(
                    w.report,
                    ranges,
                    extents::filled_ranges(w.donor_extents),
                ).map,
            },
        ))),
{
    match event {
        WriteEventView::Mounted(_) => reveal(mounted),
        WriteEventView::Passed => reveal(file_entered),
        WriteEventView::TargetOpened(_) => reveal(target_opened),
        WriteEventView::TargetRead { .. } => reveal(target_read),
        WriteEventView::BlockSize(_) => reveal(size_read),
        WriteEventView::DonorCreated => reveal(donor_created),
        WriteEventView::DonorAllocated(_) => reveal(donor_allocated),
        WriteEventView::Moved(_) => reveal(moved),
        WriteEventView::Synced { .. } => reveal(synced),
        WriteEventView::TargetReread { .. } => reveal(reread),
        WriteEventView::MapRead(_) => {
            reveal(map_read);
            reveal(refreshed);
        },
        _ => {},
    }
}

/// Blocks that moved are not asked for again: the next exchange of the file
/// begins behind them.
pub proof fn lemma_moved_blocks_stay_moved(
    w: WriterView,
    log: Seq<EventView>,
    count: u64,
    cancelled: bool,
)
    requires
        w.stage == (WriteStage::Syncing { moved: count }),
        w.logical_block + count <= w.total_blocks,
    ensures
        ({
            let step = write_step(w, log, WriteEventView::Synced { cancelled });
            &&& step.writer.logical_block == w.logical_block + count
            &&& step.writer.total_blocks == w.total_blocks
            &&& step.writer.stage == WriteStage::EnteringChunk <==> !cancelled && w.logical_block
                + count < w.total_blocks
        }),
{
    reveal(synced);
}

/// A file is tried at most twice: after a second try the writer goes on to
/// another file, or ends.
pub proof fn lemma_files_are_tried_at_most_twice(
    w: WriterView,
    log: Seq<EventView>,
    ranges: Seq<FsMapRange>,
)
    requires
        w.stage == WriteStage::RefreshingMap,
    ensures
        ({
            let step = write_step(w, log, WriteEventView::MapRead(Ok(ranges)));
            &&& step.writer.index == w.index ==> step.writer.retried && !w.retried || step.result
                == Ok::<WriteActionView, ErrorView>(WriteActionView::Finish)
            &&& w.retried && !w.stopping ==> step.writer.index == w.index + 1
        }),
{
    reveal(map_read);
    reveal(refreshed);
}

/// Whether a job only winds up: it was cancelled and finishes its file.
pub open spec fn winds_up(w: WriterView) -> bool {
    w.stopping && (w.stage == WriteStage::ClosingDonor || w.stage == WriteStage::RereadingTarget
        || w.stage == WriteStage::RefreshingMap || w.stage == WriteStage::Finished)
}

/// A job that is cancelled while it moves a file moves nothing more: it
/// closes the donor, looks at the file once more, draws the map, and ends.
pub proof fn lemma_cancelled_job_winds_up(
    w: WriterView,
    log: Seq<EventView>,
    event: WriteEventView,
)
    requires
        answers(w.stage, event),
        winds_up(w) || event == (WriteEventView::Synced { cancelled: true }),
    ensures
        ({
            let step = write_step(w, log, event);
            &&& step.result is Ok ==> winds_up(step.writer)
            &&& step.result matches Ok(action) ==> !(action is MoveExtents) && !(action
                is OpenTarget) && !(action is CreateDonor)
        }),
{
    reveal(synced);
    reveal(reread);
    reveal(map_read);
    reveal(refreshed);
}

/// The counts of a report follow its files whenever a file was rewritten.
pub proof fn lemma_counts_follow_rewritten_files(
    w: WriterView,
    log: Seq<EventView>,
    facts: FileFacts,
    list: Seq<FileExtent>,
    flags: Result<u32, Seq<char>>,
)
    requires
        w.stage == WriteStage::RereadingTarget,
    ensures
        ({
            let report = write_step(
                w,
                log,
                WriteEventView::TargetReread { facts, extents: list, flags },
            ).writer.report;
            report.fragmentation == file_report::completed(
                file_report::counted_all(report.files),
                report.coverage.scanned_allocated_bytes,
            )
        }),
{
    reveal(reread);
}

// ---------------------------------------------------------------------
// Donors
// ---------------------------------------------------------------------

/// The error number of an operation that the filesystem does not have.
pub const EOPNOTSUPP: i32 = 95;

/// The error number of an argument that is not understood.
pub const EINVAL: i32 = 22;

/// Whether a donor that could not be made without a name can be made with
/// one: the filesystem or the kernel does not know nameless files.
pub fn needs_named_donor(code: Option<i32>) -> (yes: bool)
    ensures
        yes == (code == Some(EOPNOTSUPP) || code == Some(EINVAL)),
{
    match code {
        Some(code) => code == EOPNOTSUPP || code == EINVAL,
        None => false,
    }
}

/// The name of a donor, from the number of the process and a serial number.
pub open spec fn donor_name_of(process: u32, serial: u64) -> Seq<char> {
    ".defragger-"@ + text::decimal(process as nat) + "-"@ + text::decimal(serial as nat)
}

/// Names a donor.
pub fn donor_name(process: u32, serial: u64) -> (name: String)
    ensures
        name@ == donor_name_of(process, serial),
{
    let mut name: String = ".defragger-".to_owned();
    text::push_decimal(&mut name, process as u64);
    text::push_text(&mut name, "-");
    text::push_decimal(&mut name, serial);
    name
}

} // verus!
