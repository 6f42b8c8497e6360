//! What holds of every run of the ext4 writer: which files it works on, that
//! a file is moved whole, and what is told and counted on the way.

use vstd::prelude::*;

use crate::arith;
use crate::domain::{DefragPhase, EventView, JobId, MountState, VolumeView};
use crate::error::{ErrorView, IoctlErrorView};
use crate::ext4_writer;
use crate::ext4_writer::{WriteActionView, WriteEventView, WriteStage, WriterView};
use crate::extents;
use crate::file_report;
use crate::file_report::{FileFacts, FileKind};
use crate::linux::{FileExtent, FsMapRange};
use crate::path;
use crate::plan::Ext4PlanView;
use crate::report_map;

verus! {

// ---------------------------------------------------------------------
// A file is moved whole
// ---------------------------------------------------------------------

proof fn lemma_whole_blocks(length: int, size: int, blocks: int)
    requires
        size > 0,
        length >= 0,
        blocks * size >= length,
        blocks * size < length + size,
    ensures
        blocks >= 0,
        (blocks * size) / size == blocks,
        (blocks * size) % size == 0,
{
    assert(blocks >= 0) by (nonlinear_arith)
        requires
            blocks * size >= length,
            length >= 0,
            size > 0,
    ;
    vstd::arithmetic::div_mod::lemma_div_multiples_vanish(blocks, size);
    vstd::arithmetic::div_mod::lemma_mod_multiples_basic(blocks, size);
    assert(size * blocks == blocks * size) by (nonlinear_arith);
}

/// The donor of a file has whole blocks, as many as it takes to hold the file
/// and no more: its length is a multiple of the block size, at least that of
/// the file and less than a block above it. As many blocks are to be moved as
/// the donor has. A donor is refused only where no such length can be asked
/// for.
pub proof fn lemma_donor_holds_the_file(
    w: WriterView,
    log: Seq<EventView>,
    size: u64,
    then: Seq<EventView>,
)
    requires
        w.stage == WriteStage::ReadingBlockSize,
        size > 0,
    ensures
        ({
            let sized = ext4_writer::write_step(w, log, WriteEventView::BlockSize(size)).writer;
            let made = ext4_writer::write_step(sized, then, WriteEventView::DonorCreated);
            &&& sized.facts == w.facts
            &&& sized.before == w.before
            &&& sized.path == w.path
            &&& sized.block_size == size
            &&& sized.logical_block == 0
            &&& sized.stage == WriteStage::CreatingDonor
            &&& match made.result {
                Ok(action) => {
                    &&& action matches WriteActionView::AllocateDonor { length } && {
                        &&& length % size == 0
                        &&& w.facts.length <= length < w.facts.length + size
                        &&& length <= i64::MAX
                        &&& made.writer.total_blocks * size == length
                    }
                    &&& made.writer.stage == WriteStage::AllocatingDonor
                },
                Err(_) => w.facts.length + size > i64::MAX,
            }
            &&& w.facts.length > i64::MAX ==> made.result is Err
        }),
{
    reveal(ext4_writer::size_read);
    reveal(ext4_writer::donor_created);
    let blocks = arith::ceil_div(w.facts.length as int, size as int);
    arith::lemma_ceil_div(w.facts.length as int, size as int);
    lemma_whole_blocks(w.facts.length as int, size as int, blocks);
    let sized = ext4_writer::write_step(w, log, WriteEventView::BlockSize(size)).writer;
    if blocks * size <= u64::MAX {
        assert(blocks <= u64::MAX) by (nonlinear_arith)
            requires
                blocks * size <= u64::MAX,
                size >= 1,
                blocks >= 0,
        ;
        assert(sized.total_blocks == blocks);
    }
}

/// Whether so many blocks hold a file of a length, and fewer do not.
#[verifier::opaque]
pub open spec fn is_whole(length: u64, size: u64, blocks: u64) -> bool {
    length <= blocks * size < length + size
}

/// Whether no number of blocks holds a file of a length and can be counted in
/// bytes.
#[verifier::opaque]
pub open spec fn is_too_long(length: u64, size: u64) -> bool {
    arith::ceil_div(length as int, size as int) * size > u64::MAX
}

/// Whether the blocks that are to be moved hold the whole file and no block
/// more, and a file that is done with was moved to its end.
pub open spec fn moves_whole(w: WriterView) -> bool {
    &&& match w.stage {
        WriteStage::AllocatingDonor | WriteStage::StagingMap | WriteStage::EnteringChunk
        | WriteStage::Moving | WriteStage::Syncing { .. } | WriteStage::ClosingDonor => {
            is_whole(w.facts.length, w.block_size, w.total_blocks)
        },
        WriteStage::CreatingDonor => {
            ||| is_too_long(w.facts.length, w.block_size)
            ||| is_whole(w.facts.length, w.block_size, w.total_blocks)
        },
        _ => true,
    }
    &&& w.stage == WriteStage::CreatingDonor || w.stage == WriteStage::AllocatingDonor || w.stage
        == WriteStage::StagingMap ==> w.logical_block == 0
    &&& w.stage == WriteStage::ClosingDonor && !w.stopping ==> w.logical_block >= w.total_blocks
}

proof fn lemma_sized(w: WriterView, log: Seq<EventView>, size: u64)
    requires
        size > 0,
    ensures
        moves_whole(ext4_writer::write_step(w, log, WriteEventView::BlockSize(size)).writer),
{
    reveal(ext4_writer::size_read);
    reveal(is_whole);
    reveal(is_too_long);
    let blocks = arith::ceil_div(w.facts.length as int, size as int);
    arith::lemma_ceil_div(w.facts.length as int, size as int);
    lemma_whole_blocks(w.facts.length as int, size as int, blocks);
    assert(blocks * size <= u64::MAX ==> blocks <= u64::MAX) by (nonlinear_arith)
        requires
            size >= 1,
            blocks >= 0,
    ;
}

proof fn lemma_created(w: WriterView, log: Seq<EventView>)
    requires
        moves_whole(w),
        w.stage == WriteStage::CreatingDonor,
    ensures
        ext4_writer::write_step(w, log, WriteEventView::DonorCreated).result is Ok ==> moves_whole(
            ext4_writer::write_step(w, log, WriteEventView::DonorCreated).writer,
        ),
{
    reveal(ext4_writer::donor_created);
    reveal(is_too_long);
}

/// Blocks up to the end of what holds a file hold every byte of it.
proof fn lemma_enough_blocks(length: u64, size: u64, blocks: u64, moved: u64)
    requires
        is_whole(length, size, blocks),
        moved >= blocks,
    ensures
        moved * size >= length,
{
    reveal(is_whole);
    assert(moved * size >= blocks * size) by (nonlinear_arith)
        requires
            moved >= blocks,
            size >= 0,
    ;
}

proof fn lemma_still_moves_whole(w: WriterView, log: Seq<EventView>, event: WriteEventView)
    requires
        w.valid(),
        moves_whole(w),
        ext4_writer::answers(w.stage, event),
        !(event is BlockSize),
        !(event is DonorCreated),
        !(event is Synced),
        !(event is MapRead),
    ensures
        ext4_writer::write_step(w, log, event).result is Ok ==> moves_whole(
            ext4_writer::write_step(w, log, event).writer,
        ),
{
    match event {
        WriteEventView::Mounted(_) => reveal(ext4_writer::mounted),
        WriteEventView::Passed => {
            reveal(ext4_writer::file_entered);
            reveal(ext4_writer::chunk_entered);
        },
        WriteEventView::TargetOpened(_) => reveal(ext4_writer::target_opened),
        WriteEventView::TargetRead { .. } => reveal(ext4_writer::target_read),
        WriteEventView::DonorAllocated(_) => reveal(ext4_writer::donor_allocated),
        WriteEventView::Moved(_) => reveal(ext4_writer::moved),
        WriteEventView::TargetReread { .. } => reveal(ext4_writer::reread),
        _ => {},
    }
}

proof fn lemma_synced(w: WriterView, log: Seq<EventView>, cancelled: bool)
    requires
        moves_whole(w),
        w.stage is Syncing,
    ensures
        moves_whole(
            ext4_writer::write_step(w, log, WriteEventView::Synced { cancelled }).writer,
        ),
{
    reveal(ext4_writer::synced);
}

proof fn lemma_mapped(
    w: WriterView,
    log: Seq<EventView>,
    read: Result<Seq<FsMapRange>, IoctlErrorView>,
)
    requires
        moves_whole(w),
    ensures
        ext4_writer::write_step(w, log, WriteEventView::MapRead(read)).result is Ok ==> moves_whole(
            ext4_writer::write_step(w, log, WriteEventView::MapRead(read)).writer,
        ),
{
    reveal(ext4_writer::map_read);
    reveal(ext4_writer::refreshed);
}

/// A file is moved whole: whatever the events, a writer that closes a donor
/// without having been cancelled has moved blocks that hold every byte of the
/// file.
pub proof fn lemma_file_is_moved_whole(w: WriterView, log: Seq<EventView>, event: WriteEventView)
    requires
        w.valid(),
        moves_whole(w),
        ext4_writer::answers(w.stage, event),
    ensures
        ({
            let step = ext4_writer::write_step(w, log, event);
            &&& step.result is Ok ==> moves_whole(step.writer)
            &&& step.result is Ok && step.writer.stage == WriteStage::ClosingDonor
                && !step.writer.stopping ==> step.writer.logical_block * step.writer.block_size
                >= step.writer.facts.length
        }),
        forall|plan: Ext4PlanView, job_id: JobId|
            moves_whole(#[trigger] ext4_writer::new_writer(plan, job_id)),
{
    let step = ext4_writer::write_step(w, log, event);
    match event {
        WriteEventView::BlockSize(size) => lemma_sized(w, log, size),
        WriteEventView::DonorCreated => lemma_created(w, log),
        WriteEventView::Synced { cancelled } => lemma_synced(w, log, cancelled),
        WriteEventView::MapRead(read) => lemma_mapped(w, log, read),
        _ => lemma_still_moves_whole(w, log, event),
    }
    if step.result is Ok && step.writer.stage == WriteStage::ClosingDonor && !step.writer.stopping {
        lemma_enough_blocks(
            step.writer.facts.length,
            step.writer.block_size,
            step.writer.total_blocks,
            step.writer.logical_block,
        );
    }
}

/// A chunk holds as much as one exchange is asked to move at most, or what is
/// left of the file: it is short of sixteen mebibytes by less than a block
/// unless it ends the file, and longer only where one block is.
pub proof fn lemma_chunks_are_as_long_as_they_may_be(w: WriterView, log: Seq<EventView>)
    requires
        w.valid(),
        w.stage == WriteStage::EnteringChunk,
    ensures
        ({
            let step = ext4_writer::write_step(w, log, WriteEventView::Passed);
            &&& step.writer == (WriterView { stage: WriteStage::Moving, ..w })
            &&& step.result matches Ok(WriteActionView::MoveExtents { start, count }) && {
                &&& start == w.logical_block
                &&& 1 <= count <= w.total_blocks - start
                &&& count > 1 ==> count * w.block_size <= 16 * 1024 * 1024
                &&& count < w.total_blocks - start ==> (count + 1) * w.block_size > 16 * 1024 * 1024
            }
        }),
{
    reveal(ext4_writer::chunk_entered);
    let size = w.block_size as int;
    let limit = 0x100_0000int / size;
    vstd::arithmetic::div_mod::lemma_fundamental_div_mod(0x100_0000, size);
    let count = ext4_writer::chunk_blocks(w);
    assert(limit >= 0) by {
        vstd::arithmetic::div_mod::lemma_div_pos_is_pos(0x100_0000, size);
    }
    if count > 1 {
        assert(count <= limit);
        assert(count * size <= size * limit) by (nonlinear_arith)
            requires
                count <= limit,
                size > 0,
        ;
    }
    if count < w.total_blocks - w.logical_block {
        assert(count >= limit);
        assert((count + 1) * size >= size * limit + size) by (nonlinear_arith)
            requires
                count >= limit,
                size > 0,
        ;
    }
}

/// Before blocks are exchanged, the places on the device that they are read
/// from and written to are announced: those of the same part of the file and
/// of its donor.
pub proof fn lemma_exchanges_are_announced(w: WriterView, log: Seq<EventView>)
    requires
        w.valid(),
        w.stage == WriteStage::EnteringChunk,
        w.total_blocks * w.block_size <= u64::MAX,
    ensures
        ({
            let step = ext4_writer::write_step(w, log, WriteEventView::Passed);
            step.result matches Ok(WriteActionView::MoveExtents { start, count }) && {
                let at = (start * w.block_size) as u64;
                let length = (count * w.block_size) as u64;
                &&& step.log.len() == log.len() + 2
                &&& step.log.take(log.len() as int) == log
                &&& step.log[log.len() as int] == (EventView::DefragPendingIo {
                    job_id: w.job_id,
                    reading: extents::mapped_ranges(w.before_extents, at, length),
                    writing: extents::mapped_ranges(w.donor_extents, at, length),
                })
                &&& step.log.last() matches EventView::DefragProgress(p) && p.phase
                    == DefragPhase::MovingExtents && p.job_id == w.job_id && p.bytes_moved
                    == w.bytes_moved && p.files_completed == w.files_completed && p.current_path
                    == Some(w.path) && p.bytes_total == w.plan.summary.estimated_rewrite_bytes
                    && p.files_total == w.plan.relative_paths.len() as u64
            }
        }),
{
    reveal(ext4_writer::chunk_entered);
    let size = w.block_size as int;
    let count = ext4_writer::chunk_blocks(w);
    assert(0 <= w.logical_block * size <= w.total_blocks * size) by (nonlinear_arith)
        requires
            0 <= w.logical_block <= w.total_blocks,
            size > 0,
    ;
    assert(0 <= count * size <= w.total_blocks * size) by (nonlinear_arith)
        requires
            0 <= count <= w.total_blocks,
            size > 0,
    ;
    let step = ext4_writer::write_step(w, log, WriteEventView::Passed);
    assert(step.log.take(log.len() as int) =~= log);
}

/// What was exchanged is on the device before anything else happens: the
/// range that is written out is the one that moved. An exchange that moved
/// nothing ends the job. The blocks that moved are counted, in blocks and in
/// bytes.
pub proof fn lemma_moved_ranges_are_synced(
    w: WriterView,
    log: Seq<EventView>,
    count: u64,
    then: Seq<EventView>,
    cancelled: bool,
)
    requires
        w.stage == WriteStage::Moving,
        w.logical_block + count <= w.total_blocks,
        w.total_blocks * w.block_size <= u64::MAX,
        w.bytes_moved + count * w.block_size <= u64::MAX,
    ensures
        ({
            let step = ext4_writer::write_step(w, log, WriteEventView::Moved(count));
            let done = ext4_writer::write_step(
                step.writer,
                then,
                WriteEventView::Synced { cancelled },
            );
            if count == 0 {
                step.result is Err
            } else {
                &&& step.result matches Ok(WriteActionView::SyncRange { offset, length }) && offset
                    == w.logical_block * w.block_size && length == count * w.block_size
                &&& done.result is Ok
                &&& done.writer.logical_block == w.logical_block + count
                &&& done.writer.bytes_moved == w.bytes_moved + count * w.block_size
                &&& done.writer.index == w.index
                &&& done.writer.files_completed == w.files_completed
                &&& done.writer.stopping == cancelled
                &&& done.writer.stage == (if cancelled || w.logical_block + count
                    == w.total_blocks {
                    WriteStage::ClosingDonor
                } else {
                    WriteStage::EnteringChunk
                })
            }
        }),
{
    reveal(ext4_writer::moved);
    reveal(ext4_writer::synced);
    assert(0 <= w.logical_block * w.block_size <= w.total_blocks * w.block_size)
        by (nonlinear_arith)
        requires
            0 <= w.logical_block <= w.total_blocks,
            w.block_size >= 0,
    ;
    assert(0 <= count * w.block_size <= w.total_blocks * w.block_size) by (nonlinear_arith)
        requires
            0 <= count <= w.total_blocks,
            w.block_size >= 0,
    ;
}

// ---------------------------------------------------------------------
// Which files are worked on
// ---------------------------------------------------------------------

/// The files of a plan are opened in its order, each below the root of the
/// mounted filesystem.
pub proof fn lemma_files_are_opened_in_order(
    w: WriterView,
    log: Seq<EventView>,
    volume: VolumeView,
    root: Seq<u8>,
)
    requires
        w.valid(),
    ensures
        w.stage == WriteStage::EnteringFile ==> ({
            let step = ext4_writer::write_step(w, log, WriteEventView::Passed);
            let path = path::joined(w.root, w.plan.relative_paths[w.index as int]);
            &&& step.result == Ok::<WriteActionView, ErrorView>(
                WriteActionView::OpenTarget { path },
            )
            &&& step.writer == (WriterView { stage: WriteStage::OpeningTarget, path, ..w })
            &&& step.log.len() == log.len() + 1
            &&& step.log.last() matches EventView::DefragProgress(p) && p.phase
                == DefragPhase::Revalidating && p.current_path == Some(path) && p.files_completed
                == w.files_completed && p.bytes_moved == w.bytes_moved
        }),
        volume.mount_point == Some(root) && w.plan.volume.mount_point is Some ==> ({
            let step = ext4_writer::write_step(w, log, WriteEventView::Mounted(volume));
            &&& step.writer.root == root
            &&& step.writer.index == w.index
            &&& step.writer.report.volume == volume
            &&& step.result == Ok::<WriteActionView, ErrorView>(
                if w.index < w.plan.relative_paths.len() {
                    WriteActionView::Checkpoint
                } else {
                    WriteActionView::ReadMap
                },
            )
        }),
        volume.mount_point is None ==> ext4_writer::write_step(
            w,
            log,
            WriteEventView::Mounted(volume),
        ).result is Err,
{
    reveal(ext4_writer::file_entered);
    reveal(ext4_writer::mounted);
}

/// Whether a writer is done with the file at its place and has turned to the
/// next, or to the end where there is none.
pub open spec fn has_passed(before: WriterView, after: WriterView) -> bool {
    &&& after.index == before.index + 1
    &&& !after.retried
    &&& before.files_completed < u64::MAX ==> after.files_completed == before.files_completed + 1
    &&& after.bytes_moved == before.bytes_moved
    &&& after.stage == (if before.index + 1 < before.plan.relative_paths.len() {
        WriteStage::EnteringFile
    } else {
        WriteStage::FinishingMap
    })
}

/// A file is worked on exactly where it is still a regular file that can be
/// moved and has more runs than it needs; any other is passed over. What is
/// worked on is the file as it was read last.
pub proof fn lemma_fragmented_files_are_worked_on(
    w: WriterView,
    log: Seq<EventView>,
    facts: FileFacts,
    list: Seq<FileExtent>,
    flags: Result<u32, Seq<char>>,
)
    ensures
        ({
            let opened = ext4_writer::write_step(w, log, WriteEventView::TargetOpened(facts));
            &&& opened.log.len() >= log.len()
            &&& if facts.kind == FileKind::Regular {
                &&& opened.writer == (WriterView { facts, stage: WriteStage::ReadingTarget, ..w })
                &&& opened.result == Ok::<WriteActionView, ErrorView>(WriteActionView::ReadTarget)
            } else {
                has_passed(w, opened.writer) && opened.result is Ok
            }
        }),
        ({
            let report = file_report::ext4_file_report(w.path, w.facts, flags, list);
            let step = ext4_writer::write_step(
                w,
                log,
                WriteEventView::TargetRead { extents: list, flags },
            );
            if report.eligible_for_plan && report.physical_runs > report.minimum_runs {
                &&& step.result == Ok::<WriteActionView, ErrorView>(WriteActionView::ReadBlockSize)
                &&& step.writer == (WriterView {
                    before: report,
                    before_extents: list,
                    stage: WriteStage::ReadingBlockSize,
                    ..w
                })
            } else {
                has_passed(w, step.writer) && step.result is Ok
            }
        }),
{
    reveal(ext4_writer::target_opened);
    reveal(ext4_writer::target_read);
}

/// A donor is used exactly where it has extents and fewer runs than the file;
/// otherwise it is closed and the file is passed over. At the first try it is
/// made beside the file, at the second at the root of the filesystem.
pub proof fn lemma_better_donors_are_used(
    w: WriterView,
    log: Seq<EventView>,
    list: Seq<FileExtent>,
    size: u64,
    then: Seq<EventView>,
)
    requires
        size > 0,
    ensures
        ({
            let step = ext4_writer::write_step(w, log, WriteEventView::DonorAllocated(list));
            if list.len() > 0 && extents::run_count(list) < w.before.physical_runs {
                &&& step.result == Ok::<WriteActionView, ErrorView>(WriteActionView::ReadMap)
                &&& step.writer == (WriterView {
                    donor_extents: list,
                    stage: WriteStage::StagingMap,
                    ..w
                })
            } else {
                &&& step.result == Ok::<WriteActionView, ErrorView>(WriteActionView::CloseDonor)
                &&& has_passed(
                    w,
                    ext4_writer::write_step(step.writer, then, WriteEventView::DonorClosed).writer,
                )
            }
        }),
        ({
            let step = ext4_writer::write_step(w, log, WriteEventView::BlockSize(size));
            step.result matches Ok(WriteActionView::CreateDonor { directory }) && {
                &&& w.retried || path::parent_of(w.path) is None ==> directory == w.root
                &&& !w.retried && path::parent_of(w.path) is Some ==> path::parent_of(w.path)
                    == Some(directory)
            }
        }),
{
    reveal(ext4_writer::donor_allocated);
    reveal(ext4_writer::size_read);
}

/// After a file was rewritten, the display learns of the map, of the file as
/// it is now, and that nothing is read or written any more. A cancelled job
/// then ends. Otherwise a file that became better and is still fragmented is
/// tried once more, and every other file is passed.
pub proof fn lemma_rewritten_files_are_told(
    w: WriterView,
    log: Seq<EventView>,
    ranges: Seq<FsMapRange>,
)
    requires
        w.stage == WriteStage::RefreshingMap,
        w.index < w.plan.relative_paths.len(),
    ensures
        ({
            let step = ext4_writer::write_step(w, log, WriteEventView::MapRead(Ok(ranges)));
            let told = seq![
                EventView::MapUpdated {
                    job_id: w.job_id,
                    full_snapshot: true,
                    bins: report_map::drawn(w.report, ranges, Seq::empty()),
                },
                EventView::DefragFileUpdated {
                    job_id: w.job_id,
                    file: w.fresh,
                    fragmentation: w.report.fragmentation,
                    bytes_moved: w.bytes_moved,
                },
                EventView::DefragPendingIo {
                    job_id: w.job_id,
                    reading: Seq::empty(),
                    writing: Seq::empty(),
                },
            ];
            let again = !w.retried && w.fresh.excess_runs > 0 && w.fresh.physical_runs
                < w.before.physical_runs;
            &&& step.result is Ok
            &&& (log + told).is_prefix_of(step.log)
            &&& if w.stopping {
                step.result == Ok::<WriteActionView, ErrorView>(WriteActionView::Finish)
                    && step.writer.stage == WriteStage::Finished
            } else if again {
                &&& step.writer.index == w.index
                &&& step.writer.retried
                &&& step.writer.stage == WriteStage::EnteringFile
                &&& step.writer.files_completed == w.files_completed
            } else {
                has_passed(w, step.writer)
            }
        }),
{
    reveal(ext4_writer::map_read);
    reveal(ext4_writer::refreshed);
    let step = ext4_writer::write_step(w, log, WriteEventView::MapRead(Ok(ranges)));
    let drawn = report_map::drawn(w.report, ranges, Seq::empty());
    let first = EventView::MapUpdated { job_id: w.job_id, full_snapshot: true, bins: drawn };
    let second = EventView::DefragFileUpdated {
        job_id: w.job_id,
        file: w.fresh,
        fragmentation: w.report.fragmentation,
        bytes_moved: w.bytes_moved,
    };
    let third = EventView::DefragPendingIo {
        job_id: w.job_id,
        reading: Seq::empty(),
        writing: Seq::empty(),
    };
    assert(log + seq![first, second, third] =~= log.push(first).push(second).push(third));
}

/// Once a file was moved it is looked at again, and the report has it as it
/// is now: in place of the report on the same path, and no other report
/// changes.
pub proof fn lemma_report_follows_moved_file(
    w: WriterView,
    log: Seq<EventView>,
    facts: FileFacts,
    list: Seq<FileExtent>,
    flags: Result<u32, Seq<char>>,
    i: int,
)
    requires
        w.stage == WriteStage::RereadingTarget,
        0 <= i < w.report.files.len(),
        forall|k: int|
            0 <= k < w.report.files.len() && k != i ==> !path::same_path(
                (#[trigger] w.report.files[k]).path,
                w.path,
            ),
    ensures
        ({
            let event = WriteEventView::TargetReread { facts, extents: list, flags };
            let step = ext4_writer::write_step(w, log, event);
            let now = file_report::ext4_file_report(w.path, facts, flags, list);
            &&& step.writer.fresh == now
            &&& step.writer.before == w.before
            &&& step.writer.index == w.index
            &&& step.writer.report.files == (if path::same_path(w.report.files[i].path, w.path) {
                w.report.files.update(i, now)
            } else {
                w.report.files
            })
            &&& step.result == Ok::<WriteActionView, ErrorView>(WriteActionView::ReadMap)
        }),
{
    reveal(ext4_writer::reread);
    let now = file_report::ext4_file_report(w.path, facts, flags, list);
    file_report::lemma_replacing_keeps_others(w.report.files, now);
    let files = file_report::replaced(w.report.files, now);
    if path::same_path(w.report.files[i].path, w.path) {
        assert(file_report::is_first_on(w.report.files, now.path, i));
        assert(files =~= w.report.files.update(i, now));
    } else {
        assert(files =~= w.report.files);
    }
}

/// A plan is executed to its end: when every file was passed, nothing is
/// announced as read or written any more, the map is read once more, the
/// display learns of it, and the writer is done.
pub proof fn lemma_plan_is_executed_to_its_end(
    w: WriterView,
    log: Seq<EventView>,
    ranges: Seq<FsMapRange>,
)
    requires
        w.stage == WriteStage::FinishingMap,
    ensures
        ({
            let step = ext4_writer::write_step(w, log, WriteEventView::MapRead(Ok(ranges)));
            &&& step.result == Ok::<WriteActionView, ErrorView>(WriteActionView::Finish)
            &&& step.writer.stage == WriteStage::Finished
            &&& step.log == log.push(
                EventView::MapUpdated {
                    job_id: w.job_id,
                    full_snapshot: true,
                    bins: report_map::drawn(w.report, ranges, Seq::empty()),
                },
            )
            &&& step.writer.report.map == report_map::drawn(w.report, ranges, Seq::empty())
            &&& step.writer.report.files.len() == w.report.files.len()
            &&& w.plan.volume.mount_state != MountState::Unmounted ==> step.writer.report.files
                == w.report.files
            &&& step.writer.report.fragmentation == w.report.fragmentation
        }),
{
    reveal(ext4_writer::map_read);
}

} // verus!
