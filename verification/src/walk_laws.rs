//! What holds of every walk over a mounted filesystem: that it reaches every
//! directory and every file of its mount, and what its report says of them.

use vstd::prelude::*;
use vstd::utf8::*;

use crate::domain::{AnalysisCompleteness, AnalysisPhase, EventView};
use crate::error::ErrorView;
use crate::file_report;
use crate::file_report::{FileFacts, FileKind};
use crate::linux::FileExtent;
use crate::path;
use crate::plan_laws;
use crate::scan;
use crate::scan::{ActionView, ScanEventView, ScanKind, ScanStage, ScanView, Turn};

verus! {

// ---------------------------------------------------------------------
// Entries
// ---------------------------------------------------------------------

/// Whether a walk has turned to the next entry of its directory, with the
/// same directories to list and the same files as before.
pub open spec fn goes_on(before: ScanView, turn: Turn) -> bool {
    &&& turn.result == Ok::<ActionView, ErrorView>(ActionView::ReadEntry)
    &&& turn.scan.stage == ScanStage::ReadingEntry
    &&& turn.scan.stack == before.stack
    &&& turn.scan.files == before.files
    &&& turn.scan.pending == before.pending
    &&& turn.scan.map == before.map
}

/// A directory on the mount of the volume is put among the directories that
/// are still to be listed; a regular file there that was not seen under
/// another name is mapped, at its path and with its length; anything else is
/// passed.
pub proof fn lemma_entries_of_the_mount_are_taken(
    s: ScanView,
    log: Seq<EventView>,
    facts: FileFacts,
    id: Option<u64>,
    now: u64,
)
    requires
        s.stage == (ScanStage::ReadingMountId { facts }),
    ensures
        ({
            let turn = scan::scan_turn(s, log, ScanEventView::MountId(id), now);
            let seen = s.seen.contains(scan::inode_key(facts.device, facts.inode));
            let here = id is Some && id == s.volume.mount_id;
            &&& turn.log == log
            &&& if here && facts.kind == FileKind::Directory {
                &&& turn.scan.stack == s.stack.push(s.path)
                &&& turn.scan.files == s.files
                &&& turn.scan.coverage == s.coverage
                &&& turn.scan.seen == s.seen
                &&& turn.result == Ok::<ActionView, ErrorView>(ActionView::ReadEntry)
            } else if here && facts.kind == FileKind::Regular && !seen {
                &&& turn.scan.stack == s.stack
                &&& turn.scan.files == s.files
                &&& turn.scan.path == s.path
                &&& turn.scan.stage == (ScanStage::MappingFile { facts })
                &&& turn.scan.seen.contains(scan::inode_key(facts.device, facts.inode))
                &&& turn.result == Ok::<ActionView, ErrorView>(
                    ActionView::MapFile { path: s.path, length: facts.length },
                )
            } else {
                &&& goes_on(s, turn)
                &&& turn.scan.seen == s.seen
                &&& id is Some ==> turn.scan.coverage == s.coverage
                &&& id is None && s.coverage.skipped_entries < u64::MAX
                    ==> turn.scan.coverage.skipped_entries == s.coverage.skipped_entries + 1
            }
        }),
{
}

/// Every entry of a directory is looked at, under the path that it was listed
/// with: after a checkpoint what the system says of it is asked for, and then
/// its mount. Only symbolic links are passed, and on ext4 what stands at the
/// place of recovered files or is an active swap area.
pub proof fn lemma_entries_are_looked_at(
    s: ScanView,
    log: Seq<EventView>,
    name: Seq<u8>,
    facts: FileFacts,
    now: u64,
)
    ensures
        s.stage == ScanStage::ReadingEntry ==> scan::scan_turn(
            s,
            log,
            ScanEventView::Entry(name),
            now,
        ) == (Turn {
            scan: ScanView { stage: ScanStage::AtEntry { readable: true }, path: name, ..s },
            log,
            result: Ok(ActionView::Checkpoint),
        }),
        s.stage == (ScanStage::AtEntry { readable: true }) ==> ({
            let turn = scan::scan_turn(s, log, ScanEventView::Passed, now);
            let recovered = s.volume.mount_point matches Some(root) && path::same_path(
                s.path,
                path::joined(root, encode_utf8("lost+found"@)),
            );
            let swap = exists|i: int|
                0 <= i < s.swaps.len() && path::same_path(#[trigger] s.swaps[i], s.path);
            if s.kind == ScanKind::Ext4 && (recovered || swap) {
                &&& goes_on(s, turn)
                &&& s.coverage.skipped_entries < u64::MAX
                    ==> turn.scan.coverage.skipped_entries == s.coverage.skipped_entries + 1
            } else {
                &&& turn.result == Ok::<ActionView, ErrorView>(
                    ActionView::ReadFacts { path: s.path },
                )
                &&& turn.scan == (ScanView { stage: ScanStage::ReadingFacts, ..s })
            }
        }),
        s.stage == ScanStage::ReadingFacts ==> ({
            let turn = scan::scan_turn(s, log, ScanEventView::Facts(Some(facts)), now);
            if facts.kind == FileKind::Symlink {
                goes_on(s, turn) && turn.scan.coverage == s.coverage
            } else {
                &&& turn.result == Ok::<ActionView, ErrorView>(
                    ActionView::ReadMountId { path: s.path },
                )
                &&& turn.scan == (ScanView { stage: ScanStage::ReadingMountId { facts }, ..s })
            }
        }),
{
}

/// A file that was mapped is in the files of the walk, with its path and what
/// its extents say; the files before it stay, and it is counted.
pub proof fn lemma_mapped_files_are_reported(
    s: ScanView,
    log: Seq<EventView>,
    facts: FileFacts,
    list: Seq<FileExtent>,
    flags: Result<u32, Seq<char>>,
    now: u64,
)
    requires
        s.stage == (ScanStage::MappingFile { facts }),
    ensures
        ({
            let turn = scan::scan_turn(
                s,
                log,
                ScanEventView::FileMapped { extents: list, flags },
                now,
            );
            let report = match s.kind {
                ScanKind::Ext4 => file_report::ext4_file_report(s.path, facts, flags, list),
                ScanKind::Fat => file_report::fat_file_report(s.path, facts, list),
            };
            &&& turn.scan.files == s.files.push(report)
            &&& report.path == s.path
            &&& report.logical_bytes == facts.length
            &&& turn.scan.stack == s.stack
            &&& turn.scan.stage == ScanStage::ReadingEntry
            &&& turn.result == Ok::<ActionView, ErrorView>(ActionView::ReadEntry)
            &&& s.coverage.files_scanned < u64::MAX ==> turn.scan.coverage.files_scanned
                == s.coverage.files_scanned + 1
            &&& s.coverage.scanned_allocated_bytes + report.allocated_bytes <= u64::MAX
                ==> turn.scan.coverage.scanned_allocated_bytes
                == s.coverage.scanned_allocated_bytes + report.allocated_bytes
            &&& turn.scan.coverage.skipped_entries == s.coverage.skipped_entries
            &&& turn.scan.coverage.directories_scanned == s.coverage.directories_scanned
            &&& turn.scan.coverage.total_allocated_data_bytes
                == s.coverage.total_allocated_data_bytes
        }),
{
}

// ---------------------------------------------------------------------
// Directories
// ---------------------------------------------------------------------

/// The walk begins at the mount point. On ext4 the root is opened and the
/// allocation map and the swap areas are read before it; either way the first
/// directory to be listed is the mount point.
pub proof fn lemma_walk_begins_at_the_root(
    s: ScanView,
    log: Seq<EventView>,
    root: Seq<u8>,
    contents: Option<Seq<char>>,
    now: u64,
)
    ensures
        s.stage == ScanStage::Starting && s.volume.mount_point == Some(root) ==> ({
            let turn = scan::scan_turn(s, log, ScanEventView::Passed, now);
            &&& turn.scan.path == root
            &&& log.is_prefix_of(turn.log)
            &&& turn.log[log.len() as int] matches EventView::Progress(p) && p.phase
                == AnalysisPhase::ReadingAllocationMap && p.job_id == s.job_id
            &&& match s.kind {
                ScanKind::Ext4 => turn.result == Ok::<ActionView, ErrorView>(
                    ActionView::OpenRoot { path: root },
                ) && turn.scan.stage == ScanStage::OpeningRoot,
                ScanKind::Fat => turn.result == Ok::<ActionView, ErrorView>(ActionView::Checkpoint)
                    && turn.scan.stage == ScanStage::EnteringDirectory && turn.scan.stack.len()
                    == 0,
            }
        }),
        s.stage == ScanStage::Starting && s.volume.mount_point is None ==> scan::scan_turn(
            s,
            log,
            ScanEventView::Passed,
            now,
        ).result is Err,
        s.stage == ScanStage::OpeningRoot ==> ({
            let turn = scan::scan_turn(s, log, ScanEventView::Root(Ok(())), now);
            &&& turn.scan == (ScanView { stage: ScanStage::ReadingMap, ..s })
            &&& turn.result == Ok::<ActionView, ErrorView>(ActionView::ReadMap)
        }),
        s.stage == ScanStage::ReadingSwaps ==> ({
            let turn = scan::scan_turn(s, log, ScanEventView::Swaps(contents), now);
            &&& turn.scan.path == s.path
            &&& turn.scan.stage == ScanStage::EnteringDirectory
            &&& turn.scan.stack.len() == 0
            &&& turn.result == Ok::<ActionView, ErrorView>(ActionView::Checkpoint)
        }),
{
    if s.stage == ScanStage::Starting && s.volume.mount_point == Some(root) {
        let turn = scan::scan_turn(s, log, ScanEventView::Passed, now);
        assert(seq![root].drop_last().len() == 0);
        assert(seq![root].last() == root);
        assert(turn.log.take(log.len() as int) =~= log);
    }
    assert(seq![s.path].last() == s.path);
}

/// Whether a walk has turned to the directory that was put down last, or has
/// ended where none is left.
pub open spec fn takes_next(before: ScanView, turn: Turn) -> bool {
    if before.stack.len() > 0 {
        &&& turn.scan.stage == ScanStage::EnteringDirectory
        &&& turn.scan.path == before.stack[before.stack.len() - 1]
        &&& turn.scan.stack == before.stack.take(before.stack.len() - 1)
        &&& turn.result == Ok::<ActionView, ErrorView>(ActionView::Checkpoint)
    } else {
        &&& turn.scan.stage == ScanStage::Finished
        &&& turn.result == Ok::<ActionView, ErrorView>(ActionView::Finish)
    }
}

/// A directory is taken from those to be listed, opened under its path and
/// read entry by entry; at its end, or where it cannot be read, the next one
/// is taken. A walk ends only when none is left.
pub proof fn lemma_directories_are_listed(s: ScanView, log: Seq<EventView>, now: u64)
    ensures
        s.stage == ScanStage::EnteringDirectory ==> scan::scan_turn(
            s,
            log,
            ScanEventView::Passed,
            now,
        ) == (Turn {
            scan: ScanView { stage: ScanStage::OpeningDirectory, ..s },
            log,
            result: Ok(ActionView::OpenDirectory { path: s.path }),
        }),
        s.stage == ScanStage::OpeningDirectory ==> ({
            let opened = scan::scan_turn(s, log, ScanEventView::DirectoryOpened, now);
            let unread = scan::scan_turn(s, log, ScanEventView::DirectoryUnreadable, now);
            &&& goes_on(s, opened)
            &&& s.coverage.directories_scanned < u64::MAX
                ==> opened.scan.coverage.directories_scanned == s.coverage.directories_scanned + 1
            &&& opened.scan.coverage.skipped_entries == s.coverage.skipped_entries
            &&& takes_next(s, unread)
            &&& unread.scan.coverage.directories_scanned == s.coverage.directories_scanned
            &&& s.coverage.skipped_entries < u64::MAX ==> unread.scan.coverage.skipped_entries
                == s.coverage.skipped_entries + 1
        }),
        s.stage == ScanStage::ReadingEntry ==> ({
            let turn = scan::scan_turn(s, log, ScanEventView::EndOfDirectory, now);
            &&& takes_next(s, turn)
            &&& turn.scan.coverage == s.coverage
            &&& turn.scan.files == s.files
        }),
{
    if s.stack.len() > 0 {
        assert(s.stack.drop_last() =~= s.stack.take(s.stack.len() - 1));
    }
}

/// What came of an action, and when.
pub struct Told {
    pub event: ScanEventView,
    pub now: u64,
}

/// Whether turns of a walk follow each other, each by the event that answers
/// what the one before asked for.
pub open spec fn is_walk(turns: Seq<Turn>, told: Seq<Told>) -> bool {
    &&& turns.len() == told.len() + 1
    &&& forall|i: int|
        #![trigger told[i]]
        0 <= i < told.len() ==> {
            &&& turns[i].result is Ok
            &&& scan::answers(turns[i].scan.stage, told[i].event)
            &&& turns[i + 1] == scan::scan_turn(
                turns[i].scan,
                turns[i].log,
                told[i].event,
                told[i].now,
            )
        }
}

/// Whether a path is about to be opened as a directory.
pub open spec fn is_entered(s: ScanView, path: Seq<u8>) -> bool {
    s.stage == ScanStage::EnteringDirectory && s.path == path
}

/// From a turn in which a directory is still to be listed, a walk comes to
/// its end only by opening it.
proof fn lemma_listed_before_end(turns: Seq<Turn>, told: Seq<Told>, from: int, path: Seq<u8>)
    requires
        is_walk(turns, told),
        turns.last().scan.stage == ScanStage::Finished,
        turns.last().result is Ok,
        0 <= from < turns.len(),
        turns[from].scan.stage != ScanStage::Finished,
        turns[from].scan.stage != ScanStage::Starting,
        turns[from].scan.stage != ScanStage::ReadingSwaps,
        turns[from].scan.stage != ScanStage::ReadingMap,
        turns[from].scan.stage != ScanStage::OpeningRoot,
        turns[from].scan.stack.contains(path) || is_entered(turns[from].scan, path),
    ensures
        exists|j: int|
            from < j < turns.len() && #[trigger] turns[j].result == Ok::<ActionView, ErrorView>(
                ActionView::OpenDirectory { path },
            ),
    decreases turns.len() - from,
{
    let s = turns[from].scan;
    assert(from < told.len());
    let event = told[from].event;
    let next = turns[from + 1];
    assert(next.result is Ok) by {
        if from + 1 < told.len() {
            assert(scan::answers(next.scan.stage, told[from + 1].event));
        } else {
            assert(next == turns.last());
        }
    }
    if is_entered(s, path) {
        assert(next.result == Ok::<ActionView, ErrorView>(ActionView::OpenDirectory { path }));
    } else {
        let at = choose|k: int| 0 <= k < s.stack.len() && s.stack[k] == path;
        if next.scan.stack.len() >= s.stack.len() {
            assert(next.scan.stack[at] == path);
            assert(next.scan.stack.contains(path));
        } else if at < s.stack.len() - 1 {
            assert(next.scan.stack[at] == path);
            assert(next.scan.stack.contains(path));
        } else {
            assert(is_entered(next.scan, path));
        }
        lemma_listed_before_end(turns, told, from + 1, path);
    }
}

/// A finished walk has missed no directory: each directory on the mount of
/// the volume that an entry named was opened for listing after it was named,
/// under the same path.
pub proof fn lemma_finished_walk_opened_every_directory(
    turns: Seq<Turn>,
    told: Seq<Told>,
    i: int,
    facts: FileFacts,
)
    requires
        is_walk(turns, told),
        turns.last().scan.stage == ScanStage::Finished,
        turns.last().result is Ok,
        0 <= i < told.len(),
        turns[i].scan.stage == (ScanStage::ReadingMountId { facts }),
        facts.kind == FileKind::Directory,
        turns[i].scan.volume.mount_id is Some,
        told[i].event == ScanEventView::MountId(turns[i].scan.volume.mount_id),
    ensures
        exists|j: int|
            i < j < turns.len() && #[trigger] turns[j].result == Ok::<ActionView, ErrorView>(
                ActionView::OpenDirectory { path: turns[i].scan.path },
            ),
{
    let next = turns[i + 1].scan;
    assert(next.stack[next.stack.len() - 1] == turns[i].scan.path);
    assert(next.stack.contains(turns[i].scan.path));
    lemma_listed_before_end(turns, told, i + 1, turns[i].scan.path);
}

/// No turn of a walk drops a file.
proof fn lemma_files_stay(turns: Seq<Turn>, told: Seq<Told>, from: int, to: int)
    requires
        is_walk(turns, told),
        0 <= from <= to < turns.len(),
    ensures
        turns[from].scan.files.is_prefix_of(turns[to].scan.files),
    decreases to - from,
{
    if from < to {
        lemma_files_stay(turns, told, from, to - 1);
        let a = turns[from].scan.files;
        let b = turns[to - 1].scan.files;
        let c = turns[to].scan.files;
        assert(scan::answers(turns[to - 1].scan.stage, told[to - 1].event));
        assert(c == b || c.len() == b.len() + 1 && c.drop_last() =~= b);
        assert(a =~= c.subrange(0, a.len() as int)) by {
            assert forall|k: int| 0 <= k < a.len() implies a[k] == c[k] by {
                assert(a[k] == b[k]);
                assert(c != b ==> c.drop_last()[k] == b[k]);
            }
        }
    } else {
        assert(turns[from].scan.files =~= turns[to].scan.files.take(
            turns[from].scan.files.len() as int,
        ));
    }
}

/// A finished walk has missed no file: every file that could be mapped is in
/// the report, under its path and with its length.
pub proof fn lemma_finished_walk_reports_every_file(
    turns: Seq<Turn>,
    told: Seq<Told>,
    i: int,
    facts: FileFacts,
)
    requires
        is_walk(turns, told),
        turns.last().scan.files.len() <= usize::MAX,
        0 <= i < told.len(),
        turns[i].scan.stage == (ScanStage::MappingFile { facts }),
        told[i].event is FileMapped,
    ensures
        ({
            let files = scan::scan_report(turns.last().scan).files;
            exists|k: int|
                0 <= k < files.len() && (#[trigger] files[k]).path == turns[i].scan.path
                    && files[k].logical_bytes == facts.length
        }),
{
    lemma_files_stay(turns, told, i + 1, turns.len() - 1);
    let some = turns[i + 1].scan.files;
    let all = turns.last().scan.files;
    let at = some.len() - 1;
    assert(some[at] == all[at]);
    lemma_report_lists_the_files(turns.last().scan, at);
}

/// The report of a walk lists the files that the walk found, each as often as
/// it was found, with the most fragmented first and of those the largest. It
/// says that it is complete exactly where an ext4 walk knew the allocation map
/// and skipped nothing.
pub proof fn lemma_report_lists_the_files(s: ScanView, i: int)
    requires
        s.files.len() <= usize::MAX,
        0 <= i < s.files.len(),
    ensures
        ({
            let report = scan::scan_report(s);
            &&& report.files.len() == s.files.len()
            &&& report.files.contains(s.files[i])
            &&& s.files.contains(report.files[i])
            &&& forall|j: int, k: int|
                0 <= j < k < report.files.len() ==> {
                    let first = #[trigger] report.files[j];
                    let second = #[trigger] report.files[k];
                    ||| first.excess_runs > second.excess_runs
                    ||| first.excess_runs == second.excess_runs && first.allocated_bytes
                        >= second.allocated_bytes
                }
            &&& report.volume == s.volume
            &&& report.coverage.files_scanned == s.coverage.files_scanned
            &&& report.coverage.directories_scanned == s.coverage.directories_scanned
            &&& report.coverage.skipped_entries == s.coverage.skipped_entries
            &&& report.coverage.scanned_allocated_bytes == s.coverage.scanned_allocated_bytes
            &&& report.completeness == AnalysisCompleteness::Complete <==> s.kind == ScanKind::Ext4
                && s.coverage.skipped_entries == 0 && s.map_known
            &&& s.warnings.is_prefix_of(report.warnings)
            &&& s.kind == ScanKind::Ext4 ==> (report.warnings.len() > s.warnings.len()
                <==> report.completeness == AnalysisCompleteness::Partial)
        }),
{
    let keys = scan::file_keys(s.files);
    let order = plan_laws::lemma_sort_is_an_order(keys, s.files);
    let files = scan::scan_report(s).files;
    assert(order.contains(i as usize));
    let at = choose|at: int| 0 <= at < order.len() && order[at] == i as usize;
    assert(files[at] == s.files[i]);
    assert(files[i] == s.files[order[i] as int]);
    assert forall|j: int, k: int| 0 <= j < k < files.len() implies {
        let first = #[trigger] files[j];
        let second = #[trigger] files[k];
        ||| first.excess_runs > second.excess_runs
        ||| first.excess_runs == second.excess_runs && first.allocated_bytes
            >= second.allocated_bytes
    } by {
        assert(crate::sort::before(keys, order[j] as int, order[k] as int));
    }
    assert(s.warnings =~= scan::scan_report(s).warnings.take(s.warnings.len() as int));
}

} // verus!
