//! The walk over a mounted filesystem that an analysis makes: which entry is
//! looked at next, what is asked of it, and what is told on the way.

use std::collections::HashSet;

use vstd::prelude::*;
use vstd::utf8::*;

use crate::arith;
use crate::block_map;
use crate::block_map::{BinAccumulator, Frame};
use crate::domain::{
    AnalysisCompleteness, AnalysisPhase, AnalysisReport, AnalysisReportView, EventView,
    FileReport, FileReportView, FragmentationMetrics, JobId, JobProgress, JobProgressView, MapBin,
    PhysicalRange, ScanCoverage, Volume, VolumeView,
};
use crate::error;
use crate::error::{ErrorView, IoKind, IoctlErrorView, OsError, OsErrorView, ServiceError};
use crate::extents;
use crate::file_report;
use crate::file_report::{FileFacts, FileKind};
use crate::jobs::EventSink;
use crate::linux::{FileExtent, FsMapKind, FsMapRange, IoctlError};
use crate::path;
use crate::path::FsPath;
use crate::sort;
use crate::sort::PairKey;
use crate::text;
use crate::views;

verus! {

/// The number of bins that a drive map is asked to have.
pub const MAP_BINS: usize = 4096;

/// How many files are scanned before the display learns of them at the
/// latest.
pub const PUBLISH_FILES: u64 = 128;

/// How many milliseconds pass before the display learns of them at the
/// latest.
pub const PUBLISH_MILLISECONDS: u64 = 100;

/// The filesystems whose files the walk can map.
#[derive(Clone, Copy, Debug, PartialEq, Eq, Structural)]
pub enum ScanKind {
    Ext4,
    Fat,
}

/// What the walk waits for.
#[derive(Clone, Copy, Debug, PartialEq, Eq, Structural)]
pub enum ScanStage {
    /// A checkpoint before anything else.
    Starting,
    OpeningRoot,
    ReadingMap,
    ReadingSwaps,
    /// A checkpoint before a directory.
    EnteringDirectory,
    OpeningDirectory,
    ReadingEntry,
    /// A checkpoint before an entry.
    AtEntry { readable: bool },
    ReadingFacts,
    ReadingMountId { facts: FileFacts },
    MappingFile { facts: FileFacts },
    Finished,
}

/// What the walk asks for.
#[derive(Debug)]
pub enum ScanAction {
    /// Wait while the job is paused, and tell whether it was cancelled.
    Checkpoint,
    /// Open the root directory of the filesystem.
    OpenRoot { path: FsPath },
    /// Read the allocation map of the filesystem of the root directory.
    ReadMap,
    /// Read the list of active swap areas.
    ReadSwaps,
    /// Open a directory for listing.
    OpenDirectory { path: FsPath },
    /// Read the next entry of the directory that was opened last.
    ReadEntry,
    /// Read what the system says of an entry, without following links.
    ReadFacts { path: FsPath },
    /// Read the number of the mount that an entry lies on.
    ReadMountId { path: FsPath },
    /// Open a file and read its extents, on ext4 also its flags.
    MapFile { path: FsPath, length: u64 },
    /// Nothing: the report can be made.
    Finish,
}

/// The contents of a [`ScanAction`].
#[verifier::ext_equal]
pub enum ActionView {
    Checkpoint,
    OpenRoot { path: Seq<u8> },
    ReadMap,
    ReadSwaps,
    OpenDirectory { path: Seq<u8> },
    ReadEntry,
    ReadFacts { path: Seq<u8> },
    ReadMountId { path: Seq<u8> },
    MapFile { path: Seq<u8>, length: u64 },
    Finish,
}

impl View for ScanAction {
    type V = ActionView;

    open spec fn view(&self) -> ActionView {
        match self {
            ScanAction::Checkpoint => ActionView::Checkpoint,
            ScanAction::OpenRoot { path } => ActionView::OpenRoot { path: path@ },
            ScanAction::ReadMap => ActionView::ReadMap,
            ScanAction::ReadSwaps => ActionView::ReadSwaps,
            ScanAction::OpenDirectory { path } => ActionView::OpenDirectory { path: path@ },
            ScanAction::ReadEntry => ActionView::ReadEntry,
            ScanAction::ReadFacts { path } => ActionView::ReadFacts { path: path@ },
            ScanAction::ReadMountId { path } => ActionView::ReadMountId { path: path@ },
            ScanAction::MapFile { path, length } => ActionView::MapFile {
                path: path@,
                length: *length,
            },
            ScanAction::Finish => ActionView::Finish,
        }
    }
}

/// What came of an action.
#[derive(Debug)]
pub enum ScanEvent {
    /// The job may go on.
    Passed,
    /// The job was cancelled.
    Cancelled,
    Root(Result<(), OsError>),
    MapRead(Result<Vec<FsMapRange>, IoctlError>),
    /// The text of the list of swap areas, where it could be read.
    Swaps(Option<String>),
    DirectoryOpened,
    DirectoryUnreadable,
    Entry(FsPath),
    EntryUnreadable,
    EndOfDirectory,
    Facts(Option<FileFacts>),
    MountId(Option<u64>),
    FileUnreadable,
    /// The file was opened; its extents could not be read.
    FileUnmapped(String),
    FileMapped { extents: Vec<FileExtent>, flags: Result<u32, String> },
}

/// The contents of a [`ScanEvent`].
#[verifier::ext_equal]
pub enum ScanEventView {
    Passed,
    Cancelled,
    Root(Result<(), OsErrorView>),
    MapRead(Result<Seq<FsMapRange>, IoctlErrorView>),
    Swaps(Option<Seq<char>>),
    DirectoryOpened,
    DirectoryUnreadable,
    Entry(Seq<u8>),
    EntryUnreadable,
    EndOfDirectory,
    Facts(Option<FileFacts>),
    MountId(Option<u64>),
    FileUnreadable,
    FileUnmapped(Seq<char>),
    FileMapped { extents: Seq<FileExtent>, flags: Result<u32, Seq<char>> },
}

impl View for ScanEvent {
    type V = ScanEventView;

    open spec fn view(&self) -> ScanEventView {
        match self {
            ScanEvent::Passed => ScanEventView::Passed,
            ScanEvent::Cancelled => ScanEventView::Cancelled,
            ScanEvent::Root(Ok(_)) => ScanEventView::Root(Ok(())),
            ScanEvent::Root(Err(e)) => ScanEventView::Root(Err(e@)),
            ScanEvent::MapRead(Ok(ranges)) => ScanEventView::MapRead(Ok(ranges@)),
            ScanEvent::MapRead(Err(e)) => ScanEventView::MapRead(Err(e@)),
            ScanEvent::Swaps(text) => ScanEventView::Swaps(views::opt(*text)),
            ScanEvent::DirectoryOpened => ScanEventView::DirectoryOpened,
            ScanEvent::DirectoryUnreadable => ScanEventView::DirectoryUnreadable,
            ScanEvent::Entry(path) => ScanEventView::Entry(path@),
            ScanEvent::EntryUnreadable => ScanEventView::EntryUnreadable,
            ScanEvent::EndOfDirectory => ScanEventView::EndOfDirectory,
            ScanEvent::Facts(facts) => ScanEventView::Facts(*facts),
            ScanEvent::MountId(id) => ScanEventView::MountId(*id),
            ScanEvent::FileUnreadable => ScanEventView::FileUnreadable,
            ScanEvent::FileUnmapped(message) => ScanEventView::FileUnmapped(message@),
            ScanEvent::FileMapped { extents, flags } => ScanEventView::FileMapped {
                extents: extents@,
                flags: file_report::flags_view(*flags),
            },
        }
    }
}

/// Whether an event is an answer to what the walk waits for.
pub open spec fn answers(stage: ScanStage, event: ScanEventView) -> bool {
    match stage {
        ScanStage::Starting | ScanStage::EnteringDirectory | ScanStage::AtEntry { .. } => event
            is Passed || event is Cancelled,
        ScanStage::OpeningRoot => event is Root,
        ScanStage::ReadingMap => event is MapRead,
        ScanStage::ReadingSwaps => event is Swaps,
        ScanStage::OpeningDirectory => event is DirectoryOpened || event is DirectoryUnreadable,
        ScanStage::ReadingEntry => event is Entry || event is EntryUnreadable || event
            is EndOfDirectory,
        ScanStage::ReadingFacts => event is Facts,
        ScanStage::ReadingMountId { .. } => event is MountId,
        ScanStage::MappingFile { .. } => event is FileUnreadable || event is FileUnmapped || event
            is FileMapped,
        ScanStage::Finished => false,
    }
}

// ---------------------------------------------------------------------
// The drive map of a walk
// ---------------------------------------------------------------------

/// A range of file data that was scanned.
#[derive(Clone, Copy, Debug, PartialEq, Eq, Structural)]
pub struct ScannedRange {
    pub range: PhysicalRange,
    pub fragmented: bool,
}

/// The contents of a drive map.
#[verifier::ext_equal]
pub struct MapView {
    pub frame: Frame,
    pub bins: Seq<Seq<u64>>,
    pub marks: Seq<bool>,
}

/// The contents of an accumulating map.
pub open spec fn map_of(map: BinAccumulator) -> MapView {
    MapView { frame: map.frame(), bins: map.bins(), marks: map.marks() }
}

/// A map of which the display has learned everything.
pub open spec fn shown(map: MapView) -> MapView {
    MapView { marks: Seq::new(map.frame.count, |i: int| false), ..map }
}

/// A map of which the given ranges are known.
pub open spec fn fresh_map(ranges: Seq<FsMapRange>, capacity: u64) -> MapView {
    let frame = block_map::frame_of(ranges, capacity, MAP_BINS);
    shown(MapView { frame, bins: block_map::painted(frame, ranges), marks: Seq::empty() })
}

/// A map when one more range was scanned.
pub open spec fn scanned(map: MapView, one: ScannedRange) -> MapView {
    let op = block_map::scan_op(one.fragmented);
    let at = one.range.offset_bytes;
    let length = one.range.length_bytes;
    MapView {
        frame: map.frame,
        bins: block_map::op_bins(map.frame, map.bins, op, at, length),
        marks: block_map::op_changed(map.frame, map.bins, map.marks, op, at, length),
    }
}

/// A map when more ranges were scanned, one after the other.
pub open spec fn scanned_all(map: MapView, list: Seq<ScannedRange>) -> MapView
    decreases list.len(),
{
    if list.len() == 0 {
        map
    } else {
        scanned(scanned_all(map, list.drop_last()), list.last())
    }
}

/// What the display has not learned of a map.
pub open spec fn news(map: MapView) -> Seq<MapBin> {
    block_map::marked_bins(map.frame, map.bins, map.marks, map.marks.len() as int)
}

/// The ranges of a file, marked by whether the file is fragmented.
pub open spec fn marked_ranges(ranges: Seq<PhysicalRange>, fragmented: bool) -> Seq<ScannedRange> {
    Seq::new(ranges.len(), |i: int| ScannedRange { range: ranges[i], fragmented })
}

// ---------------------------------------------------------------------
// The state of a walk
// ---------------------------------------------------------------------

/// The contents of a [`Scan`].
#[verifier::ext_equal]
pub struct ScanView {
    pub kind: ScanKind,
    pub volume: VolumeView,
    pub job_id: JobId,
    pub stage: ScanStage,
    /// What the walk looks at.
    pub path: Seq<u8>,
    pub warnings: Seq<Seq<char>>,
    /// Whether the allocation map of the filesystem is known.
    pub map_known: bool,
    pub map: MapView,
    pub swaps: Seq<Seq<u8>>,
    /// The directories that are still to be listed; the last is next.
    pub stack: Seq<Seq<u8>>,
    /// The files that were seen, by [`inode_key`].
    pub seen: Set<u128>,
    pub files: Seq<FileReportView>,
    /// What the map has not learned yet.
    pub pending: Seq<ScannedRange>,
    pub coverage: ScanCoverage,
    pub metrics: FragmentationMetrics,
    /// The first failure to read the extents of a file.
    pub mapping_error: Option<Seq<char>>,
    /// When the display last learned of the walk, in milliseconds.
    pub last_update: u64,
}

/// A number for a file, by its device and its inode.
pub open spec fn inode_key(device: u64, inode: u64) -> u128 {
    (device * 0x1_0000_0000_0000_0000 + inode) as u128
}

/// Two files have the same number only where device and inode are the same.
pub proof fn lemma_inode_keys_differ(a: u64, b: u64, c: u64, d: u64)
    ensures
        inode_key(a, b) == inode_key(c, d) ==> a == c && b == d,
{
}

/// What a step of a walk leaves: the walk, what was told so far, and what is
/// asked for next or why the walk ends.
#[verifier::ext_equal]
pub struct Turn {
    pub scan: ScanView,
    pub log: Seq<EventView>,
    pub result: Result<ActionView, ErrorView>,
}

/// The name of a FAT family in texts.
pub open spec fn family_name_of(filesystem: Seq<char>) -> Seq<char> {
    if filesystem == "exfat"@ {
        "exFAT"@
    } else {
        "FAT"@
    }
}

/// What an analysis says of itself before it starts.
pub open spec fn first_warnings(kind: ScanKind, filesystem: Seq<char>) -> Seq<Seq<char>> {
    match kind {
        ScanKind::Ext4 => seq![
            "FIEMAP is queried without forcing writeback; the snapshot may change while files are active."@,
        ],
        ScanKind::Fat => seq![
            "File mappings are queried without forcing writeback; the snapshot may change while files are active."@,
            family_name_of(filesystem)
                + " does not expose a filesystem-wide allocation map through Linux; free space, allocation tables, directories, and other metadata remain unlocated."@,
            "Linux FAT and exFAT normally require CAP_SYS_RAWIO for per-file FIBMAP queries. Files that cannot be mapped are skipped."@,
        ],
    }
}

/// The bytes that the coverage of a walk is measured against before any map
/// was read. The used bytes of a FAT volume count its metadata too.
pub open spec fn first_total(kind: ScanKind, volume: VolumeView) -> u64 {
    match (kind, volume.used_bytes) {
        (ScanKind::Fat, Some(used)) => used,
        _ => 0,
    }
}

/// A walk that has not begun.
pub open spec fn new_scan(kind: ScanKind, volume: VolumeView, job_id: JobId) -> ScanView {
    ScanView {
        kind,
        volume,
        job_id,
        stage: ScanStage::Starting,
        path: Seq::empty(),
        warnings: first_warnings(kind, volume.filesystem),
        map_known: false,
        map: fresh_map(Seq::empty(), volume.capacity_bytes),
        swaps: Seq::empty(),
        stack: Seq::empty(),
        seen: Set::empty(),
        files: Seq::empty(),
        pending: Seq::empty(),
        coverage: ScanCoverage {
            files_scanned: 0,
            directories_scanned: 0,
            skipped_entries: 0,
            scanned_allocated_bytes: 0,
            total_allocated_data_bytes: first_total(kind, volume),
            estimated_basis_points: None,
        },
        metrics: file_report::no_metrics(),
        mapping_error: None,
        last_update: 0,
    }
}

// ---------------------------------------------------------------------
// Steps of a walk
// ---------------------------------------------------------------------

pub open spec fn progress_event(s: ScanView, phase: AnalysisPhase, path: Option<Seq<u8>>) -> EventView {
    EventView::Progress(
        JobProgressView {
            job_id: s.job_id,
            phase,
            files_scanned: s.coverage.files_scanned,
            bytes_scanned: s.coverage.scanned_allocated_bytes,
            current_path: path,
        },
    )
}

/// What a whole drive map is told as.
pub open spec fn snapshot_event(s: ScanView) -> EventView {
    EventView::MapUpdated {
        job_id: s.job_id,
        full_snapshot: true,
        bins: block_map::map_bins(s.map.frame, s.map.bins),
    }
}

/// A walk that counts one more entry as skipped.
pub open spec fn skipped(s: ScanView) -> ScanView {
    ScanView {
        coverage: ScanCoverage {
            skipped_entries: arith::sat64(s.coverage.skipped_entries + 1) as u64,
            ..s.coverage
        },
        ..s
    }
}

/// A walk that asks for the next entry.
pub open spec fn next_entry(s: ScanView, log: Seq<EventView>) -> Turn {
    Turn {
        scan: ScanView { stage: ScanStage::ReadingEntry, ..s },
        log,
        result: Ok(ActionView::ReadEntry),
    }
}

/// A walk whose map has learned of every scanned range.
pub open spec fn caught_up(s: ScanView) -> ScanView {
    ScanView {
        map: shown(scanned_all(s.map, s.pending)),
        pending: Seq::empty(),
        ..s
    }
}

/// What is told when the map learns of the scanned ranges; where they change
/// no bin, nothing.
pub open spec fn map_news(s: ScanView, log: Seq<EventView>) -> Seq<EventView> {
    let changes = news(scanned_all(s.map, s.pending));
    if changes.len() == 0 {
        log
    } else {
        log.push(
            EventView::MapUpdated { job_id: s.job_id, full_snapshot: false, bins: changes },
        )
    }
}

/// A walk that takes the next directory, or ends where there is none.
pub open spec fn walk_on(s: ScanView, log: Seq<EventView>) -> Turn {
    if s.stack.len() == 0 {
        Turn {
            scan: ScanView { stage: ScanStage::Finished, ..caught_up(s) },
            log: map_news(s, log.push(progress_event(s, AnalysisPhase::BuildingReport, None))),
            result: Ok(ActionView::Finish),
        }
    } else {
        Turn {
            scan: ScanView {
                stage: ScanStage::EnteringDirectory,
                path: s.stack.last(),
                stack: s.stack.drop_last(),
                ..s
            },
            log,
            result: Ok(ActionView::Checkpoint),
        }
    }
}

pub open spec fn not_mounted_text(kind: ScanKind) -> Seq<char> {
    match kind {
        ScanKind::Ext4 => "ext4 volume is not mounted for analysis"@,
        ScanKind::Fat => "FAT volume is not mounted for analysis"@,
    }
}

/// The first step. A FAT volume has no allocation map to read.
pub open spec fn begun(s: ScanView, log: Seq<EventView>, now: u64) -> Turn {
    let told = log.push(progress_event(s, AnalysisPhase::ReadingAllocationMap, None));
    match (s.volume.mount_point, s.kind) {
        (None, _) => Turn {
            scan: s,
            log: told,
            result: Err(error::io_failure(IoKind::NotFound, not_mounted_text(s.kind))),
        },
        (Some(root), ScanKind::Ext4) => Turn {
            scan: ScanView { stage: ScanStage::OpeningRoot, path: root, ..s },
            log: told,
            result: Ok(ActionView::OpenRoot { path: root }),
        },
        (Some(root), ScanKind::Fat) => walk_on(
            ScanView { path: root, stack: seq![root], last_update: now, ..s },
            told.push(snapshot_event(s)),
        ),
    }
}

/// The bytes that a map counts as file data.
pub open spec fn data_bytes(ranges: Seq<FsMapRange>) -> nat
    decreases ranges.len(),
{
    if ranges.len() == 0 {
        0
    } else if ranges.last().kind == FsMapKind::Allocated {
        data_bytes(ranges.drop_last()) + ranges.last().length as nat
    } else {
        data_bytes(ranges.drop_last())
    }
}

pub open spec fn no_map_text(error: IoctlErrorView) -> Seq<char> {
    "The kernel allocation map is unavailable ("@ + error::ioctl_error_text(error)
        + "); the drive map and coverage estimate are incomplete."@
}

/// The step that takes the allocation map in. Without one the walk goes on.
pub open spec fn map_read(
    s: ScanView,
    log: Seq<EventView>,
    read: Result<Seq<FsMapRange>, IoctlErrorView>,
) -> Turn {
    let ranges = match read {
        Ok(ranges) => ranges,
        Err(_) => Seq::empty(),
    };
    let with_map = ScanView {
        stage: ScanStage::ReadingSwaps,
        warnings: match read {
            Ok(_) => s.warnings,
            Err(error) => s.warnings.push(no_map_text(error)),
        },
        map_known: ranges.len() > 0,
        map: fresh_map(ranges, s.volume.capacity_bytes),
        coverage: ScanCoverage {
            total_allocated_data_bytes: arith::sat64(data_bytes(ranges) as int) as u64,
            ..s.coverage
        },
        ..s
    };
    Turn {
        scan: with_map,
        log: log.push(snapshot_event(with_map)),
        result: Ok(ActionView::ReadSwaps),
    }
}

/// The first word of each line that has one, as a path.
pub open spec fn first_words(lines: Seq<Seq<char>>) -> Seq<Seq<u8>>
    decreases lines.len(),
{
    if lines.len() == 0 {
        Seq::empty()
    } else {
        let before = first_words(lines.drop_last());
        let words = text::words(lines.last());
        if words.len() == 0 {
            before
        } else {
            before.push(encode_utf8(words[0]))
        }
    }
}

/// The active swap areas that a list names below its heading.
pub open spec fn swap_paths(contents: Option<Seq<char>>) -> Seq<Seq<u8>> {
    match contents {
        Some(contents) => {
            let lines = text::lines(contents);
            if lines.len() == 0 {
                Seq::empty()
            } else {
                first_words(lines.skip(1))
            }
        },
        None => Seq::empty(),
    }
}

/// Whether a list holds a path.
pub open spec fn holds_path(list: Seq<Seq<u8>>, path: Seq<u8>) -> bool {
    exists|i: int| 0 <= i < list.len() && path::same_path(#[trigger] list[i], path)
}

/// Whether a path is kept out of an ext4 walk: the place of recovered files,
/// and active swap areas.
pub open spec fn is_excluded(volume: VolumeView, swaps: Seq<Seq<u8>>, path: Seq<u8>) -> bool {
    ||| volume.mount_point matches Some(root) && path::same_path(
        path,
        path::joined(root, encode_utf8("lost+found"@)),
    )
    ||| holds_path(swaps, path)
}

/// The step past the checkpoint before an entry.
pub open spec fn entry_passed(s: ScanView, log: Seq<EventView>, readable: bool) -> Turn {
    if !readable || (s.kind == ScanKind::Ext4 && is_excluded(s.volume, s.swaps, s.path)) {
        next_entry(skipped(s), log)
    } else {
        Turn {
            scan: ScanView { stage: ScanStage::ReadingFacts, ..s },
            log,
            result: Ok(ActionView::ReadFacts { path: s.path }),
        }
    }
}

/// The step that takes in what the system says of an entry. Links are passed
/// over.
pub open spec fn facts_read(s: ScanView, log: Seq<EventView>, facts: Option<FileFacts>) -> Turn {
    match facts {
        None => next_entry(skipped(s), log),
        Some(facts) => if facts.kind == FileKind::Symlink {
            next_entry(s, log)
        } else {
            Turn {
                scan: ScanView { stage: ScanStage::ReadingMountId { facts }, ..s },
                log,
                result: Ok(ActionView::ReadMountId { path: s.path }),
            }
        },
    }
}

/// The step that takes in the mount of an entry. Entries of other mounts are
/// passed over, and so are files that were seen under another name.
pub open spec fn mount_read(
    s: ScanView,
    log: Seq<EventView>,
    facts: FileFacts,
    id: Option<u64>,
) -> Turn {
    let key = inode_key(facts.device, facts.inode);
    if id is None {
        next_entry(skipped(s), log)
    } else if id != s.volume.mount_id {
        next_entry(s, log)
    } else if facts.kind == FileKind::Directory {
        next_entry(ScanView { stack: s.stack.push(s.path), ..s }, log)
    } else if facts.kind != FileKind::Regular || s.seen.contains(key) {
        next_entry(s, log)
    } else {
        Turn {
            scan: ScanView {
                stage: ScanStage::MappingFile { facts },
                seen: s.seen.insert(key),
                ..s
            },
            log,
            result: Ok(ActionView::MapFile { path: s.path, length: facts.length }),
        }
    }
}

/// The step past a file whose extents could not be read. A FAT walk keeps
/// the first message.
pub open spec fn unmapped(s: ScanView, log: Seq<EventView>, message: Seq<char>) -> Turn {
    let kept = ScanView {
        mapping_error: match (s.kind, s.mapping_error) {
            (ScanKind::Fat, None) => Some(message),
            _ => s.mapping_error,
        },
        ..s
    };
    next_entry(skipped(kept), log)
}

/// The report on the file that the walk looks at.
pub open spec fn report_at(
    s: ScanView,
    facts: FileFacts,
    list: Seq<FileExtent>,
    flags: Result<u32, Seq<char>>,
) -> FileReportView {
    match s.kind {
        ScanKind::Ext4 => file_report::ext4_file_report(s.path, facts, flags, list),
        ScanKind::Fat => file_report::fat_file_report(s.path, facts, list),
    }
}

/// A walk that has one more report.
pub open spec fn reported(s: ScanView, report: FileReportView) -> ScanView {
    ScanView {
        files: s.files.push(report),
        pending: s.pending + marked_ranges(report.physical_ranges, report.excess_runs > 0),
        coverage: ScanCoverage {
            files_scanned: arith::sat64(s.coverage.files_scanned + 1) as u64,
            scanned_allocated_bytes: arith::sat64(
                s.coverage.scanned_allocated_bytes + report.allocated_bytes,
            ) as u64,
            ..s.coverage
        },
        metrics: file_report::counted(s.metrics, report),
        ..s
    }
}

/// Whether the display must learn of the walk.
pub open spec fn is_due(s: ScanView, now: u64) -> bool {
    s.coverage.files_scanned % PUBLISH_FILES == 0 || now - s.last_update >= PUBLISH_MILLISECONDS
}

/// The step that takes in the extents of a file.
pub open spec fn mapped(
    s: ScanView,
    log: Seq<EventView>,
    facts: FileFacts,
    list: Seq<FileExtent>,
    flags: Result<u32, Seq<char>>,
    now: u64,
) -> Turn {
    let more = reported(s, report_at(s, facts, list, flags));
    if is_due(more, now) {
        next_entry(
            ScanView { last_update: now, ..caught_up(more) },
            map_news(more, log).push(
                progress_event(more, AnalysisPhase::WalkingFiles, Some(s.path)),
            ),
        )
    } else {
        next_entry(more, log)
    }
}

/// What a walk does when an event answers what it waits for.
pub open spec fn scan_turn(s: ScanView, log: Seq<EventView>, event: ScanEventView, now: u64) -> Turn {
    match (s.stage, event) {
        (_, ScanEventView::Cancelled) => Turn { scan: s, log, result: Err(ErrorView::Cancelled) },
        (ScanStage::Starting, _) => begun(s, log, now),
        (ScanStage::OpeningRoot, ScanEventView::Root(Err(error))) => Turn {
            scan: s,
            log,
            result: Err(ErrorView::Io(error)),
        },
        (ScanStage::OpeningRoot, _) => Turn {
            scan: ScanView { stage: ScanStage::ReadingMap, ..s },
            log,
            result: Ok(ActionView::ReadMap),
        },
        (_, ScanEventView::MapRead(read)) => map_read(s, log, read),
        (_, ScanEventView::Swaps(contents)) => walk_on(
            ScanView {
                swaps: swap_paths(contents),
                stack: seq![s.path],
                last_update: now,
                ..s
            },
            log,
        ),
        (ScanStage::EnteringDirectory, _) => Turn {
            scan: ScanView { stage: ScanStage::OpeningDirectory, ..s },
            log,
            result: Ok(ActionView::OpenDirectory { path: s.path }),
        },
        (_, ScanEventView::DirectoryUnreadable) => walk_on(skipped(s), log),
        (_, ScanEventView::DirectoryOpened) => next_entry(
            ScanView {
                coverage: ScanCoverage {
                    directories_scanned: arith::sat64(s.coverage.directories_scanned + 1) as u64,
                    ..s.coverage
                },
                ..s
            },
            log,
        ),
        (_, ScanEventView::Entry(path)) => Turn {
            scan: ScanView { stage: ScanStage::AtEntry { readable: true }, path, ..s },
            log,
            result: Ok(ActionView::Checkpoint),
        },
        (_, ScanEventView::EntryUnreadable) => Turn {
            scan: ScanView { stage: ScanStage::AtEntry { readable: false }, ..s },
            log,
            result: Ok(ActionView::Checkpoint),
        },
        (_, ScanEventView::EndOfDirectory) => walk_on(s, log),
        (ScanStage::AtEntry { readable }, _) => entry_passed(s, log, readable),
        (_, ScanEventView::Facts(facts)) => facts_read(s, log, facts),
        (ScanStage::ReadingMountId { facts }, ScanEventView::MountId(id)) => mount_read(
            s,
            log,
            facts,
            id,
        ),
        (ScanStage::MappingFile { facts }, ScanEventView::FileMapped { extents, flags }) => mapped(
            s,
            log,
            facts,
            extents,
            flags,
            now,
        ),
        (_, ScanEventView::FileUnmapped(message)) => unmapped(s, log, message),
        (_, _) => next_entry(skipped(s), log),
    }
}

// ---------------------------------------------------------------------
// The walk
// ---------------------------------------------------------------------

/// A drive map of which the given ranges are known.
pub(crate) fn new_map(ranges: &Vec<FsMapRange>, capacity: u64) -> (map: BinAccumulator)
    ensures
        map.wf(),
        map_of(map) == fresh_map(ranges@, capacity),
{
    let map: BinAccumulator = BinAccumulator::new(ranges, capacity, MAP_BINS);
    assert(map_of(map) =~= fresh_map(ranges@, capacity));
    map
}

pub(crate) fn total_data_bytes(ranges: &Vec<FsMapRange>) -> (bytes: u64)
    ensures
        bytes == arith::sat64(data_bytes(ranges@) as int),
{
    let mut bytes: u64 = 0;
    let mut i: usize = 0;
    while i < ranges.len()
        invariant
            i <= ranges@.len(),
            bytes == arith::sat64(data_bytes(ranges@.take(i as int)) as int),
        decreases ranges@.len() - i,
    {
        assert(ranges@.take(i + 1).drop_last() =~= ranges@.take(i as int));
        let range: FsMapRange = ranges[i];
        if range.kind == FsMapKind::Allocated {
            bytes = bytes.saturating_add(range.length);
        }
        i = i + 1;
    }
    assert(ranges@.take(i as int) =~= ranges@);
    bytes
}

/// Reads the list of active swap areas.
pub fn active_swap_paths(contents: &Option<String>) -> (paths: Vec<FsPath>)
    ensures
        views::of(paths@) == swap_paths(views::opt(*contents)),
{
    let mut paths: Vec<FsPath> = Vec::new();
    assert(views::of(paths@) =~= Seq::empty());
    match contents {
        None => {},
        Some(contents) => {
            let lines: Vec<String> = text::split_lines(contents.as_str());
            let ghost all = text::lines(contents@);
            if lines.len() == 0 {
                return paths;
            }
            let ghost listed = all.skip(1);
            let mut i: usize = 1;
            assert(listed.take(0) =~= Seq::empty());
            while i < lines.len()
                invariant
                    1 <= i <= lines@.len(),
                    views::of(lines@) == all,
                    listed == all.skip(1),
                    views::of(paths@) == first_words(listed.take(i - 1)),
                decreases lines@.len() - i,
            {
                let words: Vec<String> = text::split_words(lines[i].as_str());
                proof {
                    assert(listed.take(i as int).drop_last() =~= listed.take(i - 1));
                    assert(listed.take(i as int).last() == views::of(lines@)[i as int]);
                }
                if words.len() > 0 {
                    let ghost before = views::of(paths@);
                    let path: FsPath = FsPath::from_text(words[0].as_str());
                    proof {
                        assert(views::of(words@)[0] == words@[0]@);
                    }
                    paths.push(path);
                    assert(views::of(paths@) =~= before.push(path@));
                } else {
                    assert(views::of(words@).len() == 0);
                }
                i = i + 1;
            }
            assert(listed.take(i - 1) =~= listed);
        },
    }
    paths
}

/// Tells whether a list holds a path.
fn lists_path(list: &Vec<FsPath>, path: &FsPath) -> (found: bool)
    ensures
        found == holds_path(views::of(list@), path@),
{
    let mut i: usize = 0;
    while i < list.len()
        invariant
            i <= list@.len(),
            forall|k: int|
                0 <= k < i ==> !path::same_path(#[trigger] views::of(list@)[k], path@),
        decreases list@.len() - i,
    {
        if list[i].same(path) {
            assert(path::same_path(views::of(list@)[i as int], path@));
            return true;
        }
        i = i + 1;
    }
    false
}

/// Tells whether a path is kept out of an ext4 walk.
pub fn is_excluded_path(volume: &Volume, path: &FsPath, swaps: &Vec<FsPath>) -> (excluded: bool)
    ensures
        excluded == is_excluded(volume@, views::of(swaps@), path@),
{
    if let Some(root) = &volume.mount_point {
        let recovered: FsPath = root.join(&FsPath::from_text("lost+found"));
        if path.same(&recovered) {
            return true;
        }
    }
    lists_path(swaps, path)
}

/// The name of a FAT family in texts.
pub fn family_name(filesystem: &str) -> (name: &'static str)
    ensures
        name@ == family_name_of(filesystem@),
{
    if text::same_text(filesystem, "exfat") {
        "exFAT"
    } else {
        "FAT"
    }
}

fn opening_warnings(kind: ScanKind, filesystem: &str) -> (warnings: Vec<String>)
    ensures
        views::of(warnings@) == first_warnings(kind, filesystem@),
{
    let mut warnings: Vec<String> = Vec::new();
    match kind {
        ScanKind::Ext4 => {
            warnings.push(
                "FIEMAP is queried without forcing writeback; the snapshot may change while files are active.".to_owned(),
            );
        },
        ScanKind::Fat => {
            warnings.push(
                "File mappings are queried without forcing writeback; the snapshot may change while files are active.".to_owned(),
            );
            let mut unlocated: String = family_name(filesystem).to_owned();
            text::push_text(
                &mut unlocated,
                " does not expose a filesystem-wide allocation map through Linux; free space, allocation tables, directories, and other metadata remain unlocated.",
            );
            warnings.push(unlocated);
            warnings.push(
                "Linux FAT and exFAT normally require CAP_SYS_RAWIO for per-file FIBMAP queries. Files that cannot be mapped are skipped.".to_owned(),
            );
        },
    }
    assert(views::of(warnings@) =~= first_warnings(kind, filesystem@));
    warnings
}

/// A walk over a mounted filesystem. It says what it asks for; what came of
/// that is handed back to it.
pub struct Scan {
    kind: ScanKind,
    volume: Volume,
    job_id: JobId,
    stage: ScanStage,
    path: FsPath,
    warnings: Vec<String>,
    map_known: bool,
    map: BinAccumulator,
    swaps: Vec<FsPath>,
    stack: Vec<FsPath>,
    seen: HashSet<u128>,
    files: Vec<FileReport>,
    pending: Vec<ScannedRange>,
    coverage: ScanCoverage,
    metrics: FragmentationMetrics,
    mapping_error: Option<String>,
    last_update: u64,
}

impl View for Scan {
    type V = ScanView;

    closed spec fn view(&self) -> ScanView {
        ScanView {
            kind: self.kind,
            volume: self.volume@,
            job_id: self.job_id,
            stage: self.stage,
            path: self.path@,
            warnings: views::of(self.warnings@),
            map_known: self.map_known,
            map: map_of(self.map),
            swaps: views::of(self.swaps@),
            stack: views::of(self.stack@),
            seen: self.seen@,
            files: views::of(self.files@),
            pending: self.pending@,
            coverage: self.coverage,
            metrics: self.metrics,
            mapping_error: views::opt(self.mapping_error),
            last_update: self.last_update,
        }
    }
}

impl Scan {
    /// The drive map counts the bytes of each bin exactly.
    pub closed spec fn wf(&self) -> bool {
        self.map.wf()
    }

    /// A walk over a volume that has not begun: it waits for a checkpoint.
    pub fn new(kind: ScanKind, volume: Volume, job_id: JobId) -> (scan: Scan)
        ensures
            scan.wf(),
            scan@ == new_scan(kind, volume@, job_id),
    {
        let none: Vec<FsMapRange> = Vec::new();
        let total: u64 = match (kind, volume.used_bytes) {
            (ScanKind::Fat, Some(used)) => used,
            _ => 0,
        };
        let warnings: Vec<String> = opening_warnings(kind, volume.filesystem.as_str());
        let map: BinAccumulator = new_map(&none, volume.capacity_bytes);
        let scan = Scan {
            kind,
            volume,
            job_id,
            stage: ScanStage::Starting,
            path: FsPath { bytes: Vec::new() },
            warnings,
            map_known: false,
            map,
            swaps: Vec::new(),
            stack: Vec::new(),
            seen: HashSet::new(),
            files: Vec::new(),
            pending: Vec::new(),
            coverage: ScanCoverage {
                files_scanned: 0,
                directories_scanned: 0,
                skipped_entries: 0,
                scanned_allocated_bytes: 0,
                total_allocated_data_bytes: total,
                estimated_basis_points: None,
            },
            metrics: FragmentationMetrics {
                fragmented_files: 0,
                fragmented_allocated_bytes: 0,
                total_physical_runs: 0,
                total_excess_runs: 0,
                average_run_bytes: 0,
                fragmented_basis_points: None,
            },
            mapping_error: None,
            last_update: 0,
        };
        assert(scan@ =~= new_scan(kind, scan.volume@, job_id));
        scan
    }

    /// The filesystem of the walk.
    pub fn kind(&self) -> (kind: ScanKind)
        ensures
            kind == self@.kind,
    {
        self.kind
    }

    /// What the walk waits for.
    pub fn stage(&self) -> (stage: ScanStage)
        ensures
            stage == self@.stage,
    {
        self.stage
    }

    fn skip(&mut self)
        requires
            old(self).wf(),
        ensures
            final(self).wf(),
            final(self)@ == skipped(old(self)@),
    {
        self.coverage.skipped_entries = self.coverage.skipped_entries.saturating_add(1);
    }

    fn ask_entry(&mut self) -> (action: ScanAction)
        requires
            old(self).wf(),
        ensures
            final(self).wf(),
            final(self)@ == (ScanView { stage: ScanStage::ReadingEntry, ..old(self)@ }),
            action@ == ActionView::ReadEntry,
    {
        self.stage = ScanStage::ReadingEntry;
        ScanAction::ReadEntry
    }

    fn progress(&self, phase: AnalysisPhase, current_path: Option<FsPath>) -> (progress: JobProgress)
        ensures
            EventView::Progress(progress@) == progress_event(self@, phase, views::opt(current_path)),
    {
        JobProgress {
            job_id: self.job_id,
            phase,
            files_scanned: self.coverage.files_scanned,
            bytes_scanned: self.coverage.scanned_allocated_bytes,
            current_path,
        }
    }

    /// Lets the map learn of the scanned ranges, and tells what changed.
    fn publish<S: EventSink>(&mut self, sink: &mut S)
        requires
            old(self).wf(),
            old(sink).job() == old(self)@.job_id,
        ensures
            final(self).wf(),
            final(self)@ == caught_up(old(self)@),
            final(sink).job() == old(sink).job(),
            final(sink).log() == map_news(old(self)@, old(sink).log()),
    {
        let ghost start = self@;
        let ghost list = self.pending@;
        let mut i: usize = 0;
        while i < self.pending.len()
            invariant
                i <= self.pending@.len(),
                self.wf(),
                self.pending@ == list,
                self@ == (ScanView {
                    map: scanned_all(start.map, list.take(i as int)),
                    ..start
                }),
            decreases self.pending@.len() - i,
        {
            let one: ScannedRange = self.pending[i];
            assert(list.take(i + 1).drop_last() =~= list.take(i as int));
            self.map.mark_scanned(one.range.offset_bytes, one.range.length_bytes, one.fragmented);
            i = i + 1;
            assert(self@ =~= (ScanView {
                map: scanned_all(start.map, list.take(i as int)),
                ..start
            }));
        }
        assert(list.take(i as int) =~= list);
        let changes: Vec<MapBin> = self.map.take_changes();
        self.pending = Vec::new();
        assert(self@ =~= caught_up(start));
        if changes.len() > 0 {
            sink.map_updated(false, changes);
        }
    }

    /// Takes the next directory, or ends the walk.
    fn walk<S: EventSink>(&mut self, sink: &mut S) -> (action: ScanAction)
        requires
            old(self).wf(),
            old(sink).job() == old(self)@.job_id,
        ensures
            final(self).wf(),
            final(sink).job() == old(sink).job(),
            ({
                let turn = walk_on(old(self)@, old(sink).log());
                &&& final(self)@ == turn.scan
                &&& final(sink).log() == turn.log
                &&& turn.result == Ok::<ActionView, ErrorView>(action@)
            }),
    {
        let ghost start = self@;
        match self.stack.pop() {
            None => {
                sink.progress(self.progress(AnalysisPhase::BuildingReport, None));
                assert(self@ =~= start);
                self.publish(sink);
                self.stage = ScanStage::Finished;
                ScanAction::Finish
            },
            Some(path) => {
                self.path = path;
                self.stage = ScanStage::EnteringDirectory;
                assert(self@ =~= walk_on(start, sink.log()).scan);
                ScanAction::Checkpoint
            },
        }
    }

    fn begin<S: EventSink>(&mut self, now_ms: u64, sink: &mut S) -> (result: Result<
        ScanAction,
        ServiceError,
    >)
        requires
            old(self).wf(),
            old(sink).job() == old(self)@.job_id,
        ensures
            final(self).wf(),
            final(sink).job() == old(sink).job(),
            ({
                let turn = begun(old(self)@, old(sink).log(), now_ms);
                &&& final(self)@ == turn.scan
                &&& final(sink).log() == turn.log
                &&& error::outcome(result) == turn.result
            }),
    {
        sink.progress(self.progress(AnalysisPhase::ReadingAllocationMap, None));
        let ghost start = self@;
        let root: FsPath = match &self.volume.mount_point {
            None => {
                return Err(
                    match self.kind {
                        ScanKind::Ext4 => error::io_error(
                            IoKind::NotFound,
                            "ext4 volume is not mounted for analysis",
                        ),
                        ScanKind::Fat => error::io_error(
                            IoKind::NotFound,
                            "FAT volume is not mounted for analysis",
                        ),
                    },
                );
            },
            Some(root) => root.clone(),
        };
        match self.kind {
            ScanKind::Ext4 => {
                self.path = root.clone();
                self.stage = ScanStage::OpeningRoot;
                Ok(ScanAction::OpenRoot { path: root })
            },
            ScanKind::Fat => {
                sink.map_updated(true, self.map.snapshot());
                self.path = root.clone();
                self.stack = Vec::new();
                self.stack.push(root);
                self.last_update = now_ms;
                assert(views::of(self.stack@) =~= seq![root@]);
                Ok(self.walk(sink))
            },
        }
    }

    fn take_map<S: EventSink>(
        &mut self,
        read: Result<Vec<FsMapRange>, IoctlError>,
        sink: &mut S,
    ) -> (action: ScanAction)
        requires
            old(self).wf(),
            old(sink).job() == old(self)@.job_id,
        ensures
            final(self).wf(),
            final(sink).job() == old(sink).job(),
            ({
                let turn = map_read(
                    old(self)@,
                    old(sink).log(),
                    match read {
                        Ok(ranges) => Ok(ranges@),
                        Err(e) => Err(e@),
                    },
                );
                &&& final(self)@ == turn.scan
                &&& final(sink).log() == turn.log
                &&& turn.result == Ok::<ActionView, ErrorView>(action@)
            }),
    {
        let ranges: Vec<FsMapRange> = match read {
            Ok(ranges) => ranges,
            Err(error) => {
                let mut warning: String = "The kernel allocation map is unavailable (".to_owned();
                text::push_text(&mut warning, error.message().as_str());
                text::push_text(
                    &mut warning,
                    "); the drive map and coverage estimate are incomplete.",
                );
                let ghost before = views::of(self.warnings@);
                self.warnings.push(warning);
                assert(views::of(self.warnings@) =~= before.push(no_map_text(error@)));
                let none: Vec<FsMapRange> = Vec::new();
                assert(none@ =~= Seq::empty());
                none
            },
        };
        self.map = new_map(&ranges, self.volume.capacity_bytes);
        self.map_known = ranges.len() > 0;
        self.coverage.total_allocated_data_bytes = total_data_bytes(&ranges);
        self.stage = ScanStage::ReadingSwaps;
        sink.map_updated(true, self.map.snapshot());
        ScanAction::ReadSwaps
    }

    fn pass_entry(&mut self, readable: bool) -> (action: ScanAction)
        requires
            old(self).wf(),
        ensures
            final(self).wf(),
            forall|log: Seq<EventView>|
                ({
                    let turn = #[trigger] entry_passed(old(self)@, log, readable);
                    &&& final(self)@ == turn.scan
                    &&& turn.log == log
                    &&& turn.result == Ok::<ActionView, ErrorView>(action@)
                }),
    {
        if !readable || (self.kind == ScanKind::Ext4 && is_excluded_path(
            &self.volume,
            &self.path,
            &self.swaps,
        )) {
            self.skip();
            return self.ask_entry();
        }
        self.stage = ScanStage::ReadingFacts;
        ScanAction::ReadFacts { path: self.path.clone() }
    }

    fn take_mount(&mut self, facts: FileFacts, id: Option<u64>) -> (action: ScanAction)
        requires
            old(self).wf(),
        ensures
            final(self).wf(),
            forall|log: Seq<EventView>|
                ({
                    let turn = #[trigger] mount_read(old(self)@, log, facts, id);
                    &&& final(self)@ == turn.scan
                    &&& turn.log == log
                    &&& turn.result == Ok::<ActionView, ErrorView>(action@)
                }),
    {
        if id.is_none() {
            self.skip();
            return self.ask_entry();
        }
        if id != self.volume.mount_id {
            return self.ask_entry();
        }
        if facts.kind == FileKind::Directory {
            let ghost before = views::of(self.stack@);
            let path: FsPath = self.path.clone();
            self.stack.push(path);
            assert(views::of(self.stack@) =~= before.push(path@));
            return self.ask_entry();
        }
        if facts.kind != FileKind::Regular {
            return self.ask_entry();
        }
        let key: u128 = facts.device as u128 * 0x1_0000_0000_0000_0000 + facts.inode as u128;
        assert(key == inode_key(facts.device, facts.inode));
        let ghost before = self.seen@;
        if !self.seen.insert(key) {
            assert(self.seen@ =~= before);
            return self.ask_entry();
        }
        self.stage = ScanStage::MappingFile { facts };
        ScanAction::MapFile { path: self.path.clone(), length: facts.length }
    }

    fn take_unmapped(&mut self, message: String) -> (action: ScanAction)
        requires
            old(self).wf(),
        ensures
            final(self).wf(),
            forall|log: Seq<EventView>|
                ({
                    let turn = #[trigger] unmapped(old(self)@, log, message@);
                    &&& final(self)@ == turn.scan
                    &&& turn.log == log
                    &&& turn.result == Ok::<ActionView, ErrorView>(action@)
                }),
    {
        if self.kind == ScanKind::Fat && self.mapping_error.is_none() {
            self.mapping_error = Some(message);
        }
        self.skip();
        self.ask_entry()
    }

    /// Adds the report on a file.
    fn add_report(&mut self, report: FileReport)
        requires
            old(self).wf(),
        ensures
            final(self).wf(),
            final(self)@ == reported(old(self)@, report@),
    {
        let ghost start = self@;
        let ghost new = report@;
        let ghost ranges = report.physical_ranges@;
        let fragmented: bool = report.excess_runs > 0;
        let mut i: usize = 0;
        assert(marked_ranges(ranges.take(0), fragmented) =~= Seq::empty());
        assert(self.pending@ + Seq::<ScannedRange>::empty() =~= self.pending@);
        while i < report.physical_ranges.len()
            invariant
                i <= report.physical_ranges@.len(),
                report.physical_ranges@ == ranges,
                self.wf(),
                self@ == (ScanView {
                    pending: start.pending + marked_ranges(ranges.take(i as int), fragmented),
                    ..start
                }),
            decreases report.physical_ranges@.len() - i,
        {
            self.pending.push(ScannedRange { range: report.physical_ranges[i], fragmented });
            i = i + 1;
            assert(self.pending@ =~= start.pending + marked_ranges(
                ranges.take(i as int),
                fragmented,
            ));
            assert(self@ =~= (ScanView {
                pending: start.pending + marked_ranges(ranges.take(i as int), fragmented),
                ..start
            }));
        }
        assert(ranges.take(i as int) =~= ranges);
        self.coverage.files_scanned = self.coverage.files_scanned.saturating_add(1);
        self.coverage.scanned_allocated_bytes = self.coverage.scanned_allocated_bytes.saturating_add(
            report.allocated_bytes,
        );
        file_report::count_file(&mut self.metrics, &report);
        let ghost files = views::of(self.files@);
        self.files.push(report);
        assert(views::of(self.files@) =~= files.push(new));
        assert(self@ =~= reported(start, new));
    }

    fn take_mapping<S: EventSink>(
        &mut self,
        facts: FileFacts,
        list: Vec<FileExtent>,
        flags: Result<u32, String>,
        now_ms: u64,
        sink: &mut S,
    ) -> (action: ScanAction)
        requires
            old(self).wf(),
            old(sink).job() == old(self)@.job_id,
        ensures
            final(self).wf(),
            final(sink).job() == old(sink).job(),
            ({
                let turn = mapped(
                    old(self)@,
                    old(sink).log(),
                    facts,
                    list@,
                    file_report::flags_view(flags),
                    now_ms,
                );
                &&& final(self)@ == turn.scan
                &&& final(sink).log() == turn.log
                &&& turn.result == Ok::<ActionView, ErrorView>(action@)
            }),
    {
        let path: FsPath = self.path.clone();
        let report: FileReport = match self.kind {
            ScanKind::Ext4 => file_report::inspect_ext4_file(path, facts, flags, &list),
            ScanKind::Fat => file_report::inspect_fat_file(path, facts, &list),
        };
        self.add_report(report);
        if self.coverage.files_scanned % PUBLISH_FILES == 0 || now_ms.saturating_sub(
            self.last_update,
        ) >= PUBLISH_MILLISECONDS {
            self.publish(sink);
            let current: Option<FsPath> = Some(self.path.clone());
            sink.progress(self.progress(AnalysisPhase::WalkingFiles, current));
            self.last_update = now_ms;
        }
        self.ask_entry()
    }

    /// Takes in what came of the last action, and says what is asked for
    /// next or why the walk ends. `now_ms` is the time on a clock that never
    /// goes back.
    pub fn advance<S: EventSink>(&mut self, event: ScanEvent, now_ms: u64, sink: &mut S) -> (result:
        Result<ScanAction, ServiceError>)
        requires
            old(self).wf(),
            old(sink).job() == old(self)@.job_id,
            answers(old(self)@.stage, event@),
        ensures
            final(self).wf(),
            final(sink).job() == old(sink).job(),
            ({
                let turn = scan_turn(old(self)@, old(sink).log(), event@, now_ms);
                &&& final(self)@ == turn.scan
                &&& final(sink).log() == turn.log
                &&& error::outcome(result) == turn.result
            }),
    {
        match event {
            ScanEvent::Cancelled => Err(ServiceError::Cancelled),
            ScanEvent::Passed => match self.stage {
                ScanStage::Starting => self.begin(now_ms, sink),
                ScanStage::EnteringDirectory => {
                    self.stage = ScanStage::OpeningDirectory;
                    Ok(ScanAction::OpenDirectory { path: self.path.clone() })
                },
                ScanStage::AtEntry { readable } => {
                    let action: ScanAction = self.pass_entry(readable);
                    assert(entry_passed(old(self)@, sink.log(), readable).log == sink.log());
                    Ok(action)
                },
                _ => {
                    assert(false);
                    Err(ServiceError::Cancelled)
                },
            },
            ScanEvent::Root(Err(e)) => Err(ServiceError::Io(e)),
            ScanEvent::Root(Ok(_)) => {
                self.stage = ScanStage::ReadingMap;
                Ok(ScanAction::ReadMap)
            },
            ScanEvent::MapRead(read) => Ok(self.take_map(read, sink)),
            ScanEvent::Swaps(contents) => {
                let ghost start = self@;
                self.swaps = active_swap_paths(&contents);
                let root: FsPath = self.path.clone();
                self.stack = Vec::new();
                self.stack.push(root);
                self.last_update = now_ms;
                assert(views::of(self.stack@) =~= seq![start.path]);
                Ok(self.walk(sink))
            },
            ScanEvent::DirectoryUnreadable => {
                self.skip();
                Ok(self.walk(sink))
            },
            ScanEvent::DirectoryOpened => {
                self.coverage.directories_scanned = self.coverage.directories_scanned.saturating_add(
                    1,
                );
                Ok(self.ask_entry())
            },
            ScanEvent::Entry(path) => {
                self.path = path;
                self.stage = ScanStage::AtEntry { readable: true };
                Ok(ScanAction::Checkpoint)
            },
            ScanEvent::EntryUnreadable => {
                self.stage = ScanStage::AtEntry { readable: false };
                Ok(ScanAction::Checkpoint)
            },
            ScanEvent::EndOfDirectory => Ok(self.walk(sink)),
            ScanEvent::Facts(facts) => match facts {
                None => {
                    self.skip();
                    Ok(self.ask_entry())
                },
                Some(facts) => if facts.kind == FileKind::Symlink {
                    Ok(self.ask_entry())
                } else {
                    self.stage = ScanStage::ReadingMountId { facts };
                    Ok(ScanAction::ReadMountId { path: self.path.clone() })
                },
            },
            ScanEvent::MountId(id) => match self.stage {
                ScanStage::ReadingMountId { facts } => {
                    let action: ScanAction = self.take_mount(facts, id);
                    assert(mount_read(old(self)@, sink.log(), facts, id).log == sink.log());
                    Ok(action)
                },
                _ => {
                    assert(false);
                    Err(ServiceError::Cancelled)
                },
            },
            ScanEvent::FileUnreadable => {
                self.skip();
                Ok(self.ask_entry())
            },
            ScanEvent::FileUnmapped(message) => {
                let ghost told = message@;
                let action: ScanAction = self.take_unmapped(message);
                assert(unmapped(old(self)@, sink.log(), told).log == sink.log());
                Ok(action)
            },
            ScanEvent::FileMapped { extents: list, flags } => match self.stage {
                ScanStage::MappingFile { facts } => Ok(
                    self.take_mapping(facts, list, flags, now_ms, sink),
                ),
                _ => {
                    assert(false);
                    Err(ServiceError::Cancelled)
                },
            },
        }
    }
}

// ---------------------------------------------------------------------
// The report
// ---------------------------------------------------------------------

/// The key by which files are listed: most excess runs first, of those the
/// largest first.
pub open spec fn file_key(file: FileReportView) -> PairKey {
    PairKey {
        first: (u64::MAX - file.excess_runs) as u64,
        second: (u64::MAX - file.allocated_bytes) as u64,
    }
}

/// The keys of files.
pub open spec fn file_keys(files: Seq<FileReportView>) -> Seq<PairKey> {
    Seq::new(files.len(), |i: int| file_key(files[i]))
}

/// The files in the order in which they are listed; equals stay in the order
/// in which they were found.
pub open spec fn listed(files: Seq<FileReportView>) -> Seq<FileReportView> {
    sort::sorted(file_keys(files), files)
}

/// Whether a finished walk saw everything. A mounted FAT volume has no allocation
/// map, so its report is never complete.
pub open spec fn is_complete(s: ScanView) -> bool {
    s.kind == ScanKind::Ext4 && s.coverage.skipped_entries == 0 && s.map_known
}

/// What the report of a finished walk adds to its warnings.
pub open spec fn last_warnings(s: ScanView) -> Seq<Seq<char>> {
    let skipped = text::decimal(s.coverage.skipped_entries as nat);
    match s.kind {
        ScanKind::Ext4 => if is_complete(s) {
            s.warnings
        } else {
            s.warnings.push(
                "Partial analysis: "@ + skipped
                    + " entries could not be read or were deliberately excluded."@,
            )
        },
        ScanKind::Fat => {
            let counted = if s.coverage.skipped_entries > 0 {
                s.warnings.push(
                    "Partial file scan: "@ + skipped + " entries could not be read."@,
                )
            } else {
                s.warnings
            };
            match s.mapping_error {
                Some(message) => counted.push(
                    "At least one file mapping failed: "@ + message + "."@,
                ),
                None => counted,
            }
        },
    }
}

/// The report of a finished walk.
pub open spec fn scan_report(s: ScanView) -> AnalysisReportView {
    AnalysisReportView {
        volume: s.volume,
        completeness: if is_complete(s) {
            AnalysisCompleteness::Complete
        } else {
            AnalysisCompleteness::Partial
        },
        coverage: ScanCoverage {
            estimated_basis_points: arith::basis_points(
                s.coverage.scanned_allocated_bytes as int,
                s.coverage.total_allocated_data_bytes as int,
            ),
            ..s.coverage
        },
        fragmentation: file_report::completed(s.metrics, s.coverage.scanned_allocated_bytes),
        files: listed(s.files),
        map: block_map::map_bins(s.map.frame, s.map.bins),
        warnings: last_warnings(s),
    }
}

/// Lists files.
pub(crate) fn sort_files(files: Vec<FileReport>) -> (out: Vec<FileReport>)
    ensures
        views::of(out@) == listed(views::of(files@)),
{
    let mut keys: Vec<PairKey> = Vec::new();
    let mut i: usize = 0;
    while i < files.len()
        invariant
            i <= files@.len(),
            keys@ == file_keys(views::of(files@)).take(i as int),
        decreases files@.len() - i,
    {
        let key: PairKey = PairKey {
            first: u64::MAX - files[i].excess_runs as u64,
            second: u64::MAX - files[i].allocated_bytes,
        };
        assert(key == file_key(views::of(files@)[i as int]));
        keys.push(key);
        i = i + 1;
        assert(keys@ =~= file_keys(views::of(files@)).take(i as int));
    }
    assert(keys@ =~= file_keys(views::of(files@)));
    let ghost before = files@;
    let out: Vec<FileReport> = sort::sort_by_keys(&keys, files);
    proof {
        sort::lemma_sorted(keys@, before, out@);
    }
    out
}

fn counted_warning(head: &str, count: u64, tail: &str) -> (warning: String)
    ensures
        warning@ == head@ + text::decimal(count as nat) + tail@,
{
    let mut warning: String = head.to_owned();
    text::push_decimal(&mut warning, count);
    text::push_text(&mut warning, tail);
    warning
}

fn closing_warnings(
    kind: ScanKind,
    warnings: Vec<String>,
    skipped: u64,
    map_known: bool,
    mapping_error: Option<String>,
) -> (out: Vec<String>)
    ensures
        forall|s: ScanView| #![trigger last_warnings(s)]
            s.kind == kind && s.warnings == views::of(warnings@) && s.coverage.skipped_entries
                == skipped && s.map_known == map_known && s.mapping_error == views::opt(
                mapping_error,
            ) ==> views::of(out@) == last_warnings(s),
{
    let mut out: Vec<String> = warnings;
    let ghost start = views::of(out@);
    match kind {
        ScanKind::Ext4 => {
            if !(skipped == 0 && map_known) {
                let warning: String = counted_warning(
                    "Partial analysis: ",
                    skipped,
                    " entries could not be read or were deliberately excluded.",
                );
                out.push(warning);
                assert(views::of(out@) =~= start.push(warning@));
            }
        },
        ScanKind::Fat => {
            if skipped > 0 {
                let warning: String = counted_warning(
                    "Partial file scan: ",
                    skipped,
                    " entries could not be read.",
                );
                out.push(warning);
                assert(views::of(out@) =~= start.push(warning@));
            }
            let ghost before = views::of(out@);
            if let Some(message) = mapping_error {
                let mut warning: String = "At least one file mapping failed: ".to_owned();
                text::push_text(&mut warning, message.as_str());
                text::push_text(&mut warning, ".");
                out.push(warning);
                assert(views::of(out@) =~= before.push(warning@));
            }
        },
    }
    out
}

impl Scan {
    /// Makes the report of a finished walk.
    pub fn into_report(self) -> (report: AnalysisReport)
        requires
            self.wf(),
            self@.stage == ScanStage::Finished,
        ensures
            report@ == scan_report(self@),
    {
        let ghost s = self@;
        let complete: bool = self.kind == ScanKind::Ext4 && self.coverage.skipped_entries == 0
            && self.map_known;
        let mut coverage: ScanCoverage = self.coverage;
        coverage.estimated_basis_points = arith::ratio_basis_points(
            coverage.scanned_allocated_bytes,
            coverage.total_allocated_data_bytes,
        );
        let mut metrics: FragmentationMetrics = self.metrics;
        file_report::complete_metrics(&mut metrics, coverage.scanned_allocated_bytes);
        let warnings: Vec<String> = closing_warnings(
            self.kind,
            self.warnings,
            coverage.skipped_entries,
            self.map_known,
            self.mapping_error,
        );
        assert(views::of(warnings@) == last_warnings(s));
        AnalysisReport {
            volume: self.volume,
            completeness: if complete {
                AnalysisCompleteness::Complete
            } else {
                AnalysisCompleteness::Partial
            },
            coverage,
            fragmentation: metrics,
            files: sort_files(self.files),
            map: self.map.finish(),
            warnings,
        }
    }
}

// ---------------------------------------------------------------------
// What holds of every walk
// ---------------------------------------------------------------------

/// The allocated bytes of files together.
pub open spec fn file_bytes(files: Seq<FileReportView>) -> nat
    decreases files.len(),
{
    if files.len() == 0 {
        0
    } else {
        file_bytes(files.drop_last()) + files.last().allocated_bytes as nat
    }
}

/// Whether the counts of a walk are those of the files that it found.
pub open spec fn counts_agree(s: ScanView) -> bool {
    &&& s.metrics == file_report::counted_all(s.files)
    &&& s.coverage.files_scanned == arith::sat64(s.files.len() as int)
    &&& s.coverage.scanned_allocated_bytes == arith::sat64(file_bytes(s.files) as int)
}

/// The counts of a walk are at every step those of the files that it has
/// found so far.
pub proof fn lemma_walk_counts_its_files(
    s: ScanView,
    log: Seq<EventView>,
    event: ScanEventView,
    now: u64,
)
    requires
        counts_agree(s),
        answers(s.stage, event),
    ensures
        counts_agree(scan_turn(s, log, event, now).scan),
        forall|kind: ScanKind, volume: VolumeView, job: JobId|
            counts_agree(#[trigger] new_scan(kind, volume, job)),
{
    if let (
        ScanStage::MappingFile { facts },
        ScanEventView::FileMapped { extents: list, flags },
    ) = (s.stage, event) {
        let report = report_at(s, facts, list, flags);
        assert(s.files.push(report).drop_last() =~= s.files);
    }
}

/// What the display shows after the events of a job.
pub open spec fn displayed(log: Seq<EventView>) -> Seq<MapBin>
    decreases log.len(),
{
    if log.len() == 0 {
        Seq::empty()
    } else {
        match log.last() {
            EventView::MapUpdated { job_id, full_snapshot, bins } => crate::map_view::merged(
                displayed(log.drop_last()),
                full_snapshot,
                bins,
            ),
            _ => displayed(log.drop_last()),
        }
    }
}

/// Whether a map counts its bytes and the display has learned everything of
/// it.
pub open spec fn is_shown(map: MapView) -> bool {
    &&& map.frame.valid()
    &&& block_map::bins_valid(map.frame, map.bins)
    &&& map.marks == Seq::new(map.frame.count, |i: int| false)
}

/// Whether the display shows the map of a walk, once the walk has told it.
pub open spec fn display_agrees(s: ScanView, log: Seq<EventView>) -> bool {
    &&& is_shown(s.map)
    &&& {
        ||| s.stage == ScanStage::Starting
        ||| s.stage == ScanStage::OpeningRoot
        ||| s.stage == ScanStage::ReadingMap
        ||| displayed(log) == block_map::map_bins(s.map.frame, s.map.bins)
    }
}

proof fn lemma_scanned_catches_up(map: MapView, list: Seq<ScannedRange>)
    requires
        is_shown(map),
    ensures
        ({
            let after = scanned_all(map, list);
            &&& after.frame == map.frame
            &&& block_map::bins_valid(map.frame, after.bins)
            &&& block_map::catches_up(map.frame, map.bins, after.bins, after.marks)
        }),
    decreases list.len(),
{
    if list.len() > 0 {
        lemma_scanned_catches_up(map, list.drop_last());
        let before = scanned_all(map, list.drop_last());
        let one = list.last();
        let op = block_map::scan_op(one.fragmented);
        block_map::lemma_op_keeps_bins(
            map.frame,
            before.bins,
            op,
            one.range.offset_bytes,
            one.range.length_bytes,
        );
        block_map::lemma_marks_catch_up(
            map.frame,
            map.bins,
            before.bins,
            before.marks,
            op,
            one.range.offset_bytes,
            one.range.length_bytes,
        );
    }
}

proof fn lemma_untold(log: Seq<EventView>, event: EventView)
    requires
        !(event is MapUpdated),
    ensures
        displayed(log.push(event)) == displayed(log),
{
    assert(log.push(event).drop_last() =~= log);
}

proof fn lemma_told(log: Seq<EventView>, job_id: JobId, full_snapshot: bool, bins: Seq<MapBin>)
    ensures
        displayed(log.push(EventView::MapUpdated { job_id, full_snapshot, bins }))
            == crate::map_view::merged(displayed(log), full_snapshot, bins),
{
    let event = EventView::MapUpdated { job_id, full_snapshot, bins };
    assert(log.push(event).drop_last() =~= log);
}

proof fn lemma_catching_up_is_displayed(s: ScanView, log: Seq<EventView>)
    requires
        is_shown(s.map),
    ensures
        is_shown(caught_up(s).map),
        caught_up(s).map.frame == s.map.frame,
        displayed(log) == block_map::map_bins(s.map.frame, s.map.bins)
            ==> displayed(map_news(s, log)) == block_map::map_bins(
            s.map.frame,
            caught_up(s).map.bins,
        ),
{
    let after = scanned_all(s.map, s.pending);
    lemma_scanned_catches_up(s.map, s.pending);
    if displayed(log) == block_map::map_bins(s.map.frame, s.map.bins) {
        block_map::lemma_changes_complete_the_display(
            s.map.frame,
            s.map.bins,
            after.bins,
            after.marks,
        );
        lemma_told(log, s.job_id, false, news(after));
    }
}

proof fn lemma_fresh_map_is_shown(ranges: Seq<FsMapRange>, capacity: u64)
    ensures
        is_shown(fresh_map(ranges, capacity)),
{
    block_map::lemma_frame_valid(ranges, capacity, MAP_BINS);
    block_map::lemma_painted_valid(block_map::frame_of(ranges, capacity, MAP_BINS), ranges);
}

proof fn lemma_walking_on_is_displayed(s: ScanView, log: Seq<EventView>)
    requires
        is_shown(s.map),
        displayed(log) == block_map::map_bins(s.map.frame, s.map.bins),
    ensures
        display_agrees(walk_on(s, log).scan, walk_on(s, log).log),
{
    let progress = progress_event(s, AnalysisPhase::BuildingReport, None);
    lemma_untold(log, progress);
    lemma_catching_up_is_displayed(s, log.push(progress));
}

/// A display that applies the updates of a walk in order shows at every step
/// the map that the walk has; at the end that is the map of the report.
pub proof fn lemma_display_follows_walk(
    s: ScanView,
    log: Seq<EventView>,
    event: ScanEventView,
    now: u64,
)
    requires
        display_agrees(s, log),
        answers(s.stage, event),
    ensures
        ({
            let turn = scan_turn(s, log, event, now);
            &&& display_agrees(turn.scan, turn.log)
            &&& turn.scan.stage == ScanStage::Finished ==> displayed(turn.log) == scan_report(turn.scan).map
        }),
        forall|kind: ScanKind, volume: VolumeView, job: JobId, told: Seq<EventView>|
            #[trigger] display_agrees(new_scan(kind, volume, job), told),
{
    assert forall|kind: ScanKind, volume: VolumeView, job: JobId, told: Seq<EventView>|
        #[trigger] display_agrees(new_scan(kind, volume, job), told) by {
        lemma_fresh_map_is_shown(Seq::empty(), volume.capacity_bytes);
    }
    match (s.stage, event) {
        (_, ScanEventView::Cancelled) => {},
        (ScanStage::Starting, _) => {
            let told = log.push(progress_event(s, AnalysisPhase::ReadingAllocationMap, None));
            if let (Some(root), ScanKind::Fat) = (s.volume.mount_point, s.kind) {
                let bins = block_map::map_bins(s.map.frame, s.map.bins);
                lemma_told(told, s.job_id, true, bins);
                lemma_walking_on_is_displayed(
                    ScanView { path: root, stack: seq![root], last_update: now, ..s },
                    told.push(snapshot_event(s)),
                );
            }
        },
        (_, ScanEventView::MapRead(read)) => {
            let ranges = match read {
                Ok(ranges) => ranges,
                Err(_) => Seq::empty(),
            };
            let after = map_read(s, log, read).scan;
            lemma_fresh_map_is_shown(ranges, s.volume.capacity_bytes);
            lemma_told(
                log,
                s.job_id,
                true,
                block_map::map_bins(after.map.frame, after.map.bins),
            );
        },
        (_, ScanEventView::Swaps(contents)) => {
            lemma_walking_on_is_displayed(
                ScanView {
                    swaps: swap_paths(contents),
                    stack: seq![s.path],
                    last_update: now,
                    ..s
                },
                log,
            );
        },
        (_, ScanEventView::DirectoryUnreadable) => {
            lemma_walking_on_is_displayed(skipped(s), log);
        },
        (_, ScanEventView::EndOfDirectory) => {
            lemma_walking_on_is_displayed(s, log);
        },
        (ScanStage::MappingFile { facts }, ScanEventView::FileMapped { extents: list, flags }) => {
            let more = reported(s, report_at(s, facts, list, flags));
            lemma_catching_up_is_displayed(more, log);
            lemma_untold(
                map_news(more, log),
                progress_event(more, AnalysisPhase::WalkingFiles, Some(s.path)),
            );
        },
        _ => {},
    }
}

/// A walk keeps to its mount: an entry that lies on another mount, or whose
/// mount is unknown, adds neither a directory to list nor a report.
pub proof fn lemma_walk_keeps_to_its_mount(
    s: ScanView,
    log: Seq<EventView>,
    facts: FileFacts,
    id: Option<u64>,
    now: u64,
)
    requires
        s.stage == (ScanStage::ReadingMountId { facts }),
        id is None || id != s.volume.mount_id,
    ensures
        ({
            let turn = scan_turn(s, log, ScanEventView::MountId(id), now);
            &&& turn.scan.stack == s.stack
            &&& turn.scan.files == s.files
            &&& turn.scan.stage == ScanStage::ReadingEntry
        }),
{
}

/// Symbolic links are not followed: the walk goes on to the next entry as if
/// there were none.
pub proof fn lemma_symbolic_links_are_not_followed(
    s: ScanView,
    log: Seq<EventView>,
    facts: FileFacts,
    now: u64,
)
    requires
        s.stage == ScanStage::ReadingFacts,
        facts.kind == FileKind::Symlink,
    ensures
        scan_turn(s, log, ScanEventView::Facts(Some(facts)), now) == (Turn {
            scan: ScanView { stage: ScanStage::ReadingEntry, ..s },
            log,
            result: Ok(ActionView::ReadEntry),
        }),
{
}

/// Whether an event says that something could not be read.
pub open spec fn is_unread(stage: ScanStage, event: ScanEventView) -> bool {
    match event {
        ScanEventView::DirectoryUnreadable | ScanEventView::FileUnreadable => true,
        ScanEventView::FileUnmapped(_) => true,
        ScanEventView::Facts(facts) => facts is None,
        ScanEventView::MountId(id) => id is None,
        ScanEventView::Passed => stage == (ScanStage::AtEntry { readable: false }),
        _ => false,
    }
}

/// What could not be read or mapped is counted, no count is taken back, and
/// a report that says that it is complete has none of it.
pub proof fn lemma_what_is_unread_is_counted(
    s: ScanView,
    log: Seq<EventView>,
    event: ScanEventView,
    now: u64,
)
    requires
        answers(s.stage, event),
    ensures
        ({
            let before = s.coverage.skipped_entries;
            let after = scan_turn(s, log, event, now).scan.coverage.skipped_entries;
            &&& after >= before
            &&& is_unread(s.stage, event) ==> after == arith::sat64(before + 1)
        }),
        scan_report(s).completeness == AnalysisCompleteness::Complete
            ==> s.coverage.skipped_entries == 0,
{
}

/// A file is looked at once, whatever number of names it has.
pub proof fn lemma_links_are_counted_once(
    s: ScanView,
    log: Seq<EventView>,
    facts: FileFacts,
    id: Option<u64>,
    now: u64,
)
    requires
        s.stage == (ScanStage::ReadingMountId { facts }),
    ensures
        ({
            let turn = scan_turn(s, log, ScanEventView::MountId(id), now);
            &&& turn.scan.stage is MappingFile ==> !s.seen.contains(
                inode_key(facts.device, facts.inode),
            ) && turn.scan.seen.contains(inode_key(facts.device, facts.inode))
            &&& s.seen.subset_of(turn.scan.seen)
        }),
{
}

/// Whether the bins of a map hold file data and unscanned bytes alone.
pub open spec fn holds_data_alone(bins: Seq<Seq<u64>>) -> bool {
    forall|i: int|
        0 <= i < bins.len() ==> {
            let bin = #[trigger] bins[i];
            &&& bin.len() == block_map::CATEGORY_COUNT
            &&& forall|c: int|
                0 <= c < bin.len() && c != block_map::CONTIGUOUS_DATA && c
                    != block_map::FRAGMENTED_DATA && c != block_map::UNSCANNED_DATA
                    ==> #[trigger] bin[c] == 0
        }
}

/// Whether a FAT walk has located neither free space nor metadata: there is no
/// map to read them from.
pub open spec fn locates_data_alone(s: ScanView) -> bool {
    s.kind == ScanKind::Fat ==> {
        &&& s.stage != ScanStage::OpeningRoot
        &&& s.stage != ScanStage::ReadingMap
        &&& s.stage != ScanStage::ReadingSwaps
        &&& holds_data_alone(s.map.bins)
    }
}

/// Whether a bin shows neither free space nor metadata.
pub open spec fn shows_data_alone(bin: MapBin) -> bool {
    &&& bin.mix.free == 0
    &&& bin.mix.defrag_staging == 0
    &&& bin.mix.metadata.filesystem_headers == 0
    &&& bin.mix.metadata.journal == 0
    &&& bin.mix.metadata.allocation_tables == 0
    &&& bin.mix.metadata.file_metadata == 0
    &&& bin.mix.metadata.group_descriptors == 0
    &&& bin.mix.metadata.block_bitmaps == 0
    &&& bin.mix.metadata.file_bitmaps == 0
    &&& bin.mix.metadata.reserved == 0
    &&& bin.mix.metadata.other == 0
}

proof fn lemma_scanning_adds_data(map: MapView, list: Seq<ScannedRange>)
    requires
        holds_data_alone(map.bins),
    ensures
        holds_data_alone(scanned_all(map, list).bins),
    decreases list.len(),
{
    if list.len() > 0 {
        lemma_scanning_adds_data(map, list.drop_last());
        let before = scanned_all(map, list.drop_last());
        let after = scanned_all(map, list);
        assert forall|i: int| 0 <= i < after.bins.len() implies {
            let bin = #[trigger] after.bins[i];
            &&& bin.len() == block_map::CATEGORY_COUNT
            &&& forall|c: int|
                0 <= c < bin.len() && c != block_map::CONTIGUOUS_DATA && c
                    != block_map::FRAGMENTED_DATA && c != block_map::UNSCANNED_DATA
                    ==> #[trigger] bin[c] == 0
        } by {
            let old_bin = before.bins[i];
            assert(old_bin.len() == block_map::CATEGORY_COUNT);
        }
    }
}

proof fn lemma_share_of_nothing(length: int)
    requires
        length >= 1,
    ensures
        block_map::share(0, length) == 0,
{
    assert(0u64 * 10_000 / length == 0) by (nonlinear_arith)
        requires
            length >= 1,
    ;
}

/// A FAT walk locates neither free space nor metadata: at every step, and in
/// its report, each bin is file data or unscanned.
pub proof fn lemma_fat_walks_locate_data_alone(
    s: ScanView,
    log: Seq<EventView>,
    event: ScanEventView,
    now: u64,
)
    requires
        locates_data_alone(s),
        answers(s.stage, event),
    ensures
        locates_data_alone(scan_turn(s, log, event, now).scan),
        s.kind == ScanKind::Fat ==> forall|i: int|
            0 <= i < scan_report(s).map.len() ==> shows_data_alone(
                #[trigger] scan_report(s).map[i],
            ),
        forall|kind: ScanKind, volume: VolumeView, job: JobId|
            locates_data_alone(#[trigger] new_scan(kind, volume, job)),
{
    if s.kind == ScanKind::Fat {
        lemma_scanning_adds_data(s.map, s.pending);
        if let (ScanStage::MappingFile { facts }, ScanEventView::FileMapped { extents, flags }) = (
            s.stage,
            event,
        ) {
            let more = reported(s, report_at(s, facts, extents, flags));
            lemma_scanning_adds_data(more.map, more.pending);
        }
        assert forall|i: int| 0 <= i < scan_report(s).map.len() implies shows_data_alone(
            #[trigger] scan_report(s).map[i],
        ) by {
            let bin = s.map.bins[i];
            let length = arith::max_int(s.map.frame.bin_len(i), 1);
            lemma_share_of_nothing(length);
            assert(bin.len() == block_map::CATEGORY_COUNT);
            assert(bin[0] == 0 && bin[4] == 0 && bin[5] == 0 && bin[6] == 0 && bin[7] == 0
                && bin[8] == 0 && bin[9] == 0 && bin[10] == 0 && bin[11] == 0 && bin[12] == 0
                && bin[13] == 0);
        }
    }
}

} // verus!
