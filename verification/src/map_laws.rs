//! What holds of every drive map: that its bins divide the volume, and that
//! each byte of a volume shows as what it is known to be.

use vstd::prelude::*;

use crate::arith;
use crate::block_map;
use crate::block_map::{Frame, MapOp};
use crate::domain::{AnalysisReportView, EventView, FileReportView, PhysicalRange};
use crate::linux::{FsMapKind, FsMapRange, MetadataKind};
use crate::report_map;
use crate::scan;
use crate::scan::{MapView, ScanEventView, ScanKind, ScanStage, ScanView, ScannedRange};

verus! {

// ---------------------------------------------------------------------
// How a volume is cut
// ---------------------------------------------------------------------

proof fn lemma_bounds_of_ranges(ranges: Seq<FsMapRange>, otherwise: int, k: int)
    requires
        0 <= k < ranges.len(),
    ensures
        block_map::lowest_start(ranges) <= ranges[k].physical,
        block_map::highest_end(ranges, otherwise) >= arith::sat64(
            ranges[k].physical + ranges[k].length,
        ),
        exists|i: int|
            0 <= i < ranges.len() && block_map::lowest_start(ranges) == (
            #[trigger] ranges[i]).physical,
    decreases ranges.len(),
{
    if ranges.len() > 1 {
        let rest = ranges.drop_last();
        lemma_bounds_of_ranges(rest, otherwise, if k < rest.len() { k } else { 0 });
        if block_map::lowest_start(rest) <= ranges.last().physical {
            let i = choose|i: int|
                0 <= i < rest.len() && block_map::lowest_start(rest) == (
                #[trigger] rest[i]).physical;
            assert(ranges[i] == rest[i]);
        } else {
            assert(ranges[ranges.len() - 1] == ranges.last());
        }
    } else {
        assert(ranges[0] == ranges.last());
    }
}

/// The cut of a volume holds every known range and its whole capacity, begins
/// where the first range does, and has no more bins than were asked for, of
/// one size that could not be smaller.
pub proof fn lemma_cut_holds_the_volume(
    ranges: Seq<FsMapRange>,
    capacity: u64,
    requested: usize,
    k: int,
)
    requires
        requested > 0,
    ensures
        ({
            let frame = block_map::frame_of(ranges, capacity, requested);
            &&& frame.valid()
            &&& 1 <= frame.count <= requested
            &&& ranges.len() == 0 ==> frame.start == 0 && frame.end == capacity
            &&& frame.start + capacity <= u64::MAX ==> frame.end >= frame.start + capacity
            &&& 0 <= k < ranges.len() && ranges[k].physical + ranges[k].length <= u64::MAX ==> {
                &&& frame.start <= ranges[k].physical
                &&& ranges[k].physical + ranges[k].length <= frame.end
            }
            &&& frame.end - frame.start >= requested ==> frame.count == requested
            &&& frame.end - frame.start < requested && frame.end > frame.start ==> frame.span == 1
                && frame.count == frame.end - frame.start
            &&& frame.end > frame.start ==> frame.count * frame.span < frame.end - frame.start
                + frame.count
        }),
{
    block_map::lemma_frame_valid(ranges, capacity, requested);
    block_map::lemma_start_bounds(ranges, capacity as int);
    if 0 <= k < ranges.len() {
        lemma_bounds_of_ranges(ranges, capacity as int, k);
    }
    let frame = block_map::frame_of(ranges, capacity, requested);
    let total = arith::max_int(frame.end - frame.start, 1);
    arith::lemma_ceil_div(total, frame.count as int);
    assert(frame.count * frame.span == frame.span * frame.count) by (nonlinear_arith);
    if frame.end - frame.start < requested && frame.end > frame.start {
        assert(frame.count == total);
        assert((total + total - 1) / total == 1) by (nonlinear_arith)
            requires
                total >= 1,
        ;
    }
}

/// How many bytes of a range fall into the first `n` bins.
pub open spec fn held_below(frame: Frame, physical: u64, length: u64, n: int) -> int
    decreases n,
{
    if n <= 0 {
        0
    } else {
        held_below(frame, physical, length, n - 1) + frame.overlap(n - 1, physical, length)
    }
}

proof fn lemma_held_below(frame: Frame, physical: u64, length: u64, n: int)
    requires
        frame.valid(),
        frame.start <= physical,
        physical + length <= frame.end,
        0 <= n,
        frame.start + n * frame.span <= u64::MAX,
    ensures
        held_below(frame, physical, length, n) == arith::max_int(
            arith::min_int(physical + length, frame.start + n * frame.span) - physical,
            0,
        ),
    decreases n,
{
    if n > 0 {
        assert((n - 1) * frame.span + frame.span == n * frame.span) by (nonlinear_arith);
        assert((n - 1) * frame.span >= 0) by (nonlinear_arith)
            requires
                n >= 1,
                frame.span >= 0,
        ;
        lemma_held_below(frame, physical, length, n - 1);
    } else {
        assert(0 * frame.span == 0) by (nonlinear_arith);
    }
}

/// Each byte of a range lies in one bin: the parts of a range that fall into
/// the bins are together as long as the range.
pub proof fn lemma_bins_divide_a_range(frame: Frame, physical: u64, length: u64)
    requires
        frame.valid(),
        frame.start <= physical,
        physical + length <= frame.end,
        frame.start + frame.count * frame.span <= u64::MAX,
    ensures
        held_below(frame, physical, length, frame.count as int) == length,
{
    lemma_held_below(frame, physical, length, frame.count as int);
}

/// A bin holds the bytes of a range that lie between its own bounds.
pub proof fn lemma_overlap_is_shared(frame: Frame, physical: u64, length: u64, i: int)
    requires
        frame.valid(),
        0 <= i < frame.count,
        frame.start + frame.count * frame.span <= u64::MAX,
        physical + length <= u64::MAX,
    ensures
        ({
            let at = frame.start + i * frame.span;
            let shared = frame.overlap(i, physical, length);
            &&& 0 <= shared <= length
            &&& shared <= frame.span
            &&& physical <= at && at + frame.span <= physical + length ==> shared == frame.span
            &&& at <= physical && physical + length <= at + frame.span ==> shared == length
            &&& shared > 0 <==> length > 0 && physical < at + frame.span && at < physical + length
        }),
{
    assert(i * frame.span >= 0 && (i + 1) * frame.span <= frame.count * frame.span)
        by (nonlinear_arith)
        requires
            0 <= i < frame.count,
            frame.span >= 1,
    ;
    assert((i + 1) * frame.span == i * frame.span + frame.span) by (nonlinear_arith);
}

// ---------------------------------------------------------------------
// What files show as
// ---------------------------------------------------------------------

/// How many bytes of the ranges of fragmented files, or of those of files
/// that are not, fall into a bin.
pub open spec fn reached(frame: Frame, list: Seq<ScannedRange>, fragmented: bool, i: int) -> int
    decreases list.len(),
{
    if list.len() == 0 {
        0
    } else {
        reached(frame, list.drop_last(), fragmented, i) + (if list.last().fragmented == fragmented {
            frame.overlap(i, list.last().range.offset_bytes, list.last().range.length_bytes)
        } else {
            0
        })
    }
}

proof fn lemma_reached_grows(frame: Frame, list: Seq<ScannedRange>, fragmented: bool, i: int, k: int)
    requires
        0 <= k < list.len(),
    ensures
        reached(frame, list, fragmented, i) >= 0,
        list[k].fragmented == fragmented ==> reached(frame, list, fragmented, i) >= frame.overlap(
            i,
            list[k].range.offset_bytes,
            list[k].range.length_bytes,
        ),
    decreases list.len(),
{
    reveal_with_fuel(reached, 2);
    if list.len() > 1 {
        let rest = list.drop_last();
        lemma_reached_grows(frame, rest, fragmented, i, if k < rest.len() { k } else { 0 });
    }
}

proof fn lemma_reached_positive(frame: Frame, list: Seq<ScannedRange>, fragmented: bool, i: int)
    ensures
        reached(frame, list, fragmented, i) >= 0,
{
    if list.len() > 0 {
        lemma_reached_grows(frame, list, fragmented, i, 0);
    }
}

/// Scanned ranges show as what their files are: in a bin that has room for
/// them among its unscanned bytes, the bytes of fragmented files become
/// fragmented data, those of other files contiguous data, and nothing else
/// changes.
pub proof fn lemma_scanned_ranges_show(map: MapView, list: Seq<ScannedRange>, i: int)
    requires
        block_map::bins_valid(map.frame, map.bins),
        map.frame.valid(),
        0 <= i < map.bins.len(),
        reached(map.frame, list, true, i) + reached(map.frame, list, false, i)
            <= map.bins[i][3],
    ensures
        ({
            let before = map.bins[i];
            let after = scan::scanned_all(map, list);
            &&& after.frame == map.frame
            &&& after.bins.len() == map.bins.len()
            &&& after.bins[i].len() == before.len()
            &&& after.bins[i][1] == before[1] + reached(map.frame, list, false, i)
            &&& after.bins[i][2] == before[2] + reached(map.frame, list, true, i)
            &&& after.bins[i][3] == before[3] - reached(map.frame, list, true, i) - reached(
                map.frame,
                list,
                false,
                i,
            )
            &&& after.bins[i][0] == before[0]
            &&& forall|c: int| 4 <= c < before.len() ==> #[trigger] after.bins[i][c] == before[c]
        }),
        block_map::bins_valid(map.frame, scan::scanned_all(map, list).bins),
    decreases list.len(),
{
    if list.len() > 0 {
        let rest = list.drop_last();
        let one = list.last();
        lemma_reached_positive(map.frame, rest, true, i);
        lemma_reached_positive(map.frame, rest, false, i);
        lemma_reached_positive(map.frame, list, true, i);
        lemma_scanned_ranges_show(map, rest, i);
        let before = scan::scanned_all(map, rest);
        let amount = map.frame.overlap(i, one.range.offset_bytes, one.range.length_bytes);
        block_map::lemma_op_keeps_bins(
            before.frame,
            before.bins,
            block_map::scan_op(one.fragmented),
            one.range.offset_bytes,
            one.range.length_bytes,
        );
        let bin = before.bins[i];
        let to: int = if one.fragmented {
            2
        } else {
            1
        };
        block_map::lemma_shift_keeps_sum(bin, 3, to, amount);
    }
}

/// The ranges of files, each with whether its file has more runs than it
/// needs.
pub open spec fn data_ranges(files: Seq<FileReportView>) -> Seq<ScannedRange>
    decreases files.len(),
{
    if files.len() == 0 {
        Seq::empty()
    } else {
        let file = files.last();
        data_ranges(files.drop_last()) + Seq::new(
            file.physical_ranges.len(),
            |k: int|
                ScannedRange { range: file.physical_ranges[k], fragmented: file.excess_runs >= 1 },
        )
    }
}

proof fn lemma_data_ranges_hold(files: Seq<FileReportView>, f: int, r: int) -> (k: int)
    requires
        0 <= f < files.len(),
        0 <= r < files[f].physical_ranges.len(),
    ensures
        0 <= k < data_ranges(files).len(),
        data_ranges(files)[k] == (ScannedRange {
            range: files[f].physical_ranges[r],
            fragmented: files[f].excess_runs >= 1,
        }),
    decreases files.len(),
{
    let rest = files.drop_last();
    if f < rest.len() {
        let k = lemma_data_ranges_hold(rest, f, r);
        assert(data_ranges(files)[k] == data_ranges(rest)[k]);
        k
    } else {
        let k = data_ranges(rest).len() + r;
        assert(files.last() == files[f]);
        k
    }
}

proof fn lemma_scanned_in_parts(map: MapView, a: Seq<ScannedRange>, b: Seq<ScannedRange>)
    ensures
        scan::scanned_all(map, a + b) == scan::scanned_all(scan::scanned_all(map, a), b),
    decreases b.len(),
{
    if b.len() == 0 {
        assert(a + b =~= a);
    } else {
        lemma_scanned_in_parts(map, a, b.drop_last());
        assert((a + b).drop_last() =~= a + b.drop_last());
        assert((a + b).last() == b.last());
    }
}

/// What a map shows does not depend on what the display has learned of it.
proof fn lemma_marks_do_not_matter(a: MapView, b: MapView, list: Seq<ScannedRange>)
    requires
        a.frame == b.frame,
        a.bins == b.bins,
    ensures
        scan::scanned_all(a, list).frame == scan::scanned_all(b, list).frame,
        scan::scanned_all(a, list).bins == scan::scanned_all(b, list).bins,
    decreases list.len(),
{
    if list.len() > 0 {
        lemma_marks_do_not_matter(a, b, list.drop_last());
    }
}

/// Whether a walk has not read its allocation map yet.
pub open spec fn is_early(stage: ScanStage) -> bool {
    stage == ScanStage::Starting || stage == ScanStage::OpeningRoot || stage
        == ScanStage::ReadingMap
}

/// Whether the map of a walk, once it has learned of the ranges that wait,
/// is that of the given ranges with every file of the walk drawn over them.
pub open spec fn shows_files(s: ScanView, ranges: Seq<FsMapRange>) -> bool {
    let fresh = scan::fresh_map(ranges, s.volume.capacity_bytes);
    let caught = scan::scanned_all(s.map, s.pending);
    &&& is_early(s.stage) ==> s.files.len() == 0 && s.pending.len() == 0
    &&& s.kind == ScanKind::Fat ==> s.stage != ScanStage::OpeningRoot && s.stage
        != ScanStage::ReadingMap && s.stage != ScanStage::ReadingSwaps
    &&& s.kind == ScanKind::Fat || !is_early(s.stage) ==> {
        &&& caught.frame == fresh.frame
        &&& caught.bins == scan::scanned_all(fresh, data_ranges(s.files)).bins
    }
    &&& s.stage == ScanStage::Finished ==> s.pending.len() == 0
}

proof fn lemma_caught_up_shows(s: ScanView, t: ScanView, ranges: Seq<FsMapRange>)
    requires
        !is_early(s.stage) || s.kind == ScanKind::Fat,
        shows_files(s, ranges),
        t.volume == s.volume,
        t.kind == s.kind,
        t.files == s.files,
        !is_early(t.stage),
        s.kind == ScanKind::Fat ==> t.stage != ScanStage::ReadingSwaps,
        t.map == scan::shown(scan::scanned_all(s.map, s.pending)),
        t.pending == Seq::<ScannedRange>::empty(),
    ensures
        shows_files(t, ranges),
{
}

/// A walk draws its files: at every step its map is that of the allocation
/// map that it has read, with each file that it found drawn over it, as
/// fragmented data where the file has excess runs and as contiguous data
/// where it has none.
pub proof fn lemma_walk_draws_its_files(
    s: ScanView,
    log: Seq<EventView>,
    event: ScanEventView,
    now: u64,
    ranges: Seq<FsMapRange>,
)
    requires
        shows_files(s, ranges),
        scan::answers(s.stage, event),
        event matches ScanEventView::MapRead(Ok(read)) ==> ranges == read,
        event matches ScanEventView::MapRead(Err(_)) ==> ranges.len() == 0,
    ensures
        shows_files(scan::scan_turn(s, log, event, now).scan, ranges),
        forall|volume: crate::domain::VolumeView, job: crate::domain::JobId|
            shows_files(#[trigger] scan::new_scan(ScanKind::Fat, volume, job), Seq::empty()),
        forall|volume: crate::domain::VolumeView, job: crate::domain::JobId|
            shows_files(#[trigger] scan::new_scan(ScanKind::Ext4, volume, job), ranges),
{
    let next = scan::scan_turn(s, log, event, now).scan;
    match (s.stage, event) {
        (ScanStage::MappingFile { facts }, ScanEventView::FileMapped { extents, flags }) => {
            let report = scan::report_at(s, facts, extents, flags);
            let more = scan::reported(s, report);
            let added = Seq::new(
                report.physical_ranges.len(),
                |k: int|
                    ScannedRange {
                        range: report.physical_ranges[k],
                        fragmented: report.excess_runs >= 1,
                    },
            );
            let fresh = scan::fresh_map(ranges, s.volume.capacity_bytes);
            assert(more.pending =~= s.pending + added);
            assert(more.files.drop_last() =~= s.files);
            assert(data_ranges(more.files) =~= data_ranges(s.files) + added);
            lemma_scanned_in_parts(s.map, s.pending, added);
            lemma_scanned_in_parts(fresh, data_ranges(s.files), added);
            lemma_scanned_frame(fresh, data_ranges(s.files));
            lemma_scanned_frame(fresh, data_ranges(more.files));
            lemma_marks_do_not_matter(
                scan::scanned_all(s.map, s.pending),
                scan::scanned_all(fresh, data_ranges(s.files)),
                added,
            );
            assert(shows_files(more, ranges));
            if scan::is_due(more, now) {
                lemma_caught_up_shows(more, next, ranges);
            }
        },
        (_, ScanEventView::MapRead(read)) => {
            if read is Err {
                assert(ranges =~= Seq::empty());
            }
        },
        _ => {},
    }
}

proof fn lemma_scanned_frame(map: MapView, list: Seq<ScannedRange>)
    ensures
        scan::scanned_all(map, list).frame == map.frame,
    decreases list.len(),
{
    if list.len() > 0 {
        lemma_scanned_frame(map, list.drop_last());
    }
}

/// In the map of a finished walk fragmented files show: where the files of a
/// walk fit into the unscanned bytes of a bin, the bin counts as fragmented
/// data the bytes of the files that have excess runs, as contiguous data
/// those of the files that have none, and so every bin that a range of a
/// fragmented file reaches has fragmented data.
pub proof fn lemma_fragmented_files_show(
    s: ScanView,
    ranges: Seq<FsMapRange>,
    i: int,
    f: int,
    r: int,
)
    requires
        s.stage == ScanStage::Finished,
        shows_files(s, ranges),
        0 <= f < s.files.len(),
        0 <= r < s.files[f].physical_ranges.len(),
        0 <= i < s.map.frame.count,
        ({
            let fresh = scan::fresh_map(ranges, s.volume.capacity_bytes);
            let list = data_ranges(s.files);
            reached(s.map.frame, list, true, i) + reached(s.map.frame, list, false, i)
                <= fresh.bins[i][3]
        }),
    ensures
        ({
            let fresh = scan::fresh_map(ranges, s.volume.capacity_bytes);
            let list = data_ranges(s.files);
            let bin = s.map.bins[i];
            let range = s.files[f].physical_ranges[r];
            let shared = s.map.frame.overlap(i, range.offset_bytes, range.length_bytes);
            &&& bin[2] == fresh.bins[i][2] + reached(s.map.frame, list, true, i)
            &&& bin[1] == fresh.bins[i][1] + reached(s.map.frame, list, false, i)
            &&& s.files[f].excess_runs >= 1 ==> bin[2] >= shared
            &&& s.files[f].excess_runs == 0 ==> bin[1] >= shared
        }),
{
    let fresh = scan::fresh_map(ranges, s.volume.capacity_bytes);
    let list = data_ranges(s.files);
    assert(s.pending =~= Seq::empty());
    block_map::lemma_frame_valid(ranges, s.volume.capacity_bytes, scan::MAP_BINS);
    block_map::lemma_painted_valid(fresh.frame, ranges);
    lemma_scanned_ranges_show(fresh, list, i);
    let k = lemma_data_ranges_hold(s.files, f, r);
    lemma_reached_grows(s.map.frame, list, true, i, k);
    lemma_reached_grows(s.map.frame, list, false, i, k);
}

// ---------------------------------------------------------------------
// What known ranges show as
// ---------------------------------------------------------------------

/// How many bytes of the ranges of a kind fall into a bin.
pub open spec fn known(frame: Frame, ranges: Seq<FsMapRange>, kind: FsMapKind, i: int) -> int
    decreases ranges.len(),
{
    if ranges.len() == 0 {
        0
    } else {
        known(frame, ranges.drop_last(), kind, i) + (if ranges.last().kind == kind {
            frame.overlap(i, ranges.last().physical, ranges.last().length)
        } else {
            0
        })
    }
}

/// How many bytes of a bin are known to be anything but file data.
pub open spec fn settled(frame: Frame, ranges: Seq<FsMapRange>, i: int) -> int
    decreases ranges.len(),
{
    if ranges.len() == 0 {
        0
    } else {
        settled(frame, ranges.drop_last(), i) + (if ranges.last().kind != FsMapKind::Allocated {
            frame.overlap(i, ranges.last().physical, ranges.last().length)
        } else {
            0
        })
    }
}

proof fn lemma_settled_positive(frame: Frame, ranges: Seq<FsMapRange>, i: int)
    ensures
        settled(frame, ranges, i) >= 0,
    decreases ranges.len(),
{
    if ranges.len() > 0 {
        lemma_settled_positive(frame, ranges.drop_last(), i);
    }
}

/// Whether a bin holds what the ranges say of it.
pub open spec fn holds_known(frame: Frame, ranges: Seq<FsMapRange>, bin: Seq<u64>, i: int) -> bool {
    &&& bin.len() == 14
    &&& bin[0] == known(frame, ranges, FsMapKind::Free, i)
    &&& bin[1] == 0
    &&& bin[2] == 0
    &&& bin[3] == frame.bin_len(i) - settled(frame, ranges, i)
    &&& bin[4] == 0
    &&& bin[5] == known(frame, ranges, FsMapKind::Metadata(MetadataKind::FilesystemHeaders), i)
    &&& bin[6] == known(frame, ranges, FsMapKind::Metadata(MetadataKind::Journal), i)
    &&& bin[7] == known(frame, ranges, FsMapKind::Metadata(MetadataKind::AllocationTables), i)
    &&& bin[8] == known(frame, ranges, FsMapKind::Metadata(MetadataKind::FileMetadata), i)
    &&& bin[9] == known(frame, ranges, FsMapKind::Metadata(MetadataKind::GroupDescriptors), i)
    &&& bin[10] == known(frame, ranges, FsMapKind::Metadata(MetadataKind::BlockBitmaps), i)
    &&& bin[11] == known(frame, ranges, FsMapKind::Metadata(MetadataKind::FileBitmaps), i)
    &&& bin[12] == known(frame, ranges, FsMapKind::Metadata(MetadataKind::Reserved), i)
    &&& bin[13] == known(frame, ranges, FsMapKind::Metadata(MetadataKind::Other), i)
}

/// Known ranges show as what they are: where they do not claim more of a bin
/// than it has, each kind of metadata and the free space is counted with the
/// bytes of its ranges, and everything else is unscanned.
pub proof fn lemma_known_ranges_show(frame: Frame, ranges: Seq<FsMapRange>, i: int)
    requires
        frame.valid(),
        0 <= i < frame.count,
        settled(frame, ranges, i) <= frame.bin_len(i),
    ensures
        holds_known(frame, ranges, block_map::painted(frame, ranges)[i], i),
    decreases ranges.len(),
{
    if ranges.len() > 0 {
        let rest = ranges.drop_last();
        let one = ranges.last();
        lemma_settled_positive(frame, rest, i);
        lemma_settled_positive(frame, ranges, i);
        lemma_known_ranges_show(frame, rest, i);
        block_map::lemma_painted_valid(frame, rest);
        let bin = block_map::painted(frame, rest)[i];
        let amount = frame.overlap(i, one.physical, one.length);
        let to = block_map::kind_slot(one.kind) as int;
        if one.kind != FsMapKind::Allocated {
            block_map::lemma_shift_keeps_sum(bin, 3, to, amount);
            assert(block_map::painted(frame, ranges)[i] == block_map::shifted(bin, 3, to, amount));
        } else {
            let given = arith::min_int(bin[3] as int, amount);
            assert(block_map::painted(frame, ranges)[i] == block_map::shifted(bin, 3, 3, given));
            assert(block_map::shifted(bin, 3, 3, given) =~= bin);
        }
    }
}

/// Hundredths of a percent of a length, rounded down.
pub open spec fn points(bytes: int, length: int) -> int {
    bytes * 10_000 / length
}

proof fn lemma_points(bytes: u64, length: int)
    requires
        1 <= length,
        bytes <= length,
    ensures
        block_map::share(bytes, length) == points(bytes as int, length),
        0 <= points(bytes as int, length) <= 10_000,
{
    vstd::arithmetic::div_mod::lemma_div_is_ordered(
        bytes * 10_000,
        length * 10_000,
        length,
    );
    vstd::arithmetic::div_mod::lemma_div_multiples_vanish(10_000, length);
    vstd::arithmetic::div_mod::lemma_div_pos_is_pos(bytes * 10_000, length);
}

/// A bin is displayed where it lies, with the share of each thing that it
/// holds.
pub proof fn lemma_bins_are_displayed(frame: Frame, bins: Seq<Seq<u64>>, i: int)
    requires
        frame.valid(),
        block_map::bins_valid(frame, bins),
        0 <= i < bins.len(),
        frame.start + i * frame.span + frame.span <= frame.end,
    ensures
        ({
            let shown = block_map::map_bins(frame, bins)[i];
            let bin = bins[i];
            &&& block_map::map_bins(frame, bins).len() == bins.len()
            &&& shown.offset_bytes == frame.start + i * frame.span
            &&& shown.length_bytes == frame.span
            &&& shown.mix.free == points(bin[0] as int, frame.span)
            &&& shown.mix.contiguous_data == points(bin[1] as int, frame.span)
            &&& shown.mix.fragmented_data == points(bin[2] as int, frame.span)
            &&& shown.mix.unscanned_data == points(bin[3] as int, frame.span)
            &&& shown.mix.defrag_staging == points(bin[4] as int, frame.span)
            &&& shown.mix.metadata.filesystem_headers == points(bin[5] as int, frame.span)
            &&& shown.mix.metadata.journal == points(bin[6] as int, frame.span)
            &&& shown.mix.metadata.allocation_tables == points(bin[7] as int, frame.span)
            &&& shown.mix.metadata.file_metadata == points(bin[8] as int, frame.span)
            &&& shown.mix.metadata.group_descriptors == points(bin[9] as int, frame.span)
            &&& shown.mix.metadata.block_bitmaps == points(bin[10] as int, frame.span)
            &&& shown.mix.metadata.file_bitmaps == points(bin[11] as int, frame.span)
            &&& shown.mix.metadata.reserved == points(bin[12] as int, frame.span)
            &&& shown.mix.metadata.other == points(bin[13] as int, frame.span)
        }),
{
    let bin = bins[i];
    assert(i * frame.span >= 0) by (nonlinear_arith)
        requires
            i >= 0,
            frame.span >= 1,
    ;
    assert(frame.bin_len(i) == frame.span);
    assert forall|c: int| 0 <= c < 14 implies #[trigger] block_map::share(bin[c], frame.span)
        == points(bin[c] as int, frame.span) by {
        block_map::lemma_sum_bounds(bin, 14, c);
        lemma_points(bin[c], frame.span);
    }
}

/// The target of a running move shows as such: as many bytes of a bin as the
/// target has there are counted so, as long as the bin has free or data bytes
/// to give; free bytes are taken first, and metadata never.
pub proof fn lemma_targets_show(bin: Seq<u64>, amount: int)
    requires
        bin.len() == 14,
        block_map::bin_sum(bin) <= u64::MAX,
        0 <= amount,
    ensures
        ({
            let after = block_map::op_bin(bin, MapOp::Stage, amount);
            let given = bin[0] + bin[1] + bin[2] + bin[3];
            &&& after[4] - bin[4] == (if amount <= given {
                amount
            } else {
                given
            })
            &&& amount <= bin[0] ==> after[0] == bin[0] - amount && after[1] == bin[1] && after[2]
                == bin[2] && after[3] == bin[3]
            &&& amount > bin[0] ==> after[0] == 0
            &&& after[1] < bin[1] || after[2] < bin[2] ==> after[3] == 0
            &&& after[2] < bin[2] ==> after[1] == 0
            &&& after[1] <= bin[1] && after[2] <= bin[2] && after[3] <= bin[3]
            &&& forall|c: int| 5 <= c < 14 ==> #[trigger] after[c] == bin[c]
            &&& after.len() == 14
        }),
{
    reveal_with_fuel(block_map::staged_bin, 5);
    reveal_with_fuel(block_map::staged_amount, 5);
    reveal_with_fuel(block_map::partial_sum, 15);
    let s1 = block_map::staged_bin(bin, amount, 1);
    let s2 = block_map::staged_bin(bin, amount, 2);
    let s3 = block_map::staged_bin(bin, amount, 3);
    let a1 = block_map::staged_amount(bin, amount, 1);
    let a2 = block_map::staged_amount(bin, amount, 2);
    let a3 = block_map::staged_amount(bin, amount, 3);
    let a4 = block_map::staged_amount(bin, amount, 4);
    assert(s1 == block_map::shifted(bin, 0, 4, a1));
    assert(s2 == block_map::shifted(s1, 3, 4, a2 - a1));
    assert(s3 == block_map::shifted(s2, 1, 4, a3 - a2));
    assert(block_map::op_bin(bin, MapOp::Stage, amount) == block_map::shifted(s3, 2, 4, a4 - a3));
}

// ---------------------------------------------------------------------
// The map of a report
// ---------------------------------------------------------------------

proof fn lemma_own_ranges(files: Seq<FileReportView>)
    ensures
        report_map::file_ranges(files) == data_ranges(files),
    decreases files.len(),
{
    if files.len() > 0 {
        lemma_own_ranges(files.drop_last());
        assert(report_map::file_ranges(files) =~= data_ranges(files));
    }
}

/// A map that is drawn anew shows the allocation map and the files of the
/// report: in a bin that has room for both, each kind of metadata and the
/// free space have the share of their ranges, fragmented data has the share
/// of the files with excess runs, and contiguous data that of the others.
pub proof fn lemma_redrawn_map_shows_the_files(
    report: AnalysisReportView,
    ranges: Seq<FsMapRange>,
    i: int,
)
    requires
        ({
            let frame = block_map::frame_of(ranges, report.volume.capacity_bytes, 4096);
            let list = data_ranges(report.files);
            &&& 0 <= i < frame.count
            &&& frame.start + i * frame.span + frame.span <= frame.end
            &&& settled(frame, ranges, i) + reached(frame, list, true, i) + reached(
                frame,
                list,
                false,
                i,
            ) <= frame.span
        }),
    ensures
        ({
            let frame = block_map::frame_of(ranges, report.volume.capacity_bytes, 4096);
            let list = data_ranges(report.files);
            let drawn = report_map::redrawn(report, ranges, Seq::empty()).map;
            let shown = drawn[i];
            &&& drawn.len() == frame.count
            &&& shown.offset_bytes == frame.start + i * frame.span
            &&& shown.length_bytes == frame.span
            &&& shown.mix.fragmented_data == points(reached(frame, list, true, i), frame.span)
            &&& shown.mix.contiguous_data == points(reached(frame, list, false, i), frame.span)
            &&& shown.mix.free == points(known(frame, ranges, FsMapKind::Free, i), frame.span)
            &&& shown.mix.metadata.journal == points(
                known(frame, ranges, FsMapKind::Metadata(MetadataKind::Journal), i),
                frame.span,
            )
            &&& shown.mix.metadata.file_metadata == points(
                known(frame, ranges, FsMapKind::Metadata(MetadataKind::FileMetadata), i),
                frame.span,
            )
            &&& shown.mix.metadata.allocation_tables == points(
                known(frame, ranges, FsMapKind::Metadata(MetadataKind::AllocationTables), i),
                frame.span,
            )
            &&& shown.mix.metadata.filesystem_headers == points(
                known(frame, ranges, FsMapKind::Metadata(MetadataKind::FilesystemHeaders), i),
                frame.span,
            )
            &&& shown.mix.metadata.group_descriptors == points(
                known(frame, ranges, FsMapKind::Metadata(MetadataKind::GroupDescriptors), i),
                frame.span,
            )
            &&& shown.mix.metadata.block_bitmaps == points(
                known(frame, ranges, FsMapKind::Metadata(MetadataKind::BlockBitmaps), i),
                frame.span,
            )
            &&& shown.mix.metadata.file_bitmaps == points(
                known(frame, ranges, FsMapKind::Metadata(MetadataKind::FileBitmaps), i),
                frame.span,
            )
            &&& shown.mix.metadata.reserved == points(
                known(frame, ranges, FsMapKind::Metadata(MetadataKind::Reserved), i),
                frame.span,
            )
            &&& shown.mix.metadata.other == points(
                known(frame, ranges, FsMapKind::Metadata(MetadataKind::Other), i),
                frame.span,
            )
            &&& shown.mix.defrag_staging == points(0, frame.span)
            &&& shown.mix.unscanned_data == points(
                frame.span - settled(frame, ranges, i) - reached(frame, list, true, i) - reached(
                    frame,
                    list,
                    false,
                    i,
                ),
                frame.span,
            )
        }),
{
    let capacity = report.volume.capacity_bytes;
    let fresh = scan::fresh_map(ranges, capacity);
    let frame = fresh.frame;
    let list = data_ranges(report.files);
    lemma_own_ranges(report.files);
    block_map::lemma_frame_valid(ranges, capacity, 4096);
    block_map::lemma_painted_valid(frame, ranges);
    assert(i * frame.span >= 0) by (nonlinear_arith)
        requires
            i >= 0,
            frame.span >= 1,
    ;
    assert(frame.bin_len(i) == frame.span);
    lemma_reached_positive(frame, list, true, i);
    lemma_reached_positive(frame, list, false, i);
    lemma_known_ranges_show(frame, ranges, i);
    lemma_scanned_ranges_show(fresh, list, i);
    let map = scan::scanned_all(fresh, list);
    assert(report_map::staged_all(map, Seq::empty()) == map);
    lemma_bins_are_displayed(frame, map.bins, i);
    let bin = map.bins[i];
    assert(bin[4] == fresh.bins[i][4]);
    assert(bin[5] == fresh.bins[i][5]);
    assert(bin[6] == fresh.bins[i][6]);
    assert(bin[7] == fresh.bins[i][7]);
    assert(bin[8] == fresh.bins[i][8]);
    assert(bin[9] == fresh.bins[i][9]);
    assert(bin[10] == fresh.bins[i][10]);
    assert(bin[11] == fresh.bins[i][11]);
    assert(bin[12] == fresh.bins[i][12]);
    assert(bin[13] == fresh.bins[i][13]);
}

/// Each target of a running move is drawn over the map of a report, on every
/// bin that it reaches and after all files.
pub proof fn lemma_targets_are_drawn_last(
    report: AnalysisReportView,
    ranges: Seq<FsMapRange>,
    staging: Seq<PhysicalRange>,
    target: PhysicalRange,
    i: int,
)
    requires
        0 <= i < block_map::frame_of(ranges, report.volume.capacity_bytes, 4096).count,
    ensures
        ({
            let fresh = scan::fresh_map(ranges, report.volume.capacity_bytes);
            let files = scan::scanned_all(fresh, data_ranges(report.files));
            let before = report_map::staged_all(files, staging);
            let after = report_map::staged_all(files, staging.push(target));
            &&& fresh.frame == block_map::frame_of(ranges, report.volume.capacity_bytes, 4096)
            &&& report_map::redrawn(report, ranges, staging).map == block_map::map_bins(
                before.frame,
                before.bins,
            )
            &&& before.frame == fresh.frame
            &&& before.bins.len() == fresh.frame.count
            &&& after.bins[i] == block_map::op_bin(
                before.bins[i],
                MapOp::Stage,
                fresh.frame.overlap(i, target.offset_bytes, target.length_bytes),
            )
        }),
{
    lemma_own_ranges(report.files);
    let fresh = scan::fresh_map(ranges, report.volume.capacity_bytes);
    let files = scan::scanned_all(fresh, data_ranges(report.files));
    lemma_scanned_frame(fresh, data_ranges(report.files));
    lemma_scanned_len(fresh, data_ranges(report.files));
    block_map::lemma_frame_valid(ranges, report.volume.capacity_bytes, 4096);
    block_map::lemma_painted_valid(fresh.frame, ranges);
    lemma_staged_frame(files, staging);
    assert(staging.push(target).drop_last() =~= staging);
}

proof fn lemma_scanned_len(map: MapView, list: Seq<ScannedRange>)
    ensures
        scan::scanned_all(map, list).bins.len() == map.bins.len(),
    decreases list.len(),
{
    if list.len() > 0 {
        lemma_scanned_len(map, list.drop_last());
    }
}

proof fn lemma_staged_frame(map: MapView, staging: Seq<PhysicalRange>)
    ensures
        report_map::staged_all(map, staging).frame == map.frame,
        report_map::staged_all(map, staging).bins.len() == map.bins.len(),
    decreases staging.len(),
{
    if staging.len() > 0 {
        lemma_staged_frame(map, staging.drop_last());
    }
}

} // verus!
