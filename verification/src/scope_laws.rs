//! What holds of the totals of a walk, of the files that it leaves alone, of
//! the paths that its files have afterwards, and of the bytes that are copied
//! and marked on a device.

use vstd::prelude::*;
use vstd::utf8::*;

use crate::domain::{EventView, FileReportView};
use crate::error::IoctlErrorView;
use crate::fat_device::ClusterCopy;
use crate::fat_table::ClassicKind;
use crate::fat_writer;
use crate::linux::{FsMapKind, FsMapRange};
use crate::path;
use crate::path_laws;
use crate::report_map;
use crate::scan;
use crate::scan::ScanView;
use crate::text;

verus! {

// ---------------------------------------------------------------------
// Totals
// ---------------------------------------------------------------------

/// The data of a map is counted range by range: an allocated range adds its
/// length, a range of any other kind adds nothing, and the data of two lists
/// together is the sum of both.
pub proof fn lemma_data_ranges_are_counted(
    some: Seq<FsMapRange>,
    one: FsMapRange,
    more: Seq<FsMapRange>,
)
    ensures
        scan::data_bytes(some + more) == scan::data_bytes(some) + scan::data_bytes(more),
        one.kind == FsMapKind::Allocated ==> scan::data_bytes(some.push(one)) == scan::data_bytes(
            some,
        ) + one.length,
        one.kind != FsMapKind::Allocated ==> scan::data_bytes(some.push(one)) == scan::data_bytes(
            some,
        ),
        scan::data_bytes(Seq::empty()) == 0,
    decreases more.len(),
{
    assert(some.push(one).drop_last() =~= some);
    if more.len() == 0 {
        assert(some + more =~= some);
    } else {
        lemma_data_ranges_are_counted(some, one, more.drop_last());
        assert((some + more).drop_last() =~= some + more.drop_last());
    }
}

/// The total that a walk measures itself against is the data of the map that
/// it was given; where no map could be read there is none.
pub proof fn lemma_walk_knows_its_total(
    s: ScanView,
    log: Seq<EventView>,
    ranges: Seq<FsMapRange>,
    error: IoctlErrorView,
)
    requires
        scan::data_bytes(ranges) <= u64::MAX,
    ensures
        ({
            let read = scan::map_read(s, log, Ok(ranges)).scan;
            let failed = scan::map_read(s, log, Err(error)).scan;
            &&& read.coverage.total_allocated_data_bytes == scan::data_bytes(ranges)
            &&& read.warnings == s.warnings
            &&& read.map_known <==> ranges.len() > 0
            &&& failed.coverage.total_allocated_data_bytes == 0
            &&& failed.warnings.len() == s.warnings.len() + 1
            &&& !failed.map_known
        }),
{
}

/// The share of the data that a walk has found is cut off to hundredths of a
/// percent: it is the greatest share that the found bytes reach, and the
/// whole where they reach the total. It is missing where the total is zero.
pub proof fn lemma_share_is_estimated(s: ScanView)
    ensures
        ({
            let found = s.coverage.scanned_allocated_bytes as int;
            let total = s.coverage.total_allocated_data_bytes as int;
            let share = scan::scan_report(s).coverage.estimated_basis_points;
            &&& share is None <==> total == 0
            &&& share matches Some(points) ==> points <= 10_000 && points * total <= found * 10_000
            &&& share matches Some(points) ==> found >= total ==> points == 10_000
            &&& share matches Some(points) ==> found < total ==> found * 10_000 < (points + 1)
                * total
        }),
{
    let found = s.coverage.scanned_allocated_bytes as int;
    let total = s.coverage.total_allocated_data_bytes as int;
    if total > 0 {
        let whole = found * 10_000;
        let cut = whole / total;
        vstd::arithmetic::div_mod::lemma_fundamental_div_mod(whole, total);
        vstd::arithmetic::div_mod::lemma_mod_bound(whole, total);
        vstd::arithmetic::div_mod::lemma_div_pos_is_pos(whole, total);
        assert(cut * total == total * cut) by (nonlinear_arith);
        assert((cut + 1) * total == cut * total + total) by (nonlinear_arith);
        if found >= total {
            assert(cut >= 10_000) by (nonlinear_arith)
                requires
                    whole == found * 10_000,
                    found >= total,
                    total > 0,
                    whole < (cut + 1) * total,
            ;
        } else {
            assert(cut < 10_000) by (nonlinear_arith)
                requires
                    whole == found * 10_000,
                    found < total,
                    total > 0,
                    cut * total <= whole,
            ;
        }
    }
}

/// The display learns of every 128th file, and of any file that comes a tenth
/// of a second after what it learned last.
pub proof fn lemma_display_learns_in_time(s: ScanView, now: u64)
    ensures
        scan::is_due(s, now) <==> (s.coverage.files_scanned % 128 == 0 || now >= s.last_update
            + 100),
{
}

// ---------------------------------------------------------------------
// Swap areas
// ---------------------------------------------------------------------

/// Whether a line of a list names a path first.
pub open spec fn names_path(line: Seq<char>, path: Seq<u8>) -> bool {
    text::words(line).len() > 0 && path == encode_utf8(text::words(line)[0])
}

/// Whether some line names a path, from a given one on.
pub open spec fn is_named(lines: Seq<Seq<char>>, from: int, path: Seq<u8>) -> bool {
    exists|k: int| from <= k < lines.len() && names_path(#[trigger] lines[k], path)
}

proof fn lemma_first_words(lines: Seq<Seq<char>>, path: Seq<u8>)
    ensures
        scan::first_words(lines).contains(path) <==> is_named(lines, 0, path),
    decreases lines.len(),
{
    if lines.len() > 0 {
        let rest = lines.drop_last();
        let before = scan::first_words(rest);
        let all = scan::first_words(lines);
        lemma_first_words(rest, path);
        if is_named(rest, 0, path) {
            let k = choose|k: int| 0 <= k < rest.len() && names_path(#[trigger] rest[k], path);
            assert(names_path(lines[k], path));
        }
        if before.contains(path) {
            let k = choose|k: int| 0 <= k < before.len() && before[k] == path;
            assert(all[k] == path);
        }
        if names_path(lines.last(), path) {
            assert(all.last() == path);
            assert(names_path(lines[lines.len() - 1], path));
        }
        if all.contains(path) && !before.contains(path) {
            let k = choose|k: int| 0 <= k < all.len() && all[k] == path;
            if k < before.len() {
                assert(before[k] == path);
            }
            assert(names_path(lines[lines.len() - 1], path));
        }
        if is_named(lines, 0, path) {
            let k = choose|k: int| 0 <= k < lines.len() && names_path(#[trigger] lines[k], path);
            if k < rest.len() {
                assert(names_path(rest[k], path));
            }
        }
    }
}

/// The swap areas that are left alone are those that the lines below the
/// heading name first, and no others; without a list there are none.
pub proof fn lemma_swap_areas_are_those_listed(contents: Seq<char>, path: Seq<u8>)
    ensures
        scan::swap_paths(Some(contents)).contains(path) <==> is_named(
            text::lines(contents),
            1,
            path,
        ),
        !scan::swap_paths(None).contains(path),
{
    let lines = text::lines(contents);
    if lines.len() > 0 {
        let rest = lines.skip(1);
        lemma_first_words(rest, path);
        if is_named(lines, 1, path) {
            let k = choose|k: int| 1 <= k < lines.len() && names_path(#[trigger] lines[k], path);
            assert(names_path(rest[k - 1], path));
        }
        if is_named(rest, 0, path) {
            let k = choose|k: int| 0 <= k < rest.len() && names_path(#[trigger] rest[k], path);
            assert(names_path(lines[k + 1], path));
        }
    }
}

// ---------------------------------------------------------------------
// Paths under another root
// ---------------------------------------------------------------------

/// A file that is moved from below one root to below another keeps its way
/// from the root: behind the names of the new root come those that stood
/// behind the old one. A file elsewhere keeps its path, and nothing else of
/// any file changes.
pub proof fn lemma_moved_files_keep_their_way(
    files: Seq<FileReportView>,
    from: Seq<u8>,
    to: Seq<u8>,
    i: int,
)
    requires
        0 <= i < files.len(),
        from.len() > 0,
        to.len() > 0,
    ensures
        ({
            let moved = report_map::moved_files(files, from, to);
            let before = files[i].path;
            let after = moved[i].path;
            &&& moved.len() == files.len()
            &&& moved[i] == (FileReportView { path: after, ..files[i] })
            &&& !path::is_below(before, from) ==> after == before
            &&& path::is_below(before, from) ==> path::components(after).0 == path::components(to).0
            &&& path::is_below(before, from) ==> path::components(after).1 == path::components(to).1
                + path::components(before).1.skip(path::components(from).1.len() as int)
        }),
{
    let before = files[i].path;
    if path::is_below(before, from) {
        let rest = path::relative_to(before, from);
        path_laws::lemma_relative_path_has_the_rest(before, from);
        assert(path::lead_len(rest) == 0);
        assert(rest.skip(0) =~= rest);
        path_laws::lemma_joining_adds_names(to, rest);
    }
}

// ---------------------------------------------------------------------
// Devices
// ---------------------------------------------------------------------

/// A copy moves its source and its destination on by just what it has done:
/// where each ends stays the same, at most a mebibyte is copied before it is
/// read back, and it comes nearer to its end with every part.
pub proof fn lemma_copies_are_whole(copy: ClusterCopy)
    requires
        copy.source + copy.remaining <= u64::MAX,
        copy.destination + copy.remaining <= u64::MAX,
    ensures
        ({
            let next = copy.after_part();
            &&& next.source + next.remaining == copy.source + copy.remaining
            &&& next.destination + next.remaining == copy.destination + copy.remaining
            &&& copy.remaining > 0 ==> next.remaining < copy.remaining
            &&& copy.part() == copy.remaining - next.remaining
            &&& copy.part() <= 0x10_0000
            &&& next.remaining > 0 ==> copy.part() == 0x10_0000
        }),
{
}

/// A volume that is being written is marked so in its status entry: the bit
/// of a clean shutdown goes and every other bit stays. Once it is clean
/// again that bit and the one of a sound disk are set, and no bit goes.
pub proof fn lemma_status_tells_of_writing(status: u32)
    ensures
        fat_writer::dirty_status(ClassicKind::Fat16, status) & 0x8000 == 0,
        fat_writer::dirty_status(ClassicKind::Fat16, status) | (status & 0x8000) == status,
        fat_writer::clean_status(ClassicKind::Fat16, status) & 0xc000 == 0xc000,
        fat_writer::clean_status(ClassicKind::Fat16, status) & !0xc000u32 == status & !0xc000u32,
        fat_writer::dirty_status(ClassicKind::Fat32, status) & 0x0800_0000 == 0,
        fat_writer::dirty_status(ClassicKind::Fat32, status) | (status & 0x0800_0000) == status,
        fat_writer::clean_status(ClassicKind::Fat32, status) & 0x0c00_0000 == 0x0c00_0000,
        fat_writer::clean_status(ClassicKind::Fat32, status) & !0x0c00_0000u32 == status
            & !0x0c00_0000u32,
{
    assert((status & !0x8000u32) & 0x8000 == 0 && (status & !0x8000u32) | (status & 0x8000)
        == status && (status | 0xc000u32) & 0xc000 == 0xc000 && (status | 0xc000u32) & !0xc000u32
        == status & !0xc000u32) by (bit_vector);
    assert((status & !0x0800_0000u32) & 0x0800_0000 == 0 && (status & !0x0800_0000u32) | (status
        & 0x0800_0000) == status && (status | 0x0c00_0000u32) & 0x0c00_0000 == 0x0c00_0000 && (
    status | 0x0c00_0000u32) & !0x0c00_0000u32 == status & !0x0c00_0000u32) by (bit_vector);
}

} // verus!
