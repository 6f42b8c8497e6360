//! What holds of every report on a file, and of the counts over all files.

use vstd::prelude::*;

use crate::arith;
use crate::domain::{AnalysisReportView, FileReportView, PhysicalRange};
use crate::extents;
use crate::file_report;
use crate::file_report::FileFacts;
use crate::linux::FileExtent;
use crate::text;

verus! {

// ---------------------------------------------------------------------
// Runs
// ---------------------------------------------------------------------

proof fn lemma_runs_of_longer(list: Seq<FileExtent>, next: FileExtent, n: int)
    requires
        0 <= n <= list.len(),
    ensures
        extents::runs_before(list.push(next), n) == extents::runs_before(list, n),
        extents::runs_before(list, n) <= n,
    decreases n,
{
    if n > 0 {
        lemma_runs_of_longer(list, next, n - 1);
    }
}

/// A file without extents has no run. One more extent makes one more run,
/// unless it goes on where the last ends both in the file and on the device.
pub proof fn lemma_each_break_is_a_run(list: Seq<FileExtent>, next: FileExtent)
    requires
        list.len() < u32::MAX,
        forall|i: int|
            0 <= i < list.len() ==> (#[trigger] list[i]).logical + list[i].length <= u64::MAX
                && list[i].physical + list[i].length <= u64::MAX,
    ensures
        extents::run_count(Seq::<FileExtent>::empty()) == 0,
        ({
            let joins = list.len() > 0 && list.last().logical + list.last().length == next.logical
                && list.last().physical + list.last().length == next.physical;
            extents::run_count(list.push(next)) == extents::run_count(list) + (if joins {
                0int
            } else {
                1
            })
        }),
{
    lemma_runs_of_longer(list, next, list.len() as int);
    if list.len() > 0 {
        assert(list[list.len() - 1] == list.last());
        assert(list.push(next)[list.len() - 1] == list.last());
    }
}

/// The bytes of extents.
pub open spec fn held(list: Seq<FileExtent>) -> nat
    decreases list.len(),
{
    if list.len() == 0 {
        0
    } else {
        held(list.drop_last()) + list.last().length as nat
    }
}

proof fn lemma_held(list: Seq<FileExtent>)
    ensures
        extents::total_bytes(list) == held(list),
    decreases list.len(),
{
    if list.len() > 0 {
        lemma_held(list.drop_last());
    }
}

// ---------------------------------------------------------------------
// Reports on files
// ---------------------------------------------------------------------

/// Whether a report counts the runs and bytes of a file.
pub open spec fn counts_extents(
    report: FileReportView,
    path: Seq<u8>,
    length: u64,
    list: Seq<FileExtent>,
) -> bool {
    &&& report.path == path
    &&& report.logical_bytes == length
    &&& held(list) <= u64::MAX ==> report.allocated_bytes == held(list)
    &&& report.physical_runs == extents::run_count(list)
    &&& report.physical_runs >= report.minimum_runs ==> report.excess_runs == report.physical_runs
        - report.minimum_runs
    &&& report.physical_runs < report.minimum_runs ==> report.excess_runs == 0
    &&& report.physical_runs == 0 ==> report.average_run_bytes == 0
    &&& report.physical_runs > 0 ==> {
        &&& report.average_run_bytes * report.physical_runs <= report.allocated_bytes
        &&& report.allocated_bytes < (report.average_run_bytes + 1) * report.physical_runs
    }
    &&& report.eligible_for_plan == (report.exclusion_reason is None)
}

proof fn lemma_mean(bytes: u64, runs: u32)
    requires
        runs > 0,
    ensures
        ({
            let mean = file_report::mean_run(bytes, runs as int);
            mean * runs <= bytes && bytes < (mean + 1) * runs
        }),
{
    let mean = bytes as int / runs as int;
    let left = bytes as int % runs as int;
    vstd::arithmetic::div_mod::lemma_fundamental_div_mod(bytes as int, runs as int);
    assert(runs * mean == mean * runs) by (nonlinear_arith);
    assert((mean + 1) * runs == mean * runs + runs) by (nonlinear_arith);
    assert(0 <= mean <= bytes) by (nonlinear_arith)
        requires
            bytes == runs * mean + left,
            0 <= left < runs,
            runs >= 1,
            bytes >= 0,
    ;
}

/// A report on a file counts its runs and its bytes, and the runs that it has
/// too many. An ext4 file needs as many runs as extents of the greatest length,
/// 32768 blocks, are needed to hold it; a FAT file needs one.
pub proof fn lemma_reports_count_extents(
    path: Seq<u8>,
    facts: FileFacts,
    flags: Result<u32, Seq<char>>,
    list: Seq<FileExtent>,
)
    requires
        held(list) <= u64::MAX,
    ensures
        counts_extents(
            file_report::ext4_file_report(path, facts, flags, list),
            path,
            facts.length,
            list,
        ),
        counts_extents(file_report::fat_file_report(path, facts, list), path, facts.length, list),
        ({
            let least = file_report::ext4_file_report(path, facts, flags, list).minimum_runs;
            let most = facts.block_size * 32_768;
            &&& held(list) == 0 <==> least == 0
            &&& 0 < facts.block_size && most <= u64::MAX && least < u32::MAX ==> least * most >= held(
                list,
            )
            &&& 0 < facts.block_size && most <= u64::MAX && least > 0 ==> (least - 1) * most < held(
                list,
            )
        }),
        file_report::fat_file_report(path, facts, list).minimum_runs == (if held(list) > 0 {
            1int
        } else {
            0
        }),
{
    lemma_held(list);
    let bytes = held(list) as u64;
    let runs = extents::run_count(list);
    if runs > 0 {
        lemma_mean(bytes, runs);
    }
    let block = arith::max_int(facts.block_size as int, 1);
    let most = arith::sat64(block * 32_768);
    let need = arith::ceil_div(bytes as int, most);
    let least = file_report::ext4_file_report(path, facts, flags, list).minimum_runs;
    arith::lemma_ceil_div(bytes as int, most);
    assert(bytes > 0 ==> need >= 1) by (nonlinear_arith)
        requires
            need * most >= bytes,
            most > 0,
    ;
    if bytes > 0 {
        assert((need - 1) * most == need * most - most) by (nonlinear_arith);
        assert((least - 1) * most <= (need - 1) * most) by (nonlinear_arith)
            requires
                least <= need,
                most > 0,
        ;
    } else {
        assert(0 * most == 0) by (nonlinear_arith);
    }
}

proof fn lemma_no_bad_flags(list: Seq<FileExtent>)
    ensures
        extents::unmovable_flags(list) == 0 <==> forall|i: int|
            0 <= i < list.len() ==> (#[trigger] list[i]).flags & 0x0000_0f8eu32 == 0,
    decreases list.len(),
{
    if list.len() > 0 {
        let rest = list.drop_last();
        lemma_no_bad_flags(rest);
        let a = extents::unmovable_flags(rest);
        let b = list.last().flags & 0x0000_0f8eu32;
        assert(a | b == 0 <==> a == 0 && b == 0) by (bit_vector);
        assert(list[list.len() - 1] == list.last());
        if extents::unmovable_flags(list) == 0 {
            assert forall|i: int| 0 <= i < list.len() implies (#[trigger] list[i]).flags
                & 0x0000_0f8eu32 == 0 by {
                if i < rest.len() {
                    assert(rest[i] == list[i]);
                }
            }
        } else if a != 0 {
            let i = choose|i: int|
                0 <= i < rest.len() && (#[trigger] rest[i]).flags & 0x0000_0f8eu32 != 0;
            assert(list[i] == rest[i]);
        }
    }
}

/// An ext4 file can be moved exactly where its flags are known, it is neither
/// immutable nor append-only, it holds its data in extents and not inline, no
/// extent has a flag that keeps it in place, and its extents have bytes and
/// cover the file without a gap. A FAT file can be moved exactly where its
/// extents can and have bytes.
pub proof fn lemma_movable_files_are_eligible(
    path: Seq<u8>,
    facts: FileFacts,
    flags: Result<u32, Seq<char>>,
    list: Seq<FileExtent>,
)
    requires
        held(list) <= u64::MAX,
    ensures
        ({
            let movable = forall|i: int|
                0 <= i < list.len() ==> (#[trigger] list[i]).flags & 0x0000_0f8eu32 == 0;
            &&& file_report::ext4_file_report(path, facts, flags, list).eligible_for_plan <==> {
                &&& flags matches Ok(flags) && {
                    &&& flags & 0x0000_0010u32 == 0
                    &&& flags & 0x0000_0020u32 == 0
                    &&& flags & 0x1000_0000u32 == 0
                    &&& flags & 0x0008_0000u32 != 0
                }
                &&& movable
                &&& held(list) > 0
                &&& extents::is_dense(list, facts.length)
            }
            &&& file_report::fat_file_report(path, facts, list).eligible_for_plan <==> movable
                && held(list) > 0
        }),
{
    lemma_held(list);
    lemma_no_bad_flags(list);
}

/// A file that is left out of plans says why: the first of the reasons that
/// hold of it, in this order.
pub proof fn lemma_left_out_files_say_why(
    path: Seq<u8>,
    facts: FileFacts,
    known: u32,
    message: Seq<char>,
    list: Seq<FileExtent>,
)
    requires
        held(list) <= u64::MAX,
    ensures
        file_report::ext4_file_report(path, facts, Err(message), list).exclusion_reason == Some(
            "could not read ext4 file flags: "@ + message,
        ),
        ({
            let reason = file_report::ext4_file_report(path, facts, Ok(known), list).exclusion_reason;
            let bad = extents::unmovable_flags(list);
            let kept = "unsupported FIEMAP flags 0x"@ + text::hexadecimal(bad as nat);
            if known & 0x0000_0010u32 != 0 {
                reason == Some("immutable file"@)
            } else if known & 0x0000_0020u32 != 0 {
                reason == Some("append-only file"@)
            } else if known & 0x1000_0000u32 != 0 {
                reason == Some("inline data"@)
            } else if known & 0x0008_0000u32 == 0 {
                reason == Some("legacy indirect block mapping"@)
            } else if exists|i: int|
                0 <= i < list.len() && (#[trigger] list[i]).flags & 0x0000_0f8eu32 != 0 {
                reason == Some(kept)
            } else if held(list) == 0 {
                reason == Some("no allocated extents"@)
            } else if !extents::is_dense(list, facts.length) {
                reason == Some("sparse files are not moved by the first writer"@)
            } else {
                reason is None
            }
        }),
        ({
            let reason = file_report::fat_file_report(path, facts, list).exclusion_reason;
            let bad = extents::unmovable_flags(list);
            let kept = "unsupported FIEMAP flags 0x"@ + text::hexadecimal(bad as nat);
            if exists|i: int|
                0 <= i < list.len() && (#[trigger] list[i]).flags & 0x0000_0f8eu32 != 0 {
                reason == Some(kept)
            } else if held(list) == 0 {
                reason == Some("no allocated extents"@)
            } else {
                reason is None
            }
        }),
{
    lemma_held(list);
    lemma_no_bad_flags(list);
}

proof fn lemma_reach_of_ordered(list: Seq<FileExtent>, n: int)
    requires
        0 <= n <= list.len(),
        forall|i: int|
            0 < i < list.len() ==> list[i - 1].logical + list[i - 1].length == (
            #[trigger] list[i]).logical,
        forall|i: int|
            0 <= i < list.len() ==> (#[trigger] list[i]).logical + list[i].length <= u64::MAX,
        list.len() > 0 ==> list[0].logical == 0,
    ensures
        n > 0 ==> extents::reach(list, n) == list[n - 1].logical + list[n - 1].length,
        n < list.len() ==> list[n].logical == extents::reach(list, n),
    decreases n,
{
    if n > 0 {
        lemma_reach_of_ordered(list, n - 1);
        assert(list[n - 1].logical + list[n - 1].length <= u64::MAX);
        if n < list.len() {
            assert(list[n - 1].logical + list[n - 1].length == list[n].logical);
        }
    }
}

/// A file is covered without a gap where its extents begin at its start, each
/// goes on where the one before it ends, and the last reaches its end. It is
/// not where it is empty, where some byte lies in no extent, or where an
/// extent begins behind everything that the extents before it reach.
pub proof fn lemma_covered_files_are_dense(list: Seq<FileExtent>, length: u64, at: u64, k: int)
    requires
        forall|i: int|
            0 <= i < list.len() ==> (#[trigger] list[i]).logical + list[i].length <= u64::MAX,
    ensures
        length == 0 ==> !extents::is_dense(list, length),
        list.len() > 0 && list[0].logical == 0 && length > 0 && (forall|i: int|
            0 < i < list.len() ==> list[i - 1].logical + list[i - 1].length == (
            #[trigger] list[i]).logical) && list.last().logical + list.last().length >= length
            ==> extents::is_dense(list, length),
        at < length && (forall|i: int|
            0 <= i < list.len() ==> at < (#[trigger] list[i]).logical || at >= list[i].logical
                + list[i].length) ==> !extents::is_dense(list, length),
        0 <= k < list.len() && (forall|i: int|
            0 <= i < k ==> (#[trigger] list[i]).logical + list[i].length < list[k].logical)
            && list[k].logical > 0 ==> !extents::is_dense(list, length),
{
    if list.len() > 0 && list[0].logical == 0 && (forall|i: int|
        0 < i < list.len() ==> list[i - 1].logical + list[i - 1].length == (
        #[trigger] list[i]).logical) {
        assert forall|i: int| 0 <= i < list.len() implies (#[trigger] list[i]).logical
            <= extents::reach(list, i) by {
            lemma_reach_of_ordered(list, i);
        }
        lemma_reach_of_ordered(list, list.len() as int);
    }
    if extents::is_dense(list, length) && at < length {
        extents::lemma_dense_file_is_held(list, length, at);
        let i = choose|i: int| 0 <= i < list.len() && extents::holds_byte(#[trigger] list[i], at);
        assert(list[i].logical + list[i].length <= u64::MAX);
    }
    if 0 <= k < list.len() && list[k].logical > 0 && (forall|i: int|
        0 <= i < k ==> (#[trigger] list[i]).logical + list[i].length < list[k].logical) {
        lemma_reach_below(list, k, list[k].logical as int);
    }
}

proof fn lemma_reach_below(list: Seq<FileExtent>, n: int, bound: int)
    requires
        0 <= n <= list.len(),
        0 < bound <= u64::MAX,
        forall|i: int| 0 <= i < n ==> (#[trigger] list[i]).logical + list[i].length < bound,
    ensures
        extents::reach(list, n) < bound,
    decreases n,
{
    if n > 0 {
        lemma_reach_below(list, n - 1, bound);
        assert(list[n - 1].logical + list[n - 1].length < bound);
    }
}

// ---------------------------------------------------------------------
// Ranges
// ---------------------------------------------------------------------

/// Each extent adds its place on the device to the ranges of a file, unless
/// it is empty or its place says nothing; to the ranges of a donor it adds it
/// unless it is empty; and to the place of a part of a file it adds what it
/// shares with that part.
pub proof fn lemma_extents_add_their_ranges(
    list: Seq<FileExtent>,
    next: FileExtent,
    at: u64,
    length: u64,
)
    requires
        next.logical + next.length <= u64::MAX,
        next.physical + next.length <= u64::MAX,
        at + length <= u64::MAX,
    ensures
        extents::placed_ranges(Seq::<FileExtent>::empty()).len() == 0,
        extents::filled_ranges(Seq::<FileExtent>::empty()).len() == 0,
        extents::mapped_ranges(Seq::<FileExtent>::empty(), at, length).len() == 0,
        extents::placed_ranges(list.push(next)) == (if next.length > 0 && next.flags & 0x0000_0606u32
            == 0 {
            extents::placed_ranges(list).push(
                PhysicalRange { offset_bytes: next.physical, length_bytes: next.length },
            )
        } else {
            extents::placed_ranges(list)
        }),
        extents::filled_ranges(list.push(next)) == (if next.length > 0 {
            extents::filled_ranges(list).push(
                PhysicalRange { offset_bytes: next.physical, length_bytes: next.length },
            )
        } else {
            extents::filled_ranges(list)
        }),
        ({
            let start = if at > next.logical {
                at as int
            } else {
                next.logical as int
            };
            let end = if at + length < next.logical + next.length {
                at + length
            } else {
                next.logical + next.length
            };
            extents::mapped_ranges(list.push(next), at, length) == (if start < end {
                extents::mapped_ranges(list, at, length).push(
                    PhysicalRange {
                        offset_bytes: (next.physical + start - next.logical) as u64,
                        length_bytes: (end - start) as u64,
                    },
                )
            } else {
                extents::mapped_ranges(list, at, length)
            })
        }),
{
    assert(list.push(next).drop_last() =~= list);
}

/// Whether an extent places a block of a file.
pub open spec fn places_block(extent: FileExtent, number: int, block: u32, size: u32) -> bool {
    &&& extent.logical <= number * size
    &&& number * size + size <= extent.logical + extent.length
    &&& extent.physical + (number * size - extent.logical) == block * size
}

/// The blocks of a file form extents that place each block where it lies:
/// every block that is no hole is in one of them.
pub proof fn lemma_blocks_are_placed(blocks: Seq<u32>, size: u32, k: int)
    requires
        extents::block_start(blocks.len() as int, size) <= u64::MAX,
        0 <= k < blocks.len(),
        blocks[k] != 0,
    ensures
        exists|i: int|
            0 <= i < extents::block_extents(blocks, size).len() && places_block(
                #[trigger] extents::block_extents(blocks, size)[i],
                k,
                blocks[k],
                size,
            ),
    decreases blocks.len(),
{
    let rest = blocks.drop_last();
    let n = blocks.len() - 1;
    let before = extents::block_extents(rest, size);
    let after = extents::block_extents(blocks, size);
    assert(n * size + size == (n + 1) * size) by (nonlinear_arith);
    assert(0 <= n * size) by (nonlinear_arith)
        requires
            n >= 0,
    ;
    assert(0 <= blocks.last() * size <= u32::MAX * u32::MAX) by (nonlinear_arith);
    if k < n {
        assert(rest[k] == blocks[k]);
        lemma_blocks_are_placed(rest, size, k);
        let i = choose|i: int|
            0 <= i < before.len() && places_block(#[trigger] before[i], k, rest[k], size);
        assert(places_block(after[i], k, blocks[k], size));
    } else {
        assert(blocks.last() == blocks[k]);
        assert(places_block(after[after.len() - 1], k, blocks[k], size));
    }
}

// ---------------------------------------------------------------------
// Counts over all files
// ---------------------------------------------------------------------

/// How many files have more runs than they need.
pub open spec fn fragmented_count(files: Seq<FileReportView>) -> nat
    decreases files.len(),
{
    if files.len() == 0 {
        0
    } else {
        fragmented_count(files.drop_last()) + (if files.last().excess_runs > 0 {
            1nat
        } else {
            0
        })
    }
}

/// The bytes of the files that have more runs than they need.
pub open spec fn fragmented_bytes(files: Seq<FileReportView>) -> nat
    decreases files.len(),
{
    if files.len() == 0 {
        0
    } else {
        fragmented_bytes(files.drop_last()) + (if files.last().excess_runs > 0 {
            files.last().allocated_bytes as nat
        } else {
            0
        })
    }
}

/// The runs of all files.
pub open spec fn all_runs(files: Seq<FileReportView>) -> nat
    decreases files.len(),
{
    if files.len() == 0 {
        0
    } else {
        all_runs(files.drop_last()) + files.last().physical_runs as nat
    }
}

/// The runs that files have too many.
pub open spec fn all_excess(files: Seq<FileReportView>) -> nat
    decreases files.len(),
{
    if files.len() == 0 {
        0
    } else {
        all_excess(files.drop_last()) + files.last().excess_runs as nat
    }
}

/// The counts of a report are those of its files: how many are fragmented and
/// their bytes, all runs and those too many, the mean length of a run, and
/// the share of fragmented bytes, in hundredths of a percent.
pub proof fn lemma_counts_are_those_of_the_files(report: AnalysisReportView)
    requires
        report.files.len() <= u64::MAX,
        fragmented_bytes(report.files) <= u64::MAX,
        all_runs(report.files) <= u64::MAX,
        all_excess(report.files) <= u64::MAX,
    ensures
        ({
            let counts = file_report::recounted(report).fragmentation;
            let scanned = report.coverage.scanned_allocated_bytes;
            &&& counts.fragmented_files == fragmented_count(report.files)
            &&& counts.fragmented_allocated_bytes == fragmented_bytes(report.files)
            &&& counts.total_physical_runs == all_runs(report.files)
            &&& counts.total_excess_runs == all_excess(report.files)
            &&& all_runs(report.files) == 0 ==> counts.average_run_bytes == 0
            &&& all_runs(report.files) > 0 ==> counts.average_run_bytes == scanned as int
                / all_runs(report.files) as int
            &&& scanned == 0 <==> counts.fragmented_basis_points is None
            &&& counts.fragmented_basis_points matches Some(share) ==> share == (
            if fragmented_bytes(report.files) >= scanned {
                10_000int
            } else {
                fragmented_bytes(report.files) as int * 10_000 / scanned as int
            })
            &&& file_report::recounted(report).files == report.files
            &&& file_report::recounted(report).coverage == report.coverage
            &&& file_report::recounted(report).volume == report.volume
        }),
{
    lemma_counted(report.files);
    let part = fragmented_bytes(report.files) as int;
    let scanned = report.coverage.scanned_allocated_bytes as int;
    if scanned > 0 {
        vstd::arithmetic::div_mod::lemma_div_multiples_vanish(10_000, scanned);
        vstd::arithmetic::div_mod::lemma_div_pos_is_pos(part * 10_000, scanned);
        if part >= scanned {
            vstd::arithmetic::div_mod::lemma_div_is_ordered(
                scanned * 10_000,
                part * 10_000,
                scanned,
            );
        } else {
            vstd::arithmetic::div_mod::lemma_div_is_ordered(
                part * 10_000,
                scanned * 10_000,
                scanned,
            );
        }
    }
    let runs = all_runs(report.files) as int;
    if runs > 0 {
        assert(0 <= scanned / runs <= scanned) by (nonlinear_arith)
            requires
                runs >= 1,
                scanned >= 0,
        ;
    }
}

proof fn lemma_counted(files: Seq<FileReportView>)
    requires
        files.len() <= u64::MAX,
        fragmented_bytes(files) <= u64::MAX,
        all_runs(files) <= u64::MAX,
        all_excess(files) <= u64::MAX,
    ensures
        ({
            let counts = file_report::counted_all(files);
            &&& counts.fragmented_files == fragmented_count(files)
            &&& counts.fragmented_allocated_bytes == fragmented_bytes(files)
            &&& counts.total_physical_runs == all_runs(files)
            &&& counts.total_excess_runs == all_excess(files)
            &&& fragmented_count(files) <= files.len()
        }),
    decreases files.len(),
{
    if files.len() > 0 {
        lemma_counted(files.drop_last());
    }
}

} // verus!
