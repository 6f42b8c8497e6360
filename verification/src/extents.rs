//! Where a file lies on its device: extents, the runs that they form, and
//! the ranges that they cover.

use vstd::prelude::*;

use crate::arith;
use crate::domain::PhysicalRange;
use crate::linux::{
    FileExtent, FIEMAP_EXTENT_DATA_ENCRYPTED, FIEMAP_EXTENT_DATA_INLINE, FIEMAP_EXTENT_DATA_TAIL,
    FIEMAP_EXTENT_DELALLOC, FIEMAP_EXTENT_ENCODED, FIEMAP_EXTENT_NOT_ALIGNED,
    FIEMAP_EXTENT_UNKNOWN, FIEMAP_EXTENT_UNWRITTEN,
};

verus! {

/// The bytes of all extents together.
pub open spec fn total_bytes(extents: Seq<FileExtent>) -> nat
    decreases extents.len(),
{
    if extents.len() == 0 {
        0
    } else {
        total_bytes(extents.drop_last()) + extents.last().length as nat
    }
}

/// The bytes that are allocated to a file.
pub fn allocated_bytes(extents: &Vec<FileExtent>) -> (bytes: u64)
    ensures
        bytes == arith::sat64(total_bytes(extents@) as int),
{
    let mut bytes: u64 = 0;
    let mut i: usize = 0;
    while i < extents.len()
        invariant
            i <= extents@.len(),
            bytes == arith::sat64(total_bytes(extents@.take(i as int)) as int),
        decreases extents@.len() - i,
    {
        assert(extents@.take(i + 1).drop_last() =~= extents@.take(i as int));
        bytes = bytes.saturating_add(extents[i].length);
        i = i + 1;
    }
    assert(extents@.take(i as int) =~= extents@);
    bytes
}

// ---------------------------------------------------------------------
// Runs
// ---------------------------------------------------------------------

/// Whether an extent goes on where another ends, in the file and on the
/// device.
pub open spec fn continues(last: FileExtent, next: FileExtent) -> bool {
    &&& arith::sat64(last.logical + last.length) == next.logical
    &&& arith::sat64(last.physical + last.length) == next.physical
}

/// Whether a run begins with an extent.
pub open spec fn begins_run(extents: Seq<FileExtent>, i: int) -> bool {
    i == 0 || !continues(extents[i - 1], extents[i])
}

/// The number of runs that begin with one of the first `n` extents.
pub open spec fn runs_before(extents: Seq<FileExtent>, n: int) -> nat
    decreases n,
{
    if n <= 0 {
        0
    } else if begins_run(extents, n - 1) {
        runs_before(extents, n - 1) + 1
    } else {
        runs_before(extents, n - 1)
    }
}

/// The number of runs of a file, as far as a `u32` can say.
pub open spec fn run_count(extents: Seq<FileExtent>) -> u32 {
    arith::min_int(runs_before(extents, extents.len() as int) as int, u32::MAX as int) as u32
}

/// Counts the runs of a file: extents that follow each other both in the
/// file and on the device count as one.
pub fn count_runs(extents: &Vec<FileExtent>) -> (runs: u32)
    ensures
        runs == run_count(extents@),
{
    let mut runs: u32 = 0;
    let mut i: usize = 0;
    while i < extents.len()
        invariant
            i <= extents@.len(),
            runs == arith::min_int(
                runs_before(extents@, i as int) as int,
                u32::MAX as int,
            ),
        decreases extents@.len() - i,
    {
        let contiguous: bool = if i == 0 {
            false
        } else {
            let last: FileExtent = extents[i - 1];
            let next: FileExtent = extents[i];
            last.logical.saturating_add(last.length) == next.logical && last.physical.saturating_add(
                last.length,
            ) == next.physical
        };
        if !contiguous {
            runs = runs.saturating_add(1);
        }
        i = i + 1;
    }
    runs
}

proof fn lemma_runs_bounds(extents: Seq<FileExtent>, n: int)
    requires
        0 <= n <= extents.len(),
    ensures
        runs_before(extents, n) <= n,
        n > 0 ==> runs_before(extents, n) >= 1,
    decreases n,
{
    if n > 0 {
        lemma_runs_bounds(extents, n - 1);
    }
}

/// A file has a run if and only if it has an extent, and never more runs
/// than extents.
pub proof fn lemma_run_count_bounds(extents: Seq<FileExtent>)
    ensures
        run_count(extents) <= extents.len(),
        (run_count(extents) == 0) == (extents.len() == 0),
{
    lemma_runs_bounds(extents, extents.len() as int);
}

proof fn lemma_one_run(extents: Seq<FileExtent>, n: int)
    requires
        0 <= n <= extents.len(),
    ensures
        runs_before(extents, n) <= 1 <==> forall|i: int|
            0 < i < n ==> #[trigger] continues(extents[i - 1], extents[i]),
    decreases n,
{
    if n > 0 {
        lemma_one_run(extents, n - 1);
        lemma_runs_bounds(extents, n - 1);
        if n > 1 && begins_run(extents, n - 1) {
            assert(!continues(extents[(n - 1) - 1], extents[n - 1]));
        }
    }
}

/// A file has at most one run exactly where each of its extents goes on
/// where the one before it ends.
pub proof fn lemma_contiguous_is_one_run(extents: Seq<FileExtent>)
    ensures
        run_count(extents) <= 1 <==> forall|i: int|
            0 < i < extents.len() ==> #[trigger] continues(extents[i - 1], extents[i]),
{
    lemma_one_run(extents, extents.len() as int);
}

// ---------------------------------------------------------------------
// Density
// ---------------------------------------------------------------------

/// The highest place in the file that one of the first `n` extents reaches.
pub open spec fn reach(extents: Seq<FileExtent>, n: int) -> int
    decreases n,
{
    if n <= 0 {
        0
    } else {
        arith::max_int(
            reach(extents, n - 1),
            arith::sat64(extents[n - 1].logical + extents[n - 1].length),
        )
    }
}

/// Whether the extents cover a file of a length without a gap. An empty
/// file has nothing to cover.
pub open spec fn is_dense(extents: Seq<FileExtent>, logical_bytes: u64) -> bool {
    &&& logical_bytes > 0
    &&& forall|i: int| 0 <= i < extents.len() ==> (#[trigger] extents[i]).logical <= reach(extents, i)
    &&& reach(extents, extents.len() as int) >= logical_bytes
}

/// Tells whether the extents cover a file of a length without a gap.
pub fn logical_data_is_dense(extents: &Vec<FileExtent>, logical_bytes: u64) -> (dense: bool)
    ensures
        dense == is_dense(extents@, logical_bytes),
{
    if logical_bytes == 0 {
        return false;
    }
    let mut end: u64 = 0;
    let mut i: usize = 0;
    while i < extents.len()
        invariant
            i <= extents@.len(),
            end == reach(extents@, i as int),
            forall|k: int| 0 <= k < i ==> (#[trigger] extents@[k]).logical <= reach(extents@, k),
        decreases extents@.len() - i,
    {
        let extent: FileExtent = extents[i];
        if extent.logical > end {
            assert(!(extents@[i as int].logical <= reach(extents@, i as int)));
            return false;
        }
        let extent_end: u64 = extent.logical.saturating_add(extent.length);
        if extent_end > end {
            end = extent_end;
        }
        i = i + 1;
    }
    end >= logical_bytes
}

/// Whether an extent holds a byte of the file.
pub open spec fn holds_byte(extent: FileExtent, at: u64) -> bool {
    extent.logical <= at && at < arith::sat64(extent.logical + extent.length)
}

proof fn lemma_reach_is_held(extents: Seq<FileExtent>, n: int, at: u64)
    requires
        0 <= n <= extents.len(),
        forall|i: int| 0 <= i < n ==> (#[trigger] extents[i]).logical <= reach(extents, i),
        at < reach(extents, n),
    ensures
        exists|i: int| 0 <= i < n && holds_byte(#[trigger] extents[i], at),
    decreases n,
{
    if n > 0 {
        if at < reach(extents, n - 1) {
            lemma_reach_is_held(extents, n - 1, at);
        } else {
            assert(holds_byte(extents[n - 1], at));
        }
    }
}

/// In a file that the extents cover without a gap, each byte lies in one of
/// them.
pub proof fn lemma_dense_file_is_held(extents: Seq<FileExtent>, logical_bytes: u64, at: u64)
    requires
        is_dense(extents, logical_bytes),
        at < logical_bytes,
    ensures
        exists|i: int| 0 <= i < extents.len() && holds_byte(#[trigger] extents[i], at),
{
    lemma_reach_is_held(extents, extents.len() as int, at);
}

// ---------------------------------------------------------------------
// Flags
// ---------------------------------------------------------------------

/// The flags of extents that no writer can move.
pub const UNMOVABLE_FLAGS: u32 = 0x0000_0f8e;

/// The flags of extents whose place on the device says nothing.
pub const UNPLACED_FLAGS: u32 = 0x0000_0606;

/// The flags that are set on any of the extents, of those that no writer can
/// move.
pub open spec fn unmovable_flags(extents: Seq<FileExtent>) -> u32
    decreases extents.len(),
{
    if extents.len() == 0 {
        0
    } else {
        unmovable_flags(extents.drop_last()) | (extents.last().flags & UNMOVABLE_FLAGS)
    }
}

/// Collects the flags of extents that no writer can move.
pub fn bad_flags(extents: &Vec<FileExtent>) -> (flags: u32)
    ensures
        flags == unmovable_flags(extents@),
{
    let mut flags: u32 = 0;
    let mut i: usize = 0;
    while i < extents.len()
        invariant
            i <= extents@.len(),
            flags == unmovable_flags(extents@.take(i as int)),
        decreases extents@.len() - i,
    {
        assert(extents@.take(i + 1).drop_last() =~= extents@.take(i as int));
        flags = flags | (extents[i].flags & UNMOVABLE_FLAGS);
        i = i + 1;
    }
    assert(extents@.take(i as int) =~= extents@);
    flags
}

/// The two sets of flags are those that they are said to be.
pub proof fn lemma_flag_sets()
    ensures
        UNMOVABLE_FLAGS == FIEMAP_EXTENT_UNKNOWN | FIEMAP_EXTENT_DELALLOC | FIEMAP_EXTENT_ENCODED
            | FIEMAP_EXTENT_DATA_ENCRYPTED | FIEMAP_EXTENT_NOT_ALIGNED | FIEMAP_EXTENT_DATA_INLINE
            | FIEMAP_EXTENT_DATA_TAIL | FIEMAP_EXTENT_UNWRITTEN,
        UNPLACED_FLAGS == FIEMAP_EXTENT_UNKNOWN | FIEMAP_EXTENT_DELALLOC | FIEMAP_EXTENT_DATA_INLINE
            | FIEMAP_EXTENT_DATA_TAIL,
{
    assert(0x0000_0f8eu32 == 0x0000_0002u32 | 0x0000_0004u32 | 0x0000_0008u32 | 0x0000_0080u32
        | 0x0000_0100u32 | 0x0000_0200u32 | 0x0000_0400u32 | 0x0000_0800u32) by (bit_vector);
    assert(0x0000_0606u32 == 0x0000_0002u32 | 0x0000_0004u32 | 0x0000_0200u32 | 0x0000_0400u32)
        by (bit_vector);
}

// ---------------------------------------------------------------------
// Ranges
// ---------------------------------------------------------------------

/// Whether an extent says where its bytes lie on the device.
pub open spec fn is_placed(extent: FileExtent) -> bool {
    extent.length > 0 && extent.flags & UNPLACED_FLAGS == 0
}

/// The range of an extent on the device.
pub open spec fn whole_range(extent: FileExtent) -> PhysicalRange {
    PhysicalRange { offset_bytes: extent.physical, length_bytes: extent.length }
}

/// The ranges on the device of the extents that name one, in order.
pub open spec fn placed_ranges(extents: Seq<FileExtent>) -> Seq<PhysicalRange>
    decreases extents.len(),
{
    if extents.len() == 0 {
        Seq::empty()
    } else if is_placed(extents.last()) {
        placed_ranges(extents.drop_last()).push(whole_range(extents.last()))
    } else {
        placed_ranges(extents.drop_last())
    }
}

/// The range on the device of an extent that names one.
pub fn physical_range(extent: &FileExtent) -> (range: Option<PhysicalRange>)
    ensures
        range == (if is_placed(*extent) {
            Some(whole_range(*extent))
        } else {
            None
        }),
{
    if extent.length > 0 && extent.flags & UNPLACED_FLAGS == 0 {
        Some(PhysicalRange { offset_bytes: extent.physical, length_bytes: extent.length })
    } else {
        None
    }
}

/// Lists the ranges on the device of the extents that name one.
pub fn physical_ranges(extents: &Vec<FileExtent>) -> (ranges: Vec<PhysicalRange>)
    ensures
        ranges@ == placed_ranges(extents@),
{
    let mut ranges: Vec<PhysicalRange> = Vec::new();
    let mut i: usize = 0;
    while i < extents.len()
        invariant
            i <= extents@.len(),
            ranges@ == placed_ranges(extents@.take(i as int)),
        decreases extents@.len() - i,
    {
        assert(extents@.take(i + 1).drop_last() =~= extents@.take(i as int));
        if let Some(range) = physical_range(&extents[i]) {
            ranges.push(range);
        }
        i = i + 1;
    }
    assert(extents@.take(i as int) =~= extents@);
    ranges
}

/// The ranges on the device of the extents that have bytes, in order.
pub open spec fn filled_ranges(extents: Seq<FileExtent>) -> Seq<PhysicalRange>
    decreases extents.len(),
{
    if extents.len() == 0 {
        Seq::empty()
    } else if extents.last().length > 0 {
        filled_ranges(extents.drop_last()).push(whole_range(extents.last()))
    } else {
        filled_ranges(extents.drop_last())
    }
}

/// Lists the ranges on the device of the extents that have bytes.
pub fn extent_ranges(extents: &Vec<FileExtent>) -> (ranges: Vec<PhysicalRange>)
    ensures
        ranges@ == filled_ranges(extents@),
{
    let mut ranges: Vec<PhysicalRange> = Vec::new();
    let mut i: usize = 0;
    while i < extents.len()
        invariant
            i <= extents@.len(),
            ranges@ == filled_ranges(extents@.take(i as int)),
        decreases extents@.len() - i,
    {
        assert(extents@.take(i + 1).drop_last() =~= extents@.take(i as int));
        let extent: FileExtent = extents[i];
        if extent.length > 0 {
            ranges.push(
                PhysicalRange { offset_bytes: extent.physical, length_bytes: extent.length },
            );
        }
        i = i + 1;
    }
    assert(extents@.take(i as int) =~= extents@);
    ranges
}

/// The part of an extent that lies in a range of the file: where it starts
/// and where it ends in the file.
pub open spec fn shared_start(extent: FileExtent, logical: u64) -> int {
    arith::max_int(logical as int, extent.logical as int)
}

pub open spec fn shared_end(extent: FileExtent, logical: u64, length: u64) -> int {
    arith::min_int(
        arith::sat64(logical + length),
        arith::sat64(extent.logical + extent.length),
    )
}

/// Where on the device that part lies.
pub open spec fn shared_range(extent: FileExtent, logical: u64, length: u64) -> PhysicalRange {
    let start = shared_start(extent, logical);
    PhysicalRange {
        offset_bytes: arith::sat64(extent.physical + (start - extent.logical)) as u64,
        length_bytes: (shared_end(extent, logical, length) - start) as u64,
    }
}

/// Where on the device a range of the file lies, extent by extent.
pub open spec fn mapped_ranges(extents: Seq<FileExtent>, logical: u64, length: u64) -> Seq<
    PhysicalRange,
>
    decreases extents.len(),
{
    if extents.len() == 0 {
        Seq::empty()
    } else {
        let before = mapped_ranges(extents.drop_last(), logical, length);
        let last = extents.last();
        if shared_end(last, logical, length) > shared_start(last, logical) {
            before.push(shared_range(last, logical, length))
        } else {
            before
        }
    }
}

/// Lists where on the device a range of the file lies.
pub fn physical_for_logical(extents: &Vec<FileExtent>, logical: u64, length: u64) -> (ranges: Vec<
    PhysicalRange,
>)
    ensures
        ranges@ == mapped_ranges(extents@, logical, length),
{
    let end: u64 = logical.saturating_add(length);
    let mut ranges: Vec<PhysicalRange> = Vec::new();
    let mut i: usize = 0;
    while i < extents.len()
        invariant
            i <= extents@.len(),
            end == arith::sat64(logical + length),
            ranges@ == mapped_ranges(extents@.take(i as int), logical, length),
        decreases extents@.len() - i,
    {
        assert(extents@.take(i + 1).drop_last() =~= extents@.take(i as int));
        let extent: FileExtent = extents[i];
        let start: u64 = if logical > extent.logical {
            logical
        } else {
            extent.logical
        };
        let extent_end: u64 = extent.logical.saturating_add(extent.length);
        let stop: u64 = if end < extent_end {
            end
        } else {
            extent_end
        };
        if stop > start {
            ranges.push(
                PhysicalRange {
                    offset_bytes: extent.physical.saturating_add(start - extent.logical),
                    length_bytes: stop - start,
                },
            );
        }
        i = i + 1;
    }
    assert(extents@.take(i as int) =~= extents@);
    ranges
}

/// The bytes of all ranges together.
pub open spec fn range_bytes(ranges: Seq<PhysicalRange>) -> nat
    decreases ranges.len(),
{
    if ranges.len() == 0 {
        0
    } else {
        range_bytes(ranges.drop_last()) + ranges.last().length_bytes as nat
    }
}

/// Whether each extent of a file lies behind the one before it.
pub open spec fn in_file_order(extents: Seq<FileExtent>) -> bool {
    forall|i: int|
        0 < i < extents.len() ==> arith::sat64(
            extents[i - 1].logical + extents[i - 1].length,
        ) <= (#[trigger] extents[i]).logical
}

proof fn lemma_ends_grow(extents: Seq<FileExtent>, i: int, j: int)
    requires
        in_file_order(extents),
        0 <= i <= j < extents.len(),
    ensures
        arith::sat64(extents[i].logical + extents[i].length) <= arith::sat64(
            extents[j].logical + extents[j].length,
        ),
        i < j ==> arith::sat64(extents[i].logical + extents[i].length) <= extents[j].logical,
    decreases j - i,
{
    if i < j {
        lemma_ends_grow(extents, i, j - 1);
        assert(arith::sat64(extents[j - 1].logical + extents[j - 1].length) <= extents[j].logical);
    }
}

proof fn lemma_covered(extents: Seq<FileExtent>, n: int, logical: u64, length: u64)
    requires
        0 <= n <= extents.len(),
        in_file_order(extents),
        forall|i: int| 0 <= i < extents.len() ==> (#[trigger] extents[i]).logical <= reach(extents, i),
    ensures
        range_bytes(mapped_ranges(extents.take(n), logical, length)) == arith::max_int(
            0,
            arith::min_int(arith::sat64(logical + length), reach(extents, n)) - logical,
        ),
        n > 0 ==> reach(extents, n) == arith::sat64(
            extents[n - 1].logical + extents[n - 1].length,
        ),
    decreases n,
{
    if n > 0 {
        lemma_covered(extents, n - 1, logical, length);
        let part = extents.take(n);
        let last = extents[n - 1];
        assert(part.drop_last() =~= extents.take(n - 1));
        assert(extents[n - 1].logical <= reach(extents, n - 1));
        if n > 1 {
            lemma_ends_grow(extents, n - 2, n - 1);
        }
        let before = mapped_ranges(part.drop_last(), logical, length);
        let range = shared_range(last, logical, length);
        assert(before.push(range).drop_last() =~= before);
    }
}

/// A range of a file that the extents cover without a gap, one behind the
/// other, is found on the device whole: no byte of it is missing and none is
/// counted twice.
pub proof fn lemma_ranges_cover_request(
    extents: Seq<FileExtent>,
    logical_bytes: u64,
    logical: u64,
    length: u64,
)
    requires
        is_dense(extents, logical_bytes),
        in_file_order(extents),
        logical + length <= logical_bytes,
    ensures
        range_bytes(mapped_ranges(extents, logical, length)) == length,
{
    lemma_covered(extents, extents.len() as int, logical, length);
    assert(extents.take(extents.len() as int) =~= extents);
}

// ---------------------------------------------------------------------
// Block by block
// ---------------------------------------------------------------------

/// The bytes before a block.
pub open spec fn block_start(number: int, block_size: u32) -> int {
    number * block_size
}

/// The extents that the blocks of a file form, where the system tells only
/// the place of each block: neighbours are joined, and a block at place zero
/// is a hole.
pub open spec fn block_extents(blocks: Seq<u32>, block_size: u32) -> Seq<FileExtent>
    decreases blocks.len(),
{
    if blocks.len() == 0 {
        Seq::empty()
    } else {
        let before = block_extents(blocks.drop_last(), block_size);
        let logical = block_start(blocks.len() - 1, block_size);
        let physical = block_start(blocks.last() as int, block_size);
        if blocks.last() == 0 {
            before
        } else if before.len() > 0 && before.last().logical + before.last().length == logical
            && before.last().physical + before.last().length == physical {
            before.update(
                before.len() - 1,
                FileExtent {
                    length: (before.last().length + block_size) as u64,
                    ..before.last()
                },
            )
        } else {
            before.push(
                FileExtent {
                    logical: logical as u64,
                    physical: physical as u64,
                    length: block_size as u64,
                    flags: 0,
                },
            )
        }
    }
}

/// The number of blocks that are no holes.
pub open spec fn placed_blocks(blocks: Seq<u32>) -> nat
    decreases blocks.len(),
{
    if blocks.len() == 0 {
        0
    } else if blocks.last() == 0 {
        placed_blocks(blocks.drop_last())
    } else {
        placed_blocks(blocks.drop_last()) + 1
    }
}

proof fn lemma_next_block(number: int, block_size: u32)
    ensures
        block_start(number + 1, block_size) == block_start(number, block_size) + block_size,
        number >= 0 ==> block_start(number, block_size) >= 0,
{
    assert((number + 1) * block_size == number * block_size + block_size) by (nonlinear_arith);
    if number >= 0 {
        assert(number * block_size >= 0) by (nonlinear_arith)
            requires
                number >= 0,
        ;
    }
}

proof fn lemma_block_place(block: u32, block_size: u32)
    ensures
        0 <= block_start(block as int, block_size) <= u32::MAX * u32::MAX,
{
    assert(0 <= block * block_size <= u32::MAX * u32::MAX) by (nonlinear_arith);
}

/// Every extent ends by the end of the blocks.
proof fn lemma_extents_end(blocks: Seq<u32>, block_size: u32)
    requires
        block_start(blocks.len() as int, block_size) <= u64::MAX,
    ensures
        forall|i: int|
            0 <= i < block_extents(blocks, block_size).len() ==> {
                let e = #[trigger] block_extents(blocks, block_size)[i];
                e.logical + e.length <= block_start(blocks.len() as int, block_size)
            },
    decreases blocks.len(),
{
    if blocks.len() > 0 {
        let before = block_extents(blocks.drop_last(), block_size);
        let after = block_extents(blocks, block_size);
        lemma_next_block(blocks.len() - 1, block_size);
        lemma_extents_end(blocks.drop_last(), block_size);
        assert forall|i: int| 0 <= i < after.len() implies {
            let e = #[trigger] after[i];
            e.logical + e.length <= block_start(blocks.len() as int, block_size)
        } by {
            if i < before.len() {
                assert(before[i].logical + before[i].length <= block_start(
                    blocks.len() - 1,
                    block_size,
                ));
                if i < before.len() - 1 {
                    assert(after[i] == before[i]);
                }
            }
        }
    }
}

/// No extent is longer than all together.
pub proof fn lemma_last_is_part(extents: Seq<FileExtent>)
    requires
        extents.len() > 0,
    ensures
        extents.last().length <= total_bytes(extents),
{
}

/// Another last extent changes the bytes by the difference.
pub proof fn lemma_replaced_last(before: Seq<FileExtent>, last: FileExtent)
    requires
        before.len() > 0,
    ensures
        total_bytes(before.update(before.len() - 1, last)) == total_bytes(before)
            - before.last().length + last.length,
{
    let after = before.update(before.len() - 1, last);
    assert(after.drop_last() =~= before.drop_last());
}

/// A file has exactly the bytes of the blocks that are no holes.
pub proof fn lemma_blocks_are_held(blocks: Seq<u32>, block_size: u32)
    requires
        block_start(blocks.len() as int, block_size) <= u64::MAX,
    ensures
        total_bytes(block_extents(blocks, block_size)) == block_start(
            placed_blocks(blocks) as int,
            block_size,
        ),
    decreases blocks.len(),
{
    if blocks.len() > 0 {
        let rest = blocks.drop_last();
        let before = block_extents(rest, block_size);
        let after = block_extents(blocks, block_size);
        lemma_next_block(blocks.len() - 1, block_size);
        lemma_next_block(placed_blocks(rest) as int, block_size);
        lemma_block_place(blocks.last(), block_size);
        lemma_blocks_are_held(rest, block_size);
        lemma_extents_end(rest, block_size);
        if blocks.last() != 0 {
            if after.len() == before.len() {
                lemma_replaced_last(before, after.last());
            } else {
                assert(after.drop_last() =~= before);
            }
        }
    }
}

/// Forms the extents of a file of which only the place of each block is
/// known.
pub fn join_blocks(blocks: &Vec<u32>, block_size: u32) -> (extents: Vec<FileExtent>)
    requires
        block_start(blocks@.len() as int, block_size) <= u64::MAX,
    ensures
        extents@ == block_extents(blocks@, block_size),
{
    let mut extents: Vec<FileExtent> = Vec::new();
    let mut logical: u64 = 0;
    let mut i: usize = 0;
    while i < blocks.len()
        invariant
            i <= blocks@.len(),
            block_start(blocks@.len() as int, block_size) <= u64::MAX,
            logical == block_start(i as int, block_size),
            extents@ == block_extents(blocks@.take(i as int), block_size),
        decreases blocks@.len() - i,
    {
        let ghost part = blocks@.take(i + 1);
        assert(part.drop_last() =~= blocks@.take(i as int));
        proof {
            lemma_next_block(i as int, block_size);
            lemma_block_place(blocks@[i as int], block_size);
            assert(block_start(i + 1, block_size) <= block_start(
                blocks@.len() as int,
                block_size,
            )) by (nonlinear_arith)
                requires
                    i + 1 <= blocks@.len(),
                    block_size >= 0,
            ;
            lemma_extents_end(blocks@.take(i as int), block_size);
        }
        if blocks[i] != 0 {
            let physical: u64 = blocks[i] as u64 * block_size as u64;
            let count: usize = extents.len();
            let joins: bool = count > 0 && extents[count - 1].logical + extents[count - 1].length
                == logical && extents[count - 1].physical <= physical && physical - extents[count
                - 1].physical == extents[count - 1].length;
            if joins {
                let last: FileExtent = extents[count - 1];
                let longer = FileExtent { length: last.length + block_size as u64, ..last };
                extents.set(count - 1, longer);
            } else {
                extents.push(
                    FileExtent { logical, physical, length: block_size as u64, flags: 0 },
                );
            }
        }
        logical = logical + block_size as u64;
        i = i + 1;
    }
    assert(blocks@.take(i as int) =~= blocks@);
    extents
}

/// The blocks of a file that are asked for one by one.
#[derive(Clone, Copy, Debug, PartialEq, Eq, Structural)]
pub struct BlockPlan {
    pub count: u64,
    pub block_size: u32,
}

/// Why the blocks of a file cannot be asked for one by one: their numbers and
/// sizes must fit what the kernel takes.
pub open spec fn block_plan_error(length: u64, block_size: u64) -> Option<Seq<char>> {
    if block_size == 0 {
        Some("the filesystem has no block size"@)
    } else if block_size > u32::MAX {
        Some("the block size is too large"@)
    } else if arith::ceil_div(length as int, block_size as int) > i32::MAX {
        Some("the file is too large to be mapped"@)
    } else {
        None
    }
}

/// Counts the blocks of a file that are asked for one by one.
pub fn plan_blocks(length: u64, block_size: u64) -> (plan: Result<BlockPlan, String>)
    ensures
        match plan {
            Ok(plan) => {
                &&& block_plan_error(length, block_size) is None
                &&& plan.block_size == block_size
                &&& plan.count == arith::ceil_div(length as int, block_size as int)
                &&& block_start(plan.count as int, plan.block_size) <= u64::MAX
            },
            Err(message) => block_plan_error(length, block_size) == Some(message@),
        },
{
    if block_size == 0 {
        return Err("the filesystem has no block size".to_owned());
    }
    if block_size > u32::MAX as u64 {
        return Err("the block size is too large".to_owned());
    }
    let count: u64 = arith::div_ceil(length, block_size);
    if count > i32::MAX as u64 {
        return Err("the file is too large to be mapped".to_owned());
    }
    assert(count * block_size <= i32::MAX * u32::MAX) by (nonlinear_arith)
        requires
            0 <= count <= i32::MAX,
            0 <= block_size <= u32::MAX,
    ;
    Ok(BlockPlan { count, block_size: block_size as u32 })
}

} // verus!
