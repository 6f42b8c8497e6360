//! The physical block map: a volume cut into equal bins, each of which
//! counts its bytes by what they hold.

use vstd::prelude::*;

use crate::arith;
use crate::domain::{CategoryMix, MapBin, MetadataMix};
use crate::linux::{FsMapKind, FsMapRange, MetadataKind};

verus! {

pub const CATEGORY_COUNT: usize = 14;

pub const FREE: usize = 0;

pub const CONTIGUOUS_DATA: usize = 1;

pub const FRAGMENTED_DATA: usize = 2;

pub const UNSCANNED_DATA: usize = 3;

pub const DEFRAG_STAGING: usize = 4;

pub const FILESYSTEM_HEADERS: usize = 5;

pub const JOURNAL: usize = 6;

pub const ALLOCATION_TABLES: usize = 7;

pub const FILE_METADATA: usize = 8;

pub const GROUP_DESCRIPTORS: usize = 9;

pub const BLOCK_BITMAPS: usize = 10;

pub const FILE_BITMAPS: usize = 11;

pub const RESERVED: usize = 12;

pub const OTHER_METADATA: usize = 13;

// ---------------------------------------------------------------------
// Geometry
// ---------------------------------------------------------------------

/// How a volume is cut: the bytes from `start` to `end`, in `count` bins of
/// `span` bytes.
pub struct Frame {
    pub start: int,
    pub end: int,
    pub span: int,
    pub count: nat,
}

/// The lowest byte of any range, or zero where there is none.
pub open spec fn lowest_start(ranges: Seq<FsMapRange>) -> int
    decreases ranges.len(),
{
    if ranges.len() == 0 {
        0
    } else if ranges.len() == 1 {
        ranges[0].physical as int
    } else {
        arith::min_int(lowest_start(ranges.drop_last()), ranges.last().physical as int)
    }
}

/// The end of the range that ends last, or `otherwise` where there is none.
pub open spec fn highest_end(ranges: Seq<FsMapRange>, otherwise: int) -> int
    decreases ranges.len(),
{
    if ranges.len() == 0 {
        otherwise
    } else {
        let end = arith::sat64(ranges.last().physical + ranges.last().length);
        if ranges.len() == 1 {
            end
        } else {
            arith::max_int(highest_end(ranges.drop_last(), otherwise), end)
        }
    }
}

/// The cut of a volume of `capacity` bytes with the given ranges into at
/// most `requested` bins.
pub open spec fn frame_of(ranges: Seq<FsMapRange>, capacity: u64, requested: usize) -> Frame {
    let start = lowest_start(ranges);
    let end = arith::max_int(
        highest_end(ranges, capacity as int),
        arith::sat64(start + capacity),
    );
    let total = arith::max_int(end - start, 1);
    let count = arith::max_int(arith::min_int(requested as int, total), 1);
    Frame { start, end, span: arith::ceil_div(total, count), count: count as nat }
}

impl Frame {
    /// What every cut satisfies.
    pub open spec fn valid(self) -> bool {
        &&& 0 <= self.start <= self.end <= u64::MAX
        &&& 1 <= self.span <= u64::MAX
        &&& 1 <= self.count <= usize::MAX
        &&& self.count * self.span >= self.end - self.start
    }

    /// Where a bin begins.
    pub open spec fn bin_start(self, index: int) -> int {
        arith::sat64(self.start + index * self.span)
    }

    /// How many bytes of the volume a bin holds.
    pub open spec fn bin_len(self, index: int) -> int {
        arith::min_int(arith::sat64(self.end - self.bin_start(index)), self.span)
    }

    /// How many bytes of a range fall into a bin.
    pub open spec fn overlap(self, index: int, physical: u64, length: u64) -> int {
        let range_end = arith::sat64(physical + length);
        let bin_end = arith::sat64(self.bin_start(index) + self.span);
        arith::sat64(
            arith::min_int(range_end, bin_end) - arith::max_int(
                physical as int,
                self.bin_start(index),
            ),
        )
    }
}

// ---------------------------------------------------------------------
// Bins
// ---------------------------------------------------------------------

/// The sum of the first `n` categories of a bin.
pub open spec fn partial_sum(bin: Seq<u64>, n: int) -> int
    decreases n,
{
    if n <= 0 {
        0
    } else {
        partial_sum(bin, n - 1) + bin[n - 1]
    }
}

/// The bytes that a bin counts.
pub open spec fn bin_sum(bin: Seq<u64>) -> int {
    partial_sum(bin, CATEGORY_COUNT as int)
}

/// A bin of which nothing is known yet.
pub open spec fn blank_bin(len: int) -> Seq<u64> {
    Seq::new(
        CATEGORY_COUNT as nat,
        |c: int|
            if c == UNSCANNED_DATA {
                len as u64
            } else {
                0u64
            },
    )
}

/// A bin after `amount` bytes went from one category to another.
pub open spec fn shifted(bin: Seq<u64>, from: int, to: int, amount: int) -> Seq<u64> {
    let taken = bin.update(from, (bin[from] - amount) as u64);
    taken.update(to, (taken[to] + amount) as u64)
}

/// What may happen to the bytes of a range.
#[derive(Clone, Copy, Debug, PartialEq, Eq, Structural)]
pub enum MapOp {
    /// Unscanned bytes are found to be of a category.
    Identify(usize),
    /// Unscanned bytes are found to be file data, of a category that the
    /// display learns of.
    Scan(usize),
    /// Free or data bytes become the target of a running move.
    Stage,
}

/// The categories that staging takes bytes from, in that order.
pub open spec fn staging_source(step: int) -> int {
    if step == 0 {
        FREE as int
    } else if step == 1 {
        UNSCANNED_DATA as int
    } else if step == 2 {
        CONTIGUOUS_DATA as int
    } else {
        FRAGMENTED_DATA as int
    }
}

/// How many bytes the first `step` staging sources give of `amount`.
pub open spec fn staged_amount(bin: Seq<u64>, amount: int, step: int) -> int
    decreases step,
{
    if step <= 0 {
        0
    } else {
        let before = staged_amount(bin, amount, step - 1);
        before + arith::min_int(bin[staging_source(step - 1)] as int, amount - before)
    }
}

/// A bin after the first `step` staging sources gave their bytes.
pub open spec fn staged_bin(bin: Seq<u64>, amount: int, step: int) -> Seq<u64>
    decreases step,
{
    if step <= 0 {
        bin
    } else {
        shifted(
            staged_bin(bin, amount, step - 1),
            staging_source(step - 1),
            DEFRAG_STAGING as int,
            staged_amount(bin, amount, step) - staged_amount(bin, amount, step - 1),
        )
    }
}

/// How many bytes of a bin an operation on `amount` of them moves.
pub open spec fn op_amount(bin: Seq<u64>, op: MapOp, amount: int) -> int {
    match op {
        MapOp::Identify(_) | MapOp::Scan(_) => arith::min_int(
            bin[UNSCANNED_DATA as int] as int,
            amount,
        ),
        MapOp::Stage => staged_amount(bin, amount, 4),
    }
}

/// A bin after an operation on `amount` of its bytes.
pub open spec fn op_bin(bin: Seq<u64>, op: MapOp, amount: int) -> Seq<u64> {
    match op {
        MapOp::Identify(to) | MapOp::Scan(to) => shifted(
            bin,
            UNSCANNED_DATA as int,
            to as int,
            op_amount(bin, op, amount),
        ),
        MapOp::Stage => staged_bin(bin, amount, 4),
    }
}

/// Whether the display must learn of an operation that moved bytes.
pub open spec fn op_shows(op: MapOp) -> bool {
    !(op is Identify)
}

/// Every bin after an operation on a range.
pub open spec fn op_bins(
    frame: Frame,
    bins: Seq<Seq<u64>>,
    op: MapOp,
    physical: u64,
    length: u64,
) -> Seq<Seq<u64>> {
    Seq::new(bins.len(), |i: int| op_bin(bins[i], op, frame.overlap(i, physical, length)))
}

/// Which bins the display must learn of after an operation on a range.
pub open spec fn op_changed(
    frame: Frame,
    bins: Seq<Seq<u64>>,
    changed: Seq<bool>,
    op: MapOp,
    physical: u64,
    length: u64,
) -> Seq<bool> {
    Seq::new(
        changed.len(),
        |i: int|
            changed[i] || (op_shows(op) && op_amount(
                bins[i],
                op,
                frame.overlap(i, physical, length),
            ) > 0),
    )
}

/// The category of metadata of the given kind.
pub open spec fn metadata_slot(kind: MetadataKind) -> usize {
    match kind {
        MetadataKind::FilesystemHeaders => FILESYSTEM_HEADERS,
        MetadataKind::AllocationTables => ALLOCATION_TABLES,
        MetadataKind::Journal => JOURNAL,
        MetadataKind::FileMetadata => FILE_METADATA,
        MetadataKind::GroupDescriptors => GROUP_DESCRIPTORS,
        MetadataKind::BlockBitmaps => BLOCK_BITMAPS,
        MetadataKind::FileBitmaps => FILE_BITMAPS,
        MetadataKind::Reserved => RESERVED,
        MetadataKind::Other => OTHER_METADATA,
    }
}

/// The category of a range of the given kind. An allocated range stays
/// unscanned until a file claims it.
pub open spec fn kind_slot(kind: FsMapKind) -> usize {
    match kind {
        FsMapKind::Free => FREE,
        FsMapKind::Allocated => UNSCANNED_DATA,
        FsMapKind::Metadata(kind) => metadata_slot(kind),
    }
}

/// The bins of a volume of which the given ranges are known.
pub open spec fn painted(frame: Frame, ranges: Seq<FsMapRange>) -> Seq<Seq<u64>>
    decreases ranges.len(),
{
    if ranges.len() == 0 {
        Seq::new(frame.count, |i: int| blank_bin(frame.bin_len(i)))
    } else {
        let range = ranges.last();
        op_bins(
            frame,
            painted(frame, ranges.drop_last()),
            MapOp::Identify(kind_slot(range.kind)),
            range.physical,
            range.length,
        )
    }
}

/// Whether every bin counts exactly the bytes that it holds.
pub open spec fn bins_valid(frame: Frame, bins: Seq<Seq<u64>>) -> bool {
    &&& bins.len() == frame.count
    &&& forall|i: int|
        0 <= i < bins.len() ==> (#[trigger] bins[i]).len() == CATEGORY_COUNT && bin_sum(bins[i])
            == frame.bin_len(i)
}

/// The share of `value` in `length`, in basis points.
pub open spec fn share(value: u64, length: int) -> u16 {
    arith::min_int(value * 10_000 / length, 10_000) as u16
}

/// The display form of a bin.
pub open spec fn map_bin(frame: Frame, bin: Seq<u64>, index: int) -> MapBin {
    let length = arith::max_int(frame.bin_len(index), 1);
    MapBin {
        offset_bytes: frame.bin_start(index) as u64,
        length_bytes: length as u64,
        mix: CategoryMix {
            free: share(bin[0], length),
            contiguous_data: share(bin[1], length),
            fragmented_data: share(bin[2], length),
            unscanned_data: share(bin[3], length),
            defrag_staging: share(bin[4], length),
            metadata: MetadataMix {
                filesystem_headers: share(bin[5], length),
                journal: share(bin[6], length),
                allocation_tables: share(bin[7], length),
                file_metadata: share(bin[8], length),
                group_descriptors: share(bin[9], length),
                block_bitmaps: share(bin[10], length),
                file_bitmaps: share(bin[11], length),
                reserved: share(bin[12], length),
                other: share(bin[13], length),
            },
        },
    }
}

/// The display form of all bins.
pub open spec fn map_bins(frame: Frame, bins: Seq<Seq<u64>>) -> Seq<MapBin> {
    Seq::new(bins.len(), |i: int| map_bin(frame, bins[i], i))
}

/// The display form of the marked bins among the first `n`, in order.
pub open spec fn marked_bins(
    frame: Frame,
    bins: Seq<Seq<u64>>,
    marks: Seq<bool>,
    n: int,
) -> Seq<MapBin>
    decreases n,
{
    if n <= 0 {
        Seq::empty()
    } else if marks[n - 1] {
        marked_bins(frame, bins, marks, n - 1).push(map_bin(frame, bins[n - 1], n - 1))
    } else {
        marked_bins(frame, bins, marks, n - 1)
    }
}

// ---------------------------------------------------------------------
// Lemmas
// ---------------------------------------------------------------------

proof fn lemma_sum_update(bin: Seq<u64>, at: int, value: u64, n: int)
    requires
        0 <= at < bin.len(),
        n <= bin.len(),
    ensures
        partial_sum(bin.update(at, value), n) == partial_sum(bin, n) + (if at < n {
            value - bin[at]
        } else {
            0
        }),
    decreases n,
{
    if n > 0 {
        lemma_sum_update(bin, at, value, n - 1);
    }
}

pub proof fn lemma_sum_bounds(bin: Seq<u64>, n: int, c: int)
    requires
        0 <= n <= bin.len(),
    ensures
        partial_sum(bin, n) >= 0,
        0 <= c < n ==> bin[c] <= partial_sum(bin, n),
    decreases n,
{
    if n > 0 {
        lemma_sum_bounds(bin, n - 1, c);
    }
}

proof fn lemma_two_of_sum(bin: Seq<u64>, a: int, b: int, n: int)
    requires
        0 <= a < n <= bin.len(),
        0 <= b < n,
        a != b,
    ensures
        bin[a] + bin[b] <= partial_sum(bin, n),
    decreases n,
{
    if a < n - 1 && b < n - 1 {
        lemma_two_of_sum(bin, a, b, n - 1);
    } else if a == n - 1 {
        lemma_sum_bounds(bin, n - 1, b);
    } else {
        lemma_sum_bounds(bin, n - 1, a);
    }
}

/// Moving bytes between the categories of a bin keeps their sum.
pub proof fn lemma_shift_keeps_sum(bin: Seq<u64>, from: int, to: int, amount: int)
    requires
        bin.len() == CATEGORY_COUNT,
        0 <= from < CATEGORY_COUNT,
        0 <= to < CATEGORY_COUNT,
        0 <= amount <= bin[from],
        bin_sum(bin) <= u64::MAX,
    ensures
        shifted(bin, from, to, amount).len() == CATEGORY_COUNT,
        bin_sum(shifted(bin, from, to, amount)) == bin_sum(bin),
        from != to ==> bin[from] + bin[to] <= u64::MAX,
{
    if from != to {
        lemma_two_of_sum(bin, from, to, CATEGORY_COUNT as int);
    }
    let taken = bin.update(from, (bin[from] - amount) as u64);
    lemma_sum_update(bin, from, (bin[from] - amount) as u64, CATEGORY_COUNT as int);
    lemma_sum_update(taken, to, (taken[to] + amount) as u64, CATEGORY_COUNT as int);
}

proof fn lemma_staged(bin: Seq<u64>, amount: int, step: int)
    requires
        bin.len() == CATEGORY_COUNT,
        0 <= amount,
        0 <= step <= 4,
        bin_sum(bin) <= u64::MAX,
    ensures
        0 <= staged_amount(bin, amount, step) <= amount,
        staged_bin(bin, amount, step).len() == CATEGORY_COUNT,
        bin_sum(staged_bin(bin, amount, step)) == bin_sum(bin),
        forall|s: int|
            step <= s < 4 ==> staged_bin(bin, amount, step)[#[trigger] staging_source(s)]
                == bin[staging_source(s)],
        staged_bin(bin, amount, step)[DEFRAG_STAGING as int] == bin[DEFRAG_STAGING as int]
            + staged_amount(bin, amount, step),
    decreases step,
{
    if step > 0 {
        lemma_staged(bin, amount, step - 1);
        let before = staged_bin(bin, amount, step - 1);
        let source = staging_source(step - 1);
        let given = staged_amount(bin, amount, step) - staged_amount(bin, amount, step - 1);
        assert(before[source] == bin[source]);
        lemma_shift_keeps_sum(before, source, DEFRAG_STAGING as int, given);
    }
}

/// An operation keeps the bytes that a bin counts.
pub proof fn lemma_op_keeps_sum(bin: Seq<u64>, op: MapOp, amount: int)
    requires
        bin.len() == CATEGORY_COUNT,
        0 <= amount,
        bin_sum(bin) <= u64::MAX,
        op matches MapOp::Identify(c) ==> c < CATEGORY_COUNT,
        op matches MapOp::Scan(c) ==> c < CATEGORY_COUNT,
    ensures
        op_bin(bin, op, amount).len() == CATEGORY_COUNT,
        bin_sum(op_bin(bin, op, amount)) == bin_sum(bin),
        0 <= op_amount(bin, op, amount) <= amount,
        op_amount(bin, op, amount) == 0 ==> op_bin(bin, op, amount) == bin,
{
    match op {
        MapOp::Identify(to) | MapOp::Scan(to) => {
            lemma_shift_keeps_sum(
                bin,
                UNSCANNED_DATA as int,
                to as int,
                op_amount(bin, op, amount),
            );
            if op_amount(bin, op, amount) == 0 {
                assert(op_bin(bin, op, amount) =~= bin);
            }
        },
        MapOp::Stage => {
            lemma_staged(bin, amount, 4);
            if op_amount(bin, op, amount) == 0 {
                lemma_nothing_staged(bin, amount, 4);
            }
        },
    }
}

proof fn lemma_nothing_staged(bin: Seq<u64>, amount: int, step: int)
    requires
        bin.len() == CATEGORY_COUNT,
        0 <= amount,
        0 <= step <= 4,
        bin_sum(bin) <= u64::MAX,
        staged_amount(bin, amount, step) == 0,
    ensures
        staged_bin(bin, amount, step) == bin,
    decreases step,
{
    if step > 0 {
        lemma_staged(bin, amount, step - 1);
        lemma_nothing_staged(bin, amount, step - 1);
        assert(staged_bin(bin, amount, step) =~= bin);
    }
}

/// A bin that a range does not reach stays as it is.
proof fn lemma_op_of_nothing(bin: Seq<u64>, op: MapOp)
    requires
        bin.len() == CATEGORY_COUNT,
        bin_sum(bin) <= u64::MAX,
        op matches MapOp::Identify(c) ==> c < CATEGORY_COUNT,
        op matches MapOp::Scan(c) ==> c < CATEGORY_COUNT,
    ensures
        op_bin(bin, op, 0) == bin,
        op_amount(bin, op, 0) == 0,
{
    lemma_op_keeps_sum(bin, op, 0);
}

proof fn lemma_blank_sum(len: int, n: int)
    requires
        0 <= len <= u64::MAX,
        0 <= n <= CATEGORY_COUNT,
    ensures
        partial_sum(blank_bin(len), n) == if n > UNSCANNED_DATA {
            len
        } else {
            0
        },
    decreases n,
{
    if n > 0 {
        lemma_blank_sum(len, n - 1);
    }
}

pub proof fn lemma_start_bounds(ranges: Seq<FsMapRange>, otherwise: int)
    requires
        0 <= otherwise <= u64::MAX,
    ensures
        0 <= lowest_start(ranges) <= u64::MAX,
        0 <= highest_end(ranges, otherwise) <= u64::MAX,
        ranges.len() > 0 ==> lowest_start(ranges) <= highest_end(ranges, otherwise),
    decreases ranges.len(),
{
    if ranges.len() > 0 {
        lemma_start_bounds(ranges.drop_last(), otherwise);
    }
}

/// Every cut is valid.
pub proof fn lemma_frame_valid(ranges: Seq<FsMapRange>, capacity: u64, requested: usize)
    ensures
        frame_of(ranges, capacity, requested).valid(),
{
    let f = frame_of(ranges, capacity, requested);
    lemma_start_bounds(ranges, capacity as int);
    let total = arith::max_int(f.end - f.start, 1);
    let count = f.count as int;
    arith::lemma_ceil_div(total, count);
    assert(f.span * count >= total);
    assert(f.count * f.span == f.span * count) by (nonlinear_arith)
        requires
            f.count as int == count,
    ;
    assert(f.span >= 1) by (nonlinear_arith)
        requires
            f.span * count >= total,
            total >= 1,
            count >= 1,
    ;
    assert(f.span <= total) by {
        assert(f.span * count < total + count);
        assert(f.span <= total) by (nonlinear_arith)
            requires
                f.span * count < total + count,
                total >= count >= 1,
        ;
    }
}

/// The bins that a range reaches lie between the two that its ends fall in.
proof fn lemma_no_overlap_outside(frame: Frame, physical: u64, length: u64, index: int)
    requires
        frame.valid(),
        0 <= index,
        ({
            let range_end = arith::sat64(physical + length);
            let first = arith::sat64(physical - frame.start) / frame.span;
            let last = arith::sat64(arith::sat64(range_end - 1) - frame.start) / frame.span;
            length == 0 || range_end <= frame.start || index < first || index > last
        }),
    ensures
        frame.overlap(index, physical, length) == 0,
{
    let range_end = arith::sat64(physical + length);
    let span = frame.span;
    let offset = index * span;
    assert(offset >= 0) by (nonlinear_arith)
        requires
            offset == index * span,
            index >= 0,
            span >= 1,
    ;
    if length > 0 && range_end > frame.start {
        let ahead = arith::sat64(physical - frame.start);
        let first = ahead / span;
        let back = arith::sat64(arith::sat64(range_end - 1) - frame.start);
        let last = back / span;
        if index < first {
            assert(offset + span <= ahead) by (nonlinear_arith)
                requires
                    offset == index * span,
                    index + 1 <= ahead / span,
                    span >= 1,
                    ahead >= 0,
            {
                vstd::arithmetic::div_mod::lemma_fundamental_div_mod(ahead, span);
                assert((index + 1) * span <= (ahead / span) * span) by (nonlinear_arith)
                    requires
                        index + 1 <= ahead / span,
                        span >= 1,
                ;
                assert((index + 1) * span == index * span + span) by (nonlinear_arith);
                assert(span * (ahead / span) == (ahead / span) * span) by (nonlinear_arith);
            }
        } else {
            assert(offset > back) by (nonlinear_arith)
                requires
                    offset == index * span,
                    index >= back / span + 1,
                    span >= 1,
                    back >= 0,
            {
                vstd::arithmetic::div_mod::lemma_fundamental_div_mod(back, span);
                assert(index * span >= (back / span + 1) * span) by (nonlinear_arith)
                    requires
                        index >= back / span + 1,
                        span >= 1,
                ;
                assert((back / span + 1) * span == (back / span) * span + span)
                    by (nonlinear_arith);
                assert(span * (back / span) == (back / span) * span) by (nonlinear_arith);
            }
        }
    }
}

/// The bins after an operation still count what they hold.
pub proof fn lemma_op_keeps_bins(
    frame: Frame,
    bins: Seq<Seq<u64>>,
    op: MapOp,
    physical: u64,
    length: u64,
)
    requires
        frame.valid(),
        bins_valid(frame, bins),
        op matches MapOp::Identify(c) ==> c < CATEGORY_COUNT,
        op matches MapOp::Scan(c) ==> c < CATEGORY_COUNT,
    ensures
        bins_valid(frame, op_bins(frame, bins, op, physical, length)),
{
    let after = op_bins(frame, bins, op, physical, length);
    assert forall|i: int| 0 <= i < after.len() implies (#[trigger] after[i]).len()
        == CATEGORY_COUNT && bin_sum(after[i]) == frame.bin_len(i) by {
        assert(bins[i].len() == CATEGORY_COUNT);
        lemma_op_keeps_sum(bins[i], op, frame.overlap(i, physical, length));
    }
}

/// The bins of known ranges count what they hold.
pub proof fn lemma_painted_valid(frame: Frame, ranges: Seq<FsMapRange>)
    requires
        frame.valid(),
    ensures
        bins_valid(frame, painted(frame, ranges)),
    decreases ranges.len(),
{
    if ranges.len() == 0 {
        let bins = painted(frame, ranges);
        assert forall|i: int| 0 <= i < bins.len() implies (#[trigger] bins[i]).len()
            == CATEGORY_COUNT && bin_sum(bins[i]) == frame.bin_len(i) by {
            lemma_blank_sum(frame.bin_len(i), CATEGORY_COUNT as int);
        }
    } else {
        lemma_painted_valid(frame, ranges.drop_last());
        let range = ranges.last();
        lemma_op_keeps_bins(
            frame,
            painted(frame, ranges.drop_last()),
            MapOp::Identify(kind_slot(range.kind)),
            range.physical,
            range.length,
        );
    }
}

// ---------------------------------------------------------------------
// The accumulator
// ---------------------------------------------------------------------

/// The block map of a volume while it is being read.
pub struct BinAccumulator {
    start: u64,
    end: u64,
    span: u64,
    raw: Vec<[u64; 14]>,
    changed: Vec<bool>,
}

/// Tells the category of metadata of the given kind.
fn metadata_category(kind: MetadataKind) -> (category: usize)
    ensures
        category == metadata_slot(kind),
{
    match kind {
        MetadataKind::FilesystemHeaders => FILESYSTEM_HEADERS,
        MetadataKind::AllocationTables => ALLOCATION_TABLES,
        MetadataKind::Journal => JOURNAL,
        MetadataKind::FileMetadata => FILE_METADATA,
        MetadataKind::GroupDescriptors => GROUP_DESCRIPTORS,
        MetadataKind::BlockBitmaps => BLOCK_BITMAPS,
        MetadataKind::FileBitmaps => FILE_BITMAPS,
        MetadataKind::Reserved => RESERVED,
        MetadataKind::Other => OTHER_METADATA,
    }
}

/// Moves `amount` bytes of a bin from one category to another.
fn shift(bin: [u64; 14], from: usize, to: usize, amount: u64) -> (after: [u64; 14])
    requires
        from < 14,
        to < 14,
        amount <= bin@[from as int],
        bin_sum(bin@) <= u64::MAX,
    ensures
        after@ == shifted(bin@, from as int, to as int, amount as int),
{
    proof {
        lemma_shift_keeps_sum(bin@, from as int, to as int, amount as int);
    }
    let mut after: [u64; 14] = bin;
    after[from] = after[from] - amount;
    after[to] = after[to].saturating_add(amount);
    assert(after@ =~= shifted(bin@, from as int, to as int, amount as int));
    after
}

/// Applies an operation to a bin; tells whether bytes moved.
fn apply_bin(bin: [u64; 14], op: MapOp, amount: u64) -> (result: ([u64; 14], bool))
    requires
        bin_sum(bin@) <= u64::MAX,
        op matches MapOp::Identify(c) ==> c < CATEGORY_COUNT,
        op matches MapOp::Scan(c) ==> c < CATEGORY_COUNT,
    ensures
        result.0@ == op_bin(bin@, op, amount as int),
        result.1 == (op_amount(bin@, op, amount as int) > 0),
{
    match op {
        MapOp::Identify(to) | MapOp::Scan(to) => {
            let moved: u64 = bin[UNSCANNED_DATA].min(amount);
            (shift(bin, UNSCANNED_DATA, to, moved), moved > 0)
        },
        MapOp::Stage => {
            let sources: [usize; 4] = [FREE, UNSCANNED_DATA, CONTIGUOUS_DATA, FRAGMENTED_DATA];
            let mut after: [u64; 14] = bin;
            let mut moved: u64 = 0;
            let mut step: usize = 0;
            while step < 4
                invariant
                    step <= 4,
                    bin_sum(bin@) <= u64::MAX,
                    sources@ == seq![FREE, UNSCANNED_DATA, CONTIGUOUS_DATA, FRAGMENTED_DATA],
                    moved == staged_amount(bin@, amount as int, step as int),
                    after@ == staged_bin(bin@, amount as int, step as int),
                decreases 4 - step,
            {
                proof {
                    lemma_staged(bin@, amount as int, step as int);
                }
                let source: usize = sources[step];
                assert(source == staging_source(step as int));
                let given: u64 = after[source].min(amount - moved);
                after = shift(after, source, DEFRAG_STAGING, given);
                proof {
                    lemma_staged(bin@, amount as int, step + 1);
                }
                moved = moved + given;
                step = step + 1;
            }
            (after, moved > 0)
        },
    }
}

impl BinAccumulator {
    /// How the volume is cut.
    pub closed spec fn frame(&self) -> Frame {
        Frame {
            start: self.start as int,
            end: self.end as int,
            span: self.span as int,
            count: self.raw@.len(),
        }
    }

    /// The bytes of each bin by category.
    pub closed spec fn bins(&self) -> Seq<Seq<u64>> {
        Seq::new(self.raw@.len(), |i: int| self.raw@[i]@)
    }

    /// Which bins changed since the display last learned of them.
    pub closed spec fn marks(&self) -> Seq<bool> {
        self.changed@
    }

    /// Every bin counts exactly the bytes that it holds.
    pub open spec fn wf(&self) -> bool {
        &&& self.frame().valid()
        &&& bins_valid(self.frame(), self.bins())
        &&& self.marks().len() == self.frame().count
    }

    /// The map of a volume of `capacity` bytes of which the given ranges are
    /// known. What no range names is unscanned: a missing record is no
    /// evidence of free space.
    pub fn new(ranges: &Vec<FsMapRange>, capacity: u64, requested_bins: usize) -> (map: Self)
        ensures
            map.wf(),
            map.frame() == frame_of(ranges@, capacity, requested_bins),
            map.bins() == painted(map.frame(), ranges@),
            forall|i: int| 0 <= i < map.marks().len() ==> !#[trigger] map.marks()[i],
    {
        let mut start: u64 = 0;
        let mut end: u64 = capacity;
        let mut i: usize = 0;
        while i < ranges.len()
            invariant
                i <= ranges@.len(),
                start == lowest_start(ranges@.take(i as int)),
                end == highest_end(ranges@.take(i as int), capacity as int),
            decreases ranges@.len() - i,
        {
            let range: FsMapRange = ranges[i];
            let range_end: u64 = range.physical.saturating_add(range.length);
            assert(ranges@.take(i + 1).drop_last() =~= ranges@.take(i as int));
            if i == 0 {
                start = range.physical;
                end = range_end;
            } else {
                start = start.min(range.physical);
                end = end.max(range_end);
            }
            i = i + 1;
        }
        assert(ranges@.take(i as int) =~= ranges@);
        end = end.max(start.saturating_add(capacity));
        let ghost frame = frame_of(ranges@, capacity, requested_bins);
        proof {
            lemma_start_bounds(ranges@, capacity as int);
            lemma_frame_valid(ranges@, capacity, requested_bins);
        }
        let total: u64 = (end - start).max(1);
        let mut count: usize = if (requested_bins as u64) < total {
            requested_bins
        } else {
            total as usize
        };
        if count < 1 {
            count = 1;
        }
        let span: u64 = arith::div_ceil(total, count as u64);
        let mut map: BinAccumulator = BinAccumulator {
            start,
            end,
            span,
            raw: Vec::new(),
            changed: Vec::new(),
        };
        let mut index: usize = 0;
        while index < count
            invariant
                index <= count,
                count == frame.count,
                map.start == start,
                map.end == end,
                map.span == span,
                frame.start == start,
                frame.end == end,
                frame.span == span,
                map.raw@.len() == index,
                map.changed@.len() == index,
                forall|k: int|
                    0 <= k < index ==> (#[trigger] map.raw@[k])@ == blank_bin(frame.bin_len(k)),
                forall|k: int| 0 <= k < index ==> !#[trigger] map.changed@[k],
            decreases count - index,
        {
            let offset: u64 = start.saturating_add(arith::saturating_mul(index as u64, span));
            proof {
                assert(index * span >= 0) by (nonlinear_arith);
            }
            let length: u64 = end.saturating_sub(offset).min(span);
            assert(length == frame.bin_len(index as int));
            let bin: [u64; 14] = [0, 0, 0, length, 0, 0, 0, 0, 0, 0, 0, 0, 0, 0];
            assert(bin@ =~= blank_bin(length as int));
            map.raw.push(bin);
            map.changed.push(false);
            index = index + 1;
        }
        let ghost none = Seq::<FsMapRange>::empty();
        proof {
            assert(map.frame() == frame);
            assert(map.bins() =~= painted(frame, none));
            lemma_painted_valid(frame, none);
            assert(ranges@.take(0) =~= none);
        }
        let mut at: usize = 0;
        while at < ranges.len()
            invariant
                at <= ranges@.len(),
                map.wf(),
                map.frame() == frame,
                map.bins() == painted(frame, ranges@.take(at as int)),
                forall|k: int| 0 <= k < map.marks().len() ==> !#[trigger] map.marks()[k],
            decreases ranges@.len() - at,
        {
            let range: FsMapRange = ranges[at];
            let category: usize = match range.kind {
                FsMapKind::Free => FREE,
                FsMapKind::Allocated => UNSCANNED_DATA,
                FsMapKind::Metadata(kind) => metadata_category(kind),
            };
            assert(category == kind_slot(range.kind));
            map.apply(range.physical, range.length, MapOp::Identify(category));
            assert(ranges@.take(at + 1).drop_last() =~= ranges@.take(at as int));
            at = at + 1;
        }
        assert(ranges@.take(at as int) =~= ranges@);
        map
    }

    /// Where a bin begins.
    fn bin_offset(&self, index: usize) -> (offset: u64)
        requires
            self.wf(),
            index < self.frame().count,
        ensures
            offset == self.frame().bin_start(index as int),
    {
        proof {
            let span = self.span as int;
            assert(index * span >= 0) by (nonlinear_arith)
                requires
                    span >= 0,
            ;
        }
        self.start.saturating_add(arith::saturating_mul(index as u64, self.span))
    }

    /// Applies an operation to every byte of a range.
    fn apply(&mut self, physical: u64, length: u64, op: MapOp)
        requires
            old(self).wf(),
            op matches MapOp::Identify(c) ==> c < CATEGORY_COUNT,
            op matches MapOp::Scan(c) ==> c < CATEGORY_COUNT,
        ensures
            final(self).wf(),
            final(self).frame() == old(self).frame(),
            final(self).bins() == op_bins(
                old(self).frame(),
                old(self).bins(),
                op,
                physical,
                length,
            ),
            final(self).marks() == op_changed(
                old(self).frame(),
                old(self).bins(),
                old(self).marks(),
                op,
                physical,
                length,
            ),
    {
        let ghost frame = self.frame();
        let ghost before = self.bins();
        let ghost marks = self.marks();
        let ghost goal = op_bins(frame, before, op, physical, length);
        let ghost goal_marks = op_changed(frame, before, marks, op, physical, length);
        let range_end: u64 = physical.saturating_add(length);
        let count: usize = self.raw.len();
        let mut index: usize = count;
        let mut stop: usize = count;
        if length != 0 && range_end > self.start {
            let first: u64 = physical.saturating_sub(self.start) / self.span;
            let last: u64 = range_end.saturating_sub(1).saturating_sub(self.start) / self.span;
            if first < count as u64 {
                index = first as usize;
            }
            if last < count as u64 - 1 {
                stop = last as usize + 1;
            }
        }
        proof {
            lemma_op_keeps_bins(frame, before, op, physical, length);
            assert forall|k: int| 0 <= k < count && !(index <= k < stop) implies goal[k]
                == before[k] && goal_marks[k] == marks[k] by {
                lemma_no_overlap_outside(frame, physical, length, k);
                assert(before[k].len() == CATEGORY_COUNT);
                lemma_op_of_nothing(before[k], op);
            }
        }
        let ghost from = index as int;
        while index < stop
            invariant
                from <= index,
                stop <= count,
                count == self.raw@.len(),
                count == self.changed@.len(),
                self.frame() == frame,
                frame.valid(),
                bins_valid(frame, before),
                before.len() == count,
                marks.len() == count,
                goal == op_bins(frame, before, op, physical, length),
                goal_marks == op_changed(frame, before, marks, op, physical, length),
                range_end == arith::sat64(physical + length),
                op matches MapOp::Identify(c) ==> c < CATEGORY_COUNT,
                op matches MapOp::Scan(c) ==> c < CATEGORY_COUNT,
                forall|k: int|
                    0 <= k < count ==> (#[trigger] self.raw@[k])@ == (if from <= k < index {
                        goal[k]
                    } else {
                        before[k]
                    }),
                forall|k: int|
                    0 <= k < count ==> #[trigger] self.changed@[k] == (if from <= k < index {
                        goal_marks[k]
                    } else {
                        marks[k]
                    }),
            decreases stop - index,
        {
            let bin_start: u64 = self.start.saturating_add(
                arith::saturating_mul(index as u64, self.span),
            );
            proof {
                assert(index * self.span >= 0) by (nonlinear_arith);
            }
            assert(bin_start == frame.bin_start(index as int));
            let bin_end: u64 = bin_start.saturating_add(self.span);
            let overlap: u64 = range_end.min(bin_end).saturating_sub(physical.max(bin_start));
            assert(overlap == frame.overlap(index as int, physical, length));
            assert(before[index as int].len() == CATEGORY_COUNT);
            let (bin, moved) = apply_bin(self.raw[index], op, overlap);
            self.raw.set(index, bin);
            let shows: bool = match op {
                MapOp::Identify(_) => false,
                _ => true,
            };
            if shows && moved {
                self.changed.set(index, true);
            }
            index = index + 1;
        }
        assert(self.bins() =~= goal);
        assert(self.marks() =~= goal_marks);
    }

    /// Counts the unscanned bytes of a range as file data.
    pub fn mark_scanned(&mut self, physical: u64, length: u64, fragmented: bool)
        requires
            old(self).wf(),
        ensures
            final(self).wf(),
            final(self).frame() == old(self).frame(),
            final(self).bins() == op_bins(
                old(self).frame(),
                old(self).bins(),
                scan_op(fragmented),
                physical,
                length,
            ),
            final(self).marks() == op_changed(
                old(self).frame(),
                old(self).bins(),
                old(self).marks(),
                scan_op(fragmented),
                physical,
                length,
            ),
    {
        let target: usize = if fragmented {
            FRAGMENTED_DATA
        } else {
            CONTIGUOUS_DATA
        };
        self.apply(physical, length, MapOp::Scan(target));
    }

    /// Counts the bytes of a range as the target of a running move. Such a
    /// target is normally free; a compaction may first evacuate an occupied
    /// one.
    pub fn mark_staging(&mut self, physical: u64, length: u64)
        requires
            old(self).wf(),
        ensures
            final(self).wf(),
            final(self).frame() == old(self).frame(),
            final(self).bins() == op_bins(
                old(self).frame(),
                old(self).bins(),
                MapOp::Stage,
                physical,
                length,
            ),
            final(self).marks() == op_changed(
                old(self).frame(),
                old(self).bins(),
                old(self).marks(),
                MapOp::Stage,
                physical,
                length,
            ),
    {
        self.apply(physical, length, MapOp::Stage);
    }

    /// The display form of one bin.
    fn bin(&self, index: usize) -> (bin: MapBin)
        requires
            self.wf(),
            index < self.frame().count,
        ensures
            bin == map_bin(self.frame(), self.bins()[index as int], index as int),
    {
        let raw: [u64; 14] = self.raw[index];
        let offset: u64 = self.bin_offset(index);
        let length: u64 = self.end.saturating_sub(offset).min(self.span).max(1);
        MapBin {
            offset_bytes: offset,
            length_bytes: length,
            mix: CategoryMix {
                free: part(raw[FREE], length),
                contiguous_data: part(raw[CONTIGUOUS_DATA], length),
                fragmented_data: part(raw[FRAGMENTED_DATA], length),
                unscanned_data: part(raw[UNSCANNED_DATA], length),
                defrag_staging: part(raw[DEFRAG_STAGING], length),
                metadata: MetadataMix {
                    filesystem_headers: part(raw[FILESYSTEM_HEADERS], length),
                    journal: part(raw[JOURNAL], length),
                    allocation_tables: part(raw[ALLOCATION_TABLES], length),
                    file_metadata: part(raw[FILE_METADATA], length),
                    group_descriptors: part(raw[GROUP_DESCRIPTORS], length),
                    block_bitmaps: part(raw[BLOCK_BITMAPS], length),
                    file_bitmaps: part(raw[FILE_BITMAPS], length),
                    reserved: part(raw[RESERVED], length),
                    other: part(raw[OTHER_METADATA], length),
                },
            },
        }
    }

    /// The display form of the whole map.
    pub fn snapshot(&self) -> (bins: Vec<MapBin>)
        requires
            self.wf(),
        ensures
            bins@ == map_bins(self.frame(), self.bins()),
    {
        let mut bins: Vec<MapBin> = Vec::new();
        let mut index: usize = 0;
        while index < self.raw.len()
            invariant
                index <= self.raw@.len(),
                self.wf(),
                bins@ == map_bins(self.frame(), self.bins()).take(index as int),
            decreases self.raw@.len() - index,
        {
            bins.push(self.bin(index));
            index = index + 1;
            assert(bins@ =~= map_bins(self.frame(), self.bins()).take(index as int));
        }
        assert(bins@ =~= map_bins(self.frame(), self.bins()));
        bins
    }

    /// The display form of the bins that changed since the last call.
    pub fn take_changes(&mut self) -> (bins: Vec<MapBin>)
        requires
            old(self).wf(),
        ensures
            bins@ == marked_bins(
                old(self).frame(),
                old(self).bins(),
                old(self).marks(),
                old(self).marks().len() as int,
            ),
            final(self).wf(),
            final(self).frame() == old(self).frame(),
            final(self).bins() == old(self).bins(),
            forall|i: int|
                0 <= i < final(self).marks().len() ==> !#[trigger] final(self).marks()[i],
    {
        let mut bins: Vec<MapBin> = Vec::new();
        let ghost frame = self.frame();
        let ghost all = self.bins();
        let ghost marks = self.marks();
        let count: usize = self.changed.len();
        let mut index: usize = 0;
        while index < count
            invariant
                index <= count,
                count == self.changed@.len(),
                count == marks.len(),
                self.wf(),
                self.frame() == frame,
                self.bins() == all,
                forall|k: int| 0 <= k < index ==> !#[trigger] self.changed@[k],
                forall|k: int| index <= k < count ==> #[trigger] self.changed@[k] == marks[k],
                bins@ == marked_bins(frame, all, marks, index as int),
            decreases count - index,
        {
            if self.changed[index] {
                bins.push(self.bin(index));
                let ghost raw = self.raw;
                self.changed.set(index, false);
                assert(self.bins() =~= all);
            }
            index = index + 1;
        }
        bins
    }

    /// The display form of the finished map.
    pub fn finish(self) -> (bins: Vec<MapBin>)
        requires
            self.wf(),
        ensures
            bins@ == map_bins(self.frame(), self.bins()),
    {
        self.snapshot()
    }
}

/// The operation that counts a range as file data.
pub open spec fn scan_op(fragmented: bool) -> MapOp {
    MapOp::Scan(
        if fragmented {
            FRAGMENTED_DATA
        } else {
            CONTIGUOUS_DATA
        },
    )
}

fn part(value: u64, length: u64) -> (points: u16)
    requires
        length > 0,
    ensures
        points == share(value, length as int),
{
    let scaled: u128 = value as u128 * 10_000;
    assert(value * 10_000 / length as int >= 0) by (nonlinear_arith)
        requires
            value >= 0,
            length > 0,
    ;
    let quotient: u128 = scaled / length as u128;
    if quotient < 10_000 {
        quotient as u16
    } else {
        10_000
    }
}

// ---------------------------------------------------------------------
// Laws
// ---------------------------------------------------------------------

/// The sum of all parts of a bin.
pub open spec fn mix_total(mix: CategoryMix) -> int {
    mix.free + mix.contiguous_data + mix.fragmented_data + mix.unscanned_data + mix.defrag_staging
        + mix.metadata.filesystem_headers + mix.metadata.journal + mix.metadata.allocation_tables
        + mix.metadata.file_metadata + mix.metadata.group_descriptors + mix.metadata.block_bitmaps
        + mix.metadata.file_bitmaps + mix.metadata.reserved + mix.metadata.other
}

proof fn lemma_share(value: u64, length: int)
    requires
        length >= 1,
    ensures
        share(value, length) * length <= value * 10_000,
{
    let quotient = value * 10_000 / length;
    vstd::arithmetic::div_mod::lemma_fundamental_div_mod(value * 10_000, length);
    assert(quotient * length <= value * 10_000) by {
        assert(length * quotient == quotient * length) by (nonlinear_arith);
    }
    assert(quotient >= 0) by (nonlinear_arith)
        requires
            quotient == value * 10_000 / length,
            value >= 0,
            length >= 1,
    ;
    let s = share(value, length) as int;
    assert(s <= quotient);
    assert(s * length <= quotient * length) by (nonlinear_arith)
        requires
            s <= quotient,
            length >= 1,
    ;
}

/// The parts of a bin never add up to more than the whole.
pub proof fn lemma_parts_within_whole(frame: Frame, bins: Seq<Seq<u64>>, index: int)
    requires
        frame.valid(),
        bins_valid(frame, bins),
        0 <= index < bins.len(),
    ensures
        mix_total(map_bin(frame, bins[index], index).mix) <= 10_000,
{
    let bin = bins[index];
    let length = arith::max_int(frame.bin_len(index), 1);
    reveal_with_fuel(partial_sum, 15);
    assert(bin.len() == CATEGORY_COUNT);
    lemma_share(bin[0], length);
    lemma_share(bin[1], length);
    lemma_share(bin[2], length);
    lemma_share(bin[3], length);
    lemma_share(bin[4], length);
    lemma_share(bin[5], length);
    lemma_share(bin[6], length);
    lemma_share(bin[7], length);
    lemma_share(bin[8], length);
    lemma_share(bin[9], length);
    lemma_share(bin[10], length);
    lemma_share(bin[11], length);
    lemma_share(bin[12], length);
    lemma_share(bin[13], length);
    let s0 = share(bin[0], length) as int;
    let s1 = share(bin[1], length) as int;
    let s2 = share(bin[2], length) as int;
    let s3 = share(bin[3], length) as int;
    let s4 = share(bin[4], length) as int;
    let s5 = share(bin[5], length) as int;
    let s6 = share(bin[6], length) as int;
    let s7 = share(bin[7], length) as int;
    let s8 = share(bin[8], length) as int;
    let s9 = share(bin[9], length) as int;
    let s10 = share(bin[10], length) as int;
    let s11 = share(bin[11], length) as int;
    let s12 = share(bin[12], length) as int;
    let s13 = share(bin[13], length) as int;
    let total = s0 + s1 + s2 + s3 + s4 + s5 + s6 + s7 + s8 + s9 + s10 + s11 + s12 + s13;
    assert(total * length == s0 * length + s1 * length + s2 * length + s3 * length + s4 * length
        + s5 * length + s6 * length + s7 * length + s8 * length + s9 * length + s10 * length + s11
        * length + s12 * length + s13 * length) by (nonlinear_arith)
        requires
            total == s0 + s1 + s2 + s3 + s4 + s5 + s6 + s7 + s8 + s9 + s10 + s11 + s12 + s13,
    ;
    assert(total * length <= 10_000 * length);
    assert(total <= 10_000) by (nonlinear_arith)
        requires
            total * length <= 10_000 * length,
            length >= 1,
    ;
}

/// An operation on a range leaves every bin alone that the range does not
/// reach.
pub proof fn lemma_unreached_bins_stay(
    frame: Frame,
    bins: Seq<Seq<u64>>,
    op: MapOp,
    physical: u64,
    length: u64,
    index: int,
)
    requires
        frame.valid(),
        bins_valid(frame, bins),
        op matches MapOp::Identify(c) ==> c < CATEGORY_COUNT,
        op matches MapOp::Scan(c) ==> c < CATEGORY_COUNT,
        0 <= index < bins.len(),
        frame.overlap(index, physical, length) == 0,
    ensures
        op_bins(frame, bins, op, physical, length)[index] == bins[index],
{
    assert(bins[index].len() == CATEGORY_COUNT);
    lemma_op_of_nothing(bins[index], op);
}

/// Whether the display can be brought from one state of a map to another by
/// the bins that are marked in the later one: the cut is the same, and the
/// unmarked bins are. Only bins that hold bytes are ever marked, so that a
/// marked bin begins inside the address space.
pub open spec fn catches_up(
    frame: Frame,
    shown: Seq<Seq<u64>>,
    bins: Seq<Seq<u64>>,
    marks: Seq<bool>,
) -> bool {
    &&& shown.len() == frame.count
    &&& bins.len() == frame.count
    &&& marks.len() == frame.count
    &&& forall|i: int| 0 <= i < frame.count && !marks[i] ==> #[trigger] shown[i] == bins[i]
    &&& forall|i: int|
        0 <= i < frame.count && #[trigger] marks[i] ==> frame.bin_start(i) < u64::MAX
}

/// Marking file data or staging keeps the display able to catch up.
pub proof fn lemma_marks_catch_up(
    frame: Frame,
    shown: Seq<Seq<u64>>,
    bins: Seq<Seq<u64>>,
    marks: Seq<bool>,
    op: MapOp,
    physical: u64,
    length: u64,
)
    requires
        frame.valid(),
        bins_valid(frame, bins),
        catches_up(frame, shown, bins, marks),
        op_shows(op),
        op matches MapOp::Scan(c) ==> c < CATEGORY_COUNT,
    ensures
        catches_up(
            frame,
            shown,
            op_bins(frame, bins, op, physical, length),
            op_changed(frame, bins, marks, op, physical, length),
        ),
{
    let after = op_bins(frame, bins, op, physical, length);
    let marked = op_changed(frame, bins, marks, op, physical, length);
    assert forall|i: int| 0 <= i < frame.count && !marked[i] implies #[trigger] shown[i]
        == after[i] by {
        assert(bins[i].len() == CATEGORY_COUNT);
        lemma_op_keeps_sum(bins[i], op, frame.overlap(i, physical, length));
    }
    assert forall|i: int| 0 <= i < frame.count && #[trigger] marked[i] implies frame.bin_start(i)
        < u64::MAX by {
        if !marks[i] {
            assert(bins[i].len() == CATEGORY_COUNT);
            lemma_op_keeps_sum(bins[i], op, frame.overlap(i, physical, length));
        }
    }
}

/// A map of which the display knows everything can be caught up with.
pub proof fn lemma_shown_map_catches_up(frame: Frame, bins: Seq<Seq<u64>>, marks: Seq<bool>)
    requires
        bins.len() == frame.count,
        marks.len() == frame.count,
        forall|i: int| 0 <= i < marks.len() ==> !#[trigger] marks[i],
    ensures
        catches_up(frame, bins, bins, marks),
        marked_bins(frame, bins, marks, marks.len() as int).len() == 0,
{
    lemma_no_marks(frame, bins, marks, marks.len() as int);
}

proof fn lemma_no_marks(frame: Frame, bins: Seq<Seq<u64>>, marks: Seq<bool>, n: int)
    requires
        n <= marks.len(),
        forall|i: int| 0 <= i < marks.len() ==> !#[trigger] marks[i],
    ensures
        marked_bins(frame, bins, marks, n).len() == 0,
    decreases n,
{
    if n > 0 {
        lemma_no_marks(frame, bins, marks, n - 1);
    }
}

proof fn lemma_starts_ascend(frame: Frame, i: int, j: int)
    requires
        frame.valid(),
        0 <= i < j,
    ensures
        frame.bin_start(i) <= frame.bin_start(j),
        frame.bin_start(i) < u64::MAX ==> frame.bin_start(i) < frame.bin_start(j),
{
    let span = frame.span;
    assert(i * span + span <= j * span) by (nonlinear_arith)
        requires
            i + 1 <= j,
            span >= 1,
    ;
    assert(0 <= i * span) by (nonlinear_arith)
        requires
            0 <= i,
            span >= 1,
    ;
}

/// The bins of every cut stand in order. Where a cut reaches past the address
/// space, the bins behind it all stand at its end; of the others no two begin
/// at the same byte.
pub proof fn lemma_bins_ascending(frame: Frame, bins: Seq<Seq<u64>>)
    requires
        frame.valid(),
        bins.len() == frame.count,
    ensures
        forall|i: int, j: int|
            0 <= i < j < bins.len() ==> {
                let first = #[trigger] map_bins(frame, bins)[i];
                let second = #[trigger] map_bins(frame, bins)[j];
                &&& first.offset_bytes <= second.offset_bytes
                &&& first.offset_bytes < u64::MAX ==> first.offset_bytes < second.offset_bytes
            },
        frame.start + (frame.count - 1) * frame.span <= u64::MAX ==> crate::map_view::ascending(
            map_bins(frame, bins),
        ),
{
    let shown = map_bins(frame, bins);
    assert forall|i: int, j: int| 0 <= i < j < shown.len() implies {
        let first = #[trigger] shown[i];
        let second = #[trigger] shown[j];
        &&& first.offset_bytes <= second.offset_bytes
        &&& first.offset_bytes < u64::MAX ==> first.offset_bytes < second.offset_bytes
    } by {
        lemma_starts_ascend(frame, i, j);
    }
    if frame.start + (frame.count - 1) * frame.span <= u64::MAX {
        assert forall|i: int, j: int| 0 <= i < j < shown.len() implies (
        #[trigger] shown[i]).offset_bytes < (#[trigger] shown[j]).offset_bytes by {
            let span = frame.span;
            assert(i * span + span <= j * span) by (nonlinear_arith)
                requires
                    i + 1 <= j,
                    span >= 1,
            ;
            assert(j * span <= (frame.count - 1) * span) by (nonlinear_arith)
                requires
                    j <= frame.count - 1,
                    span >= 1,
            ;
            assert(0 <= i * span) by (nonlinear_arith)
                requires
                    0 <= i,
                    span >= 1,
            ;
        }
    }
}

/// The changes that are taken from a map stand in order, and no bin is among
/// them twice.
pub proof fn lemma_changes_ascend(
    frame: Frame,
    shown: Seq<Seq<u64>>,
    bins: Seq<Seq<u64>>,
    marks: Seq<bool>,
)
    requires
        frame.valid(),
        catches_up(frame, shown, bins, marks),
    ensures
        crate::map_view::ascending(marked_bins(frame, bins, marks, marks.len() as int)),
{
    lemma_marked_ascend(frame, shown, bins, marks, marks.len() as int);
}

proof fn lemma_marked_ascend(
    frame: Frame,
    shown: Seq<Seq<u64>>,
    bins: Seq<Seq<u64>>,
    marks: Seq<bool>,
    n: int,
)
    requires
        frame.valid(),
        catches_up(frame, shown, bins, marks),
        0 <= n <= marks.len(),
    ensures
        crate::map_view::ascending(marked_bins(frame, bins, marks, n)),
        forall|i: int, j: int|
            #![trigger marked_bins(frame, bins, marks, n)[i], frame.bin_start(j)]
            0 <= i < marked_bins(frame, bins, marks, n).len() && n <= j ==> marked_bins(
                frame,
                bins,
                marks,
                n,
            )[i].offset_bytes < frame.bin_start(j),
    decreases n,
{
    if n > 0 {
        lemma_marked_ascend(frame, shown, bins, marks, n - 1);
        let before = marked_bins(frame, bins, marks, n - 1);
        let after = marked_bins(frame, bins, marks, n);
        assert forall|i: int, j: int|
            #![trigger after[i], frame.bin_start(j)]
            0 <= i < after.len() && n <= j implies after[i].offset_bytes < frame.bin_start(j) by {
            if i < before.len() {
                assert(after[i] == before[i]);
            } else {
                lemma_starts_ascend(frame, n - 1, j);
            }
        }
        assert forall|i: int, j: int| 0 <= i < j < after.len() implies (
        #[trigger] after[i]).offset_bytes < (#[trigger] after[j]).offset_bytes by {
            assert(after[i] == before[i]);
            if j < before.len() {
                assert(before[i].offset_bytes < before[j].offset_bytes);
            } else {
                assert(before[i].offset_bytes < frame.bin_start(n - 1));
            }
        }
    }
}

/// Merging the changes that were taken from a map into what was shown of it
/// gives the map as it is now: nothing that changed is missing from them.
pub proof fn lemma_changes_complete_the_display(
    frame: Frame,
    shown: Seq<Seq<u64>>,
    bins: Seq<Seq<u64>>,
    marks: Seq<bool>,
)
    requires
        frame.valid(),
        catches_up(frame, shown, bins, marks),
    ensures
        crate::map_view::merged(
            map_bins(frame, shown),
            false,
            marked_bins(frame, bins, marks, marks.len() as int),
        ) == map_bins(frame, bins),
{
    lemma_merge_prefix(frame, shown, bins, marks, marks.len() as int);
    assert(mixed(shown, bins, marks.len() as int) =~= bins);
}

/// An operation that the display learns of, and the range that it is on.
pub struct MarkCall {
    pub op: MapOp,
    pub physical: u64,
    pub length: u64,
}

/// The bins and the marks of a map after some operations.
pub open spec fn after_marks(
    frame: Frame,
    bins: Seq<Seq<u64>>,
    marks: Seq<bool>,
    calls: Seq<MarkCall>,
) -> (Seq<Seq<u64>>, Seq<bool>)
    decreases calls.len(),
{
    if calls.len() == 0 {
        (bins, marks)
    } else {
        let (b, m) = after_marks(frame, bins, marks, calls.drop_last());
        let call = calls.last();
        (
            op_bins(frame, b, call.op, call.physical, call.length),
            op_changed(frame, b, m, call.op, call.physical, call.length),
        )
    }
}

proof fn lemma_calls_catch_up(
    frame: Frame,
    bins: Seq<Seq<u64>>,
    marks: Seq<bool>,
    calls: Seq<MarkCall>,
)
    requires
        frame.valid(),
        bins_valid(frame, bins),
        catches_up(frame, bins, bins, marks),
        forall|i: int|
            0 <= i < calls.len() ==> (#[trigger] calls[i]).op == MapOp::Stage || calls[i].op
                == scan_op(true) || calls[i].op == scan_op(false),
    ensures
        ({
            let (b, m) = after_marks(frame, bins, marks, calls);
            &&& bins_valid(frame, b)
            &&& catches_up(frame, bins, b, m)
        }),
    decreases calls.len(),
{
    if calls.len() > 0 {
        let rest = calls.drop_last();
        assert forall|i: int| 0 <= i < rest.len() implies (#[trigger] rest[i]).op == MapOp::Stage
            || rest[i].op == scan_op(true) || rest[i].op == scan_op(false) by {
            assert(rest[i] == calls[i]);
        }
        lemma_calls_catch_up(frame, bins, marks, rest);
        let (b, m) = after_marks(frame, bins, marks, rest);
        let call = calls[calls.len() - 1];
        lemma_op_keeps_bins(frame, b, call.op, call.physical, call.length);
        lemma_marks_catch_up(frame, bins, b, m, call.op, call.physical, call.length);
    }
}

/// A display that shows a map as it was when it last learned of it is brought
/// up to date by the changes that are taken after any number of marks; they
/// name no bin twice, and none are left behind them.
pub proof fn lemma_changes_follow_any_marks(
    frame: Frame,
    bins: Seq<Seq<u64>>,
    marks: Seq<bool>,
    calls: Seq<MarkCall>,
)
    requires
        frame.valid(),
        bins_valid(frame, bins),
        marks.len() == frame.count,
        forall|i: int| 0 <= i < marks.len() ==> !#[trigger] marks[i],
        forall|i: int|
            0 <= i < calls.len() ==> (#[trigger] calls[i]).op == MapOp::Stage || calls[i].op
                == scan_op(true) || calls[i].op == scan_op(false),
    ensures
        ({
            let (b, m) = after_marks(frame, bins, marks, calls);
            let changes = marked_bins(frame, b, m, m.len() as int);
            &&& crate::map_view::ascending(changes)
            &&& crate::map_view::merged(map_bins(frame, bins), false, changes) == map_bins(frame, b)
            &&& marked_bins(frame, b, marks, marks.len() as int).len() == 0
        }),
{
    let (b, m) = after_marks(frame, bins, marks, calls);
    lemma_shown_map_catches_up(frame, bins, marks);
    lemma_calls_catch_up(frame, bins, marks, calls);
    lemma_changes_ascend(frame, bins, b, m);
    lemma_changes_complete_the_display(frame, bins, b, m);
    lemma_no_marks(frame, b, marks, marks.len() as int);
}

/// The first `n` bins as they are now, the others as they were shown.
spec fn mixed(shown: Seq<Seq<u64>>, bins: Seq<Seq<u64>>, n: int) -> Seq<Seq<u64>> {
    Seq::new(
        shown.len(),
        |i: int|
            if i < n {
                bins[i]
            } else {
                shown[i]
            },
    )
}

proof fn lemma_merge_prefix(
    frame: Frame,
    shown: Seq<Seq<u64>>,
    bins: Seq<Seq<u64>>,
    marks: Seq<bool>,
    n: int,
)
    requires
        frame.valid(),
        catches_up(frame, shown, bins, marks),
        0 <= n <= marks.len(),
    ensures
        crate::map_view::merged(
            map_bins(frame, shown),
            false,
            marked_bins(frame, bins, marks, n),
        ) == map_bins(frame, mixed(shown, bins, n)),
    decreases n,
{
    if n == 0 {
        assert(mixed(shown, bins, 0) =~= shown);
    } else {
        lemma_merge_prefix(frame, shown, bins, marks, n - 1);
        let before = map_bins(frame, mixed(shown, bins, n - 1));
        let after = map_bins(frame, mixed(shown, bins, n));
        if marks[n - 1] {
            let bin = map_bin(frame, bins[n - 1], n - 1);
            let earlier = marked_bins(frame, bins, marks, n - 1);
            assert(earlier.push(bin).drop_last() =~= earlier);
            assert forall|k: int| 0 <= k < n - 1 implies (#[trigger] before[k]).offset_bytes
                < bin.offset_bytes by {
                lemma_starts_ascend(frame, k, n - 1);
            }
            crate::map_view::lemma_merge_replaces(before, n - 1, bin);
            assert(before.update(n - 1, bin) =~= after);
        } else {
            assert(shown[n - 1] == bins[n - 1]);
            assert(mixed(shown, bins, n) =~= mixed(shown, bins, n - 1));
        }
    }
}

} // verus!
