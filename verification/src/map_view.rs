//! The drive map as it is displayed: resampled to the grid of the window and
//! packed into fixed-width records.

use vstd::prelude::*;

use crate::arith;
use crate::domain::{CategoryMix, MapBin, MetadataMix, PhysicalRange};
use crate::views;

verus! {

/// The size of the part of a record that describes the bin.
pub const MAP_CATEGORY_BYTES: usize = 44;

/// The size of one contributor of a record.
pub const MAP_CONTRIBUTOR_BYTES: usize = 6;

/// How many contributors a record names.
pub const MAX_MAP_CONTRIBUTORS: usize = 5;

/// The size of a record.
pub const MAP_RECORD_BYTES: usize = 74;

/// The size of a record of pending I/O.
pub const ACTIVITY_RECORD_BYTES: usize = 24;

/// The distance between two cells of the grid.
pub const PITCH: u32 = 11;

/// A file that occupies part of a bin.
#[derive(Clone, Copy, Debug, PartialEq, Eq, Structural)]
pub struct MapContributor {
    pub file_index: u32,
    pub coverage_basis_points: u16,
}

/// The contributor that stands for none.
pub open spec fn no_contributor() -> MapContributor {
    MapContributor { file_index: u32::MAX, coverage_basis_points: 0 }
}

impl Default for MapContributor {
    fn default() -> (value: Self)
        ensures
            value == no_contributor(),
    {
        MapContributor { file_index: u32::MAX, coverage_basis_points: 0 }
    }
}

/// The parts of a bin, in the order in which they are packed.
pub open spec fn mix_seq(mix: CategoryMix) -> Seq<u16> {
    seq![
        mix.free,
        mix.contiguous_data,
        mix.fragmented_data,
        mix.unscanned_data,
        mix.defrag_staging,
        mix.metadata.filesystem_headers,
        mix.metadata.journal,
        mix.metadata.allocation_tables,
        mix.metadata.file_metadata,
        mix.metadata.group_descriptors,
        mix.metadata.block_bitmaps,
        mix.metadata.file_bitmaps,
        mix.metadata.reserved,
        mix.metadata.other,
    ]
}

/// The mix with the given parts.
pub open spec fn mix_of(parts: Seq<u16>) -> CategoryMix {
    CategoryMix {
        free: parts[0],
        contiguous_data: parts[1],
        fragmented_data: parts[2],
        unscanned_data: parts[3],
        defrag_staging: parts[4],
        metadata: MetadataMix {
            filesystem_headers: parts[5],
            journal: parts[6],
            allocation_tables: parts[7],
            file_metadata: parts[8],
            group_descriptors: parts[9],
            block_bitmaps: parts[10],
            file_bitmaps: parts[11],
            reserved: parts[12],
            other: parts[13],
        },
    }
}

fn metadata_values(metadata: MetadataMix) -> (values: [u16; 9])
    ensures
        values@ == seq![
            metadata.filesystem_headers,
            metadata.journal,
            metadata.allocation_tables,
            metadata.file_metadata,
            metadata.group_descriptors,
            metadata.block_bitmaps,
            metadata.file_bitmaps,
            metadata.reserved,
            metadata.other,
        ],
{
    let values: [u16; 9] = [
        metadata.filesystem_headers,
        metadata.journal,
        metadata.allocation_tables,
        metadata.file_metadata,
        metadata.group_descriptors,
        metadata.block_bitmaps,
        metadata.file_bitmaps,
        metadata.reserved,
        metadata.other,
    ];
    values
}

fn mix_values(mix: CategoryMix) -> (values: [u16; 14])
    ensures
        values@ == mix_seq(mix),
{
    let metadata: [u16; 9] = metadata_values(mix.metadata);
    let values: [u16; 14] = [
        mix.free,
        mix.contiguous_data,
        mix.fragmented_data,
        mix.unscanned_data,
        mix.defrag_staging,
        metadata[0],
        metadata[1],
        metadata[2],
        metadata[3],
        metadata[4],
        metadata[5],
        metadata[6],
        metadata[7],
        metadata[8],
    ];
    assert(values@ =~= mix_seq(mix));
    values
}

fn mix_from(parts: [u16; 14]) -> (mix: CategoryMix)
    ensures
        mix == mix_of(parts@),
{
    CategoryMix {
        free: parts[0],
        contiguous_data: parts[1],
        fragmented_data: parts[2],
        unscanned_data: parts[3],
        defrag_staging: parts[4],
        metadata: MetadataMix {
            filesystem_headers: parts[5],
            journal: parts[6],
            allocation_tables: parts[7],
            file_metadata: parts[8],
            group_descriptors: parts[9],
            block_bitmaps: parts[10],
            file_bitmaps: parts[11],
            reserved: parts[12],
            other: parts[13],
        },
    }
}

// ---------------------------------------------------------------------
// Transport
// ---------------------------------------------------------------------

/// Parts packed as two bytes each.
pub open spec fn parts_bytes(parts: Seq<u16>) -> Seq<u8>
    decreases parts.len(),
{
    if parts.len() == 0 {
        Seq::empty()
    } else {
        parts_bytes(parts.drop_last()) + arith::le_bytes(parts.last() as nat, 2)
    }
}

/// Contributors packed as six bytes each.
pub open spec fn contributors_bytes(slots: Seq<MapContributor>) -> Seq<u8>
    decreases slots.len(),
{
    if slots.len() == 0 {
        Seq::empty()
    } else {
        contributors_bytes(slots.drop_last()) + arith::le_bytes(slots.last().file_index as nat, 4)
            + arith::le_bytes(slots.last().coverage_basis_points as nat, 2)
    }
}

/// The contributors of a bin; a bin without any has empty slots.
pub open spec fn slots_at(contributors: Seq<[MapContributor; 5]>, index: int) -> Seq<
    MapContributor,
> {
    if index < contributors.len() {
        contributors[index]@
    } else {
        Seq::new(5, |i: int| no_contributor())
    }
}

/// The record of a bin.
pub open spec fn record_bytes(bin: MapBin, slots: Seq<MapContributor>) -> Seq<u8> {
    arith::le_bytes(bin.offset_bytes as nat, 8) + arith::le_bytes(bin.length_bytes as nat, 8)
        + parts_bytes(mix_seq(bin.mix)) + contributors_bytes(slots)
}

/// The records of a map, one behind the other.
pub open spec fn map_bytes(bins: Seq<MapBin>, contributors: Seq<[MapContributor; 5]>) -> Seq<u8>
    decreases bins.len(),
{
    if bins.len() == 0 {
        Seq::empty()
    } else {
        map_bytes(bins.drop_last(), contributors) + record_bytes(
            bins.last(),
            slots_at(contributors, bins.len() - 1),
        )
    }
}

proof fn lemma_parts_len(parts: Seq<u16>)
    ensures
        parts_bytes(parts).len() == 2 * parts.len(),
    decreases parts.len(),
{
    if parts.len() > 0 {
        lemma_parts_len(parts.drop_last());
        arith::lemma_le_bytes_len(parts.last() as nat, 2);
    }
}

proof fn lemma_contributors_len(slots: Seq<MapContributor>)
    ensures
        contributors_bytes(slots).len() == 6 * slots.len(),
    decreases slots.len(),
{
    if slots.len() > 0 {
        lemma_contributors_len(slots.drop_last());
        arith::lemma_le_bytes_len(slots.last().file_index as nat, 4);
        arith::lemma_le_bytes_len(slots.last().coverage_basis_points as nat, 2);
    }
}

/// Every record has the same size.
pub proof fn lemma_record_size(bin: MapBin, slots: Seq<MapContributor>)
    requires
        slots.len() == MAX_MAP_CONTRIBUTORS,
    ensures
        record_bytes(bin, slots).len() == MAP_RECORD_BYTES,
{
    arith::lemma_le_bytes_len(bin.offset_bytes as nat, 8);
    arith::lemma_le_bytes_len(bin.length_bytes as nat, 8);
    lemma_parts_len(mix_seq(bin.mix));
    lemma_contributors_len(slots);
}

/// The record of a bin stands at a place that its number alone determines.
pub proof fn lemma_map_record(
    bins: Seq<MapBin>,
    contributors: Seq<[MapContributor; 5]>,
    index: int,
)
    requires
        0 <= index < bins.len(),
    ensures
        map_bytes(bins, contributors).len() == bins.len() * MAP_RECORD_BYTES,
        map_bytes(bins, contributors).subrange(
            index * MAP_RECORD_BYTES,
            index * MAP_RECORD_BYTES + MAP_RECORD_BYTES,
        ) == record_bytes(bins[index], slots_at(contributors, index)),
    decreases bins.len(),
{
    let last = bins.len() - 1;
    lemma_record_size(bins.last(), slots_at(contributors, last));
    if last > 0 {
        lemma_map_record(
            bins.drop_last(),
            contributors,
            if index < last {
                index
            } else {
                0
            },
        );
    }
    let whole = map_bytes(bins, contributors);
    let head = map_bytes(bins.drop_last(), contributors);
    let from = index * MAP_RECORD_BYTES;
    if index < last {
        assert(whole.subrange(from, from + MAP_RECORD_BYTES) =~= head.subrange(
            from,
            from + MAP_RECORD_BYTES,
        ));
    } else {
        assert(whole.subrange(from, from + MAP_RECORD_BYTES) =~= record_bytes(
            bins.last(),
            slots_at(contributors, last),
        ));
    }
}

fn push_parts(bytes: &mut Vec<u8>, parts: &[u16; 14])
    ensures
        final(bytes)@ == old(bytes)@ + parts_bytes(parts@),
{
    let ghost start = bytes@;
    let mut i: usize = 0;
    assert(parts@.take(0) =~= Seq::<u16>::empty());
    assert(start + Seq::<u8>::empty() =~= start);
    while i < 14
        invariant
            i <= 14,
            bytes@ == start + parts_bytes(parts@.take(i as int)),
        decreases 14 - i,
    {
        arith::push_le(bytes, parts[i] as u64, 2);
        assert(parts@.take(i + 1).drop_last() =~= parts@.take(i as int));
        i = i + 1;
        assert(bytes@ =~= start + parts_bytes(parts@.take(i as int)));
    }
    assert(parts@.take(14) =~= parts@);
}

fn push_contributors(bytes: &mut Vec<u8>, slots: &[MapContributor; 5])
    ensures
        final(bytes)@ == old(bytes)@ + contributors_bytes(slots@),
{
    let ghost start = bytes@;
    let mut i: usize = 0;
    assert(slots@.take(0) =~= Seq::<MapContributor>::empty());
    assert(start + Seq::<u8>::empty() =~= start);
    while i < 5
        invariant
            i <= 5,
            bytes@ == start + contributors_bytes(slots@.take(i as int)),
        decreases 5 - i,
    {
        arith::push_le(bytes, slots[i].file_index as u64, 4);
        arith::push_le(bytes, slots[i].coverage_basis_points as u64, 2);
        assert(slots@.take(i + 1).drop_last() =~= slots@.take(i as int));
        i = i + 1;
        assert(bytes@ =~= start + contributors_bytes(slots@.take(i as int)));
    }
    assert(slots@.take(5) =~= slots@);
}

/// Packs a map and its contributors for the display.
pub fn encode_map(bins: &Vec<MapBin>, contributors: &Vec<[MapContributor; 5]>) -> (bytes: Vec<u8>)
    ensures
        bytes@ == map_bytes(bins@, contributors@),
{
    let mut bytes: Vec<u8> = Vec::new();
    let mut i: usize = 0;
    while i < bins.len()
        invariant
            i <= bins@.len(),
            bytes@ == map_bytes(bins@.take(i as int), contributors@),
        decreases bins@.len() - i,
    {
        let ghost start = bytes@;
        let bin: MapBin = bins[i];
        arith::push_le(&mut bytes, bin.offset_bytes, 8);
        arith::push_le(&mut bytes, bin.length_bytes, 8);
        push_parts(&mut bytes, &mix_values(bin.mix));
        let slots: [MapContributor; 5] = if i < contributors.len() {
            contributors[i]
        } else {
            let none: MapContributor = MapContributor::default();
            [none, none, none, none, none]
        };
        assert(slots@ =~= slots_at(contributors@, i as int));
        push_contributors(&mut bytes, &slots);
        assert(bytes@ =~= start + record_bytes(bin, slots@));
        assert(bins@.take(i + 1).drop_last() =~= bins@.take(i as int));
        i = i + 1;
    }
    assert(bins@.take(i as int) =~= bins@);
    bytes
}

/// The records of ranges with pending I/O of one kind.
pub open spec fn ranges_bytes(ranges: Seq<PhysicalRange>, kind: u8) -> Seq<u8>
    decreases ranges.len(),
{
    if ranges.len() == 0 {
        Seq::empty()
    } else {
        ranges_bytes(ranges.drop_last(), kind) + arith::le_bytes(
            ranges.last().offset_bytes as nat,
            8,
        ) + arith::le_bytes(ranges.last().length_bytes as nat, 8) + seq![
            kind,
            0u8,
            0u8,
            0u8,
            0u8,
            0u8,
            0u8,
            0u8,
        ]
    }
}

fn push_ranges(bytes: &mut Vec<u8>, ranges: &Vec<PhysicalRange>, kind: u8)
    ensures
        final(bytes)@ == old(bytes)@ + ranges_bytes(ranges@, kind),
{
    let ghost start = bytes@;
    let mut i: usize = 0;
    assert(ranges@.take(0) =~= Seq::<PhysicalRange>::empty());
    assert(start + Seq::<u8>::empty() =~= start);
    while i < ranges.len()
        invariant
            i <= ranges@.len(),
            bytes@ == start + ranges_bytes(ranges@.take(i as int), kind),
        decreases ranges@.len() - i,
    {
        arith::push_le(bytes, ranges[i].offset_bytes, 8);
        arith::push_le(bytes, ranges[i].length_bytes, 8);
        bytes.push(kind);
        bytes.push(0);
        bytes.push(0);
        bytes.push(0);
        bytes.push(0);
        bytes.push(0);
        bytes.push(0);
        bytes.push(0);
        assert(ranges@.take(i + 1).drop_last() =~= ranges@.take(i as int));
        i = i + 1;
        assert(bytes@ =~= start + ranges_bytes(ranges@.take(i as int), kind));
    }
    assert(ranges@.take(i as int) =~= ranges@);
}

/// Packs pending I/O for the display: what is read, then what is written.
pub fn encode_activity(reading: &Vec<PhysicalRange>, writing: &Vec<PhysicalRange>) -> (bytes: Vec<
    u8,
>)
    ensures
        bytes@ == ranges_bytes(reading@, 1) + ranges_bytes(writing@, 2),
{
    let mut bytes: Vec<u8> = Vec::new();
    push_ranges(&mut bytes, reading, 1);
    push_ranges(&mut bytes, writing, 2);
    assert(bytes@ =~= ranges_bytes(reading@, 1) + ranges_bytes(writing@, 2));
    bytes
}

// ---------------------------------------------------------------------
// Resampling
// ---------------------------------------------------------------------

/// Where part `index` of `count` equal parts of `capacity` begins.
pub open spec fn cut(index: int, count: int, capacity: int) -> int {
    index * capacity / count
}

fn partition_point(index: usize, count: usize, capacity: u64) -> (at: u64)
    requires
        count > 0,
        index <= count,
    ensures
        at == cut(index as int, count as int, capacity as int),
        at <= capacity,
{
    proof {
        lemma_cut_bounds(index as int, count as int, capacity as int);
        assert(index * capacity <= u64::MAX * u64::MAX) by (nonlinear_arith)
            requires
                0 <= index <= u64::MAX,
                0 <= capacity <= u64::MAX,
        ;
    }
    let product: u128 = index as u128 * capacity as u128;
    (product / count as u128) as u64
}

pub proof fn lemma_cut_bounds(index: int, count: int, capacity: int)
    requires
        0 <= index <= count,
        count > 0,
        capacity >= 0,
    ensures
        0 <= cut(index, count, capacity) <= capacity,
        cut(0, count, capacity) == 0,
        cut(count, count, capacity) == capacity,
        index < count && capacity >= count ==> cut(index, count, capacity) < cut(
            index + 1,
            count,
            capacity,
        ),
        index < count ==> cut(index, count, capacity) <= cut(index + 1, count, capacity),
{
    let p = index * capacity;
    assert(0 <= p <= count * capacity) by (nonlinear_arith)
        requires
            p == index * capacity,
            0 <= index <= count,
            capacity >= 0,
    ;
    assert(count * capacity / count == capacity) by {
        vstd::arithmetic::div_mod::lemma_div_by_multiple(capacity, count);
        assert(count * capacity == capacity * count) by (nonlinear_arith);
    }
    vstd::arithmetic::div_mod::lemma_div_is_ordered(0, p, count);
    vstd::arithmetic::div_mod::lemma_div_is_ordered(p, count * capacity, count);
    assert(0 * capacity == 0) by (nonlinear_arith);
    assert(0int / count == 0) by {
        vstd::arithmetic::div_mod::lemma_div_basics(count);
    }
    if index < count {
        let q = (index + 1) * capacity;
        assert(q == p + capacity) by (nonlinear_arith)
            requires
                q == (index + 1) * capacity,
                p == index * capacity,
        ;
        vstd::arithmetic::div_mod::lemma_div_is_ordered(p, q, count);
        if capacity >= count {
            vstd::arithmetic::div_mod::lemma_div_is_ordered(p + count, q, count);
            vstd::arithmetic::div_mod::lemma_div_plus_one(p, count);
            assert((p + count) / count == p / count + 1) by {
                vstd::arithmetic::div_mod::lemma_div_plus_one(p, count);
                assert((count + p) / count == 1 + p / count);
            }
        }
    }
}

/// A weighted share, rounded to the nearest basis point.
pub open spec fn weighted(value: int, length: int) -> u16 {
    if length == 0 {
        0
    } else {
        arith::min_int((value + length / 2) / length, 65_535) as u16
    }
}

/// Rounds a weighted share to the nearest basis point.
pub fn weighted_basis_points(value: u128, length: u64) -> (points: u16)
    requires
        value + length / 2 <= u128::MAX,
    ensures
        points == weighted(value as int, length as int),
{
    if length == 0 {
        return 0;
    }
    let wide: u128 = length as u128;
    let rounded: u128 = (value + wide / 2) / wide;
    if rounded < 65_535 {
        rounded as u16
    } else {
        65_535
    }
}

/// Where bin `n` of a map begins when its bins stand one behind the other
/// from zero on.
pub open spec fn laid_out(source: Seq<MapBin>, n: int) -> int
    decreases n,
{
    if n <= 0 {
        0
    } else {
        arith::sat64(laid_out(source, n - 1) + source[n - 1].length_bytes)
    }
}

/// The length of what two ranges have in common.
pub open spec fn common(lo: int, hi: int, from: int, to: int) -> int {
    arith::max_int(arith::min_int(hi, to) - arith::max_int(lo, from), 0)
}

/// The parts of category `c` of the first `n` bins, each weighted by the
/// bytes that the bin has in common with `lo..hi`.
pub open spec fn weight(source: Seq<MapBin>, c: int, lo: int, hi: int, n: int) -> int
    decreases n,
{
    if n <= 0 {
        0
    } else {
        weight(source, c, lo, hi, n - 1) + mix_seq(source[n - 1].mix)[c] * common(
            lo,
            hi,
            laid_out(source, n - 1),
            laid_out(source, n),
        )
    }
}

/// The first bin, from `i` on, that reaches beyond `x`; the last one where
/// none does.
pub open spec fn bin_beyond(source: Seq<MapBin>, x: int, i: int) -> int
    decreases source.len() - i,
{
    if i + 1 >= source.len() || laid_out(source, i + 1) > x {
        i
    } else {
        bin_beyond(source, x, i + 1)
    }
}

/// Cell `t` of a map resampled to `count` cells of equal length.
pub open spec fn resampled_bin(source: Seq<MapBin>, count: int, t: int) -> MapBin {
    let total = laid_out(source, source.len() as int);
    let lo = cut(t, count, total);
    let hi = cut(t + 1, count, total);
    let first = bin_beyond(source, lo, 0);
    MapBin {
        offset_bytes: arith::sat64(
            source[first].offset_bytes + (lo - laid_out(source, first)),
        ) as u64,
        length_bytes: (hi - lo) as u64,
        mix: mix_of(
            Seq::new(
                14,
                |c: int| weighted(weight(source, c, lo, hi, source.len() as int), hi - lo),
            ),
        ),
    }
}

/// A map resampled to `count` cells of equal length.
pub open spec fn resampled(source: Seq<MapBin>, count: int) -> Seq<MapBin> {
    Seq::new(count as nat, |t: int| resampled_bin(source, count, t))
}

pub proof fn lemma_laid_out(source: Seq<MapBin>, i: int, j: int)
    requires
        0 <= i <= j,
    ensures
        0 <= laid_out(source, i) <= laid_out(source, j) <= u64::MAX,
    decreases j,
{
    if i < j {
        lemma_laid_out(source, i, j - 1);
    } else if i > 0 {
        lemma_laid_out(source, i - 1, j - 1);
    }
}

proof fn lemma_bin_beyond_from(source: Seq<MapBin>, x: int, i: int)
    requires
        0 <= i < source.len(),
        laid_out(source, i) <= x,
    ensures
        bin_beyond(source, x, 0) == bin_beyond(source, x, i),
    decreases i,
{
    if i > 0 {
        lemma_laid_out(source, i - 1, i);
        lemma_bin_beyond_from(source, x, i - 1);
    }
}

proof fn lemma_weight_empty(source: Seq<MapBin>, c: int, lo: int, n: int)
    requires
        0 <= n,
    ensures
        weight(source, c, lo, lo, n) == 0,
    decreases n,
{
    if n > 0 {
        lemma_weight_empty(source, c, lo, n - 1);
        lemma_laid_out(source, n - 1, n);
        assert(mix_seq(source[n - 1].mix)[c] * 0 == 0) by (nonlinear_arith);
    }
}

/// Extending a range within one bin adds that bin's part of the extension.
proof fn lemma_weight_step(source: Seq<MapBin>, c: int, lo: int, a: int, b: int, at: int, n: int)
    requires
        0 <= at < source.len(),
        0 <= n <= source.len(),
        lo <= a <= b,
        laid_out(source, at) <= a,
        b <= laid_out(source, at + 1),
    ensures
        weight(source, c, lo, b, n) == weight(source, c, lo, a, n) + (if at < n {
            mix_seq(source[at].mix)[c] * (b - a)
        } else {
            0
        }),
    decreases n,
{
    if n > 0 {
        lemma_weight_step(source, c, lo, a, b, at, n - 1);
        let i = n - 1;
        let from = laid_out(source, i);
        let to = laid_out(source, n);
        lemma_laid_out(source, i, n);
        let value = mix_seq(source[i].mix)[c] as int;
        if i == at {
            assert(common(lo, b, from, to) == common(lo, a, from, to) + (b - a));
            assert(value * (common(lo, a, from, to) + (b - a)) == value * common(lo, a, from, to)
                + value * (b - a)) by (nonlinear_arith);
        } else if i < at {
            lemma_laid_out(source, n, at);
            assert(common(lo, b, from, to) == common(lo, a, from, to));
        } else {
            lemma_laid_out(source, at + 1, i);
            assert(common(lo, b, from, to) == common(lo, a, from, to));
        }
    }
}

/// Adds a bin's parts, each times `span`, to running sums.
fn add_weighted(sums: &mut [u128; 14], parts: &[u16; 14], span: u64, Ghost(limit): Ghost<int>)
    requires
        forall|c: int| 0 <= c < 14 ==> #[trigger] old(sums)@[c] <= 65_535 * limit,
        0 <= limit,
        limit + span <= u64::MAX,
    ensures
        forall|c: int|
            0 <= c < 14 ==> #[trigger] final(sums)@[c] == old(sums)@[c] + parts@[c] * span,
        forall|c: int| 0 <= c < 14 ==> #[trigger] final(sums)@[c] <= 65_535 * (limit + span),
{
    let ghost before = sums@;
    let mut c: usize = 0;
    while c < 14
        invariant
            c <= 14,
            before.len() == 14,
            0 <= limit,
            limit + span <= u64::MAX,
            forall|k: int| 0 <= k < 14 ==> #[trigger] before[k] <= 65_535 * limit,
            forall|k: int| 0 <= k < c ==> #[trigger] sums@[k] == before[k] + parts@[k] * span,
            forall|k: int| 0 <= k < c ==> #[trigger] sums@[k] <= 65_535 * (limit + span),
            forall|k: int| c <= k < 14 ==> #[trigger] sums@[k] == before[k],
        decreases 14 - c,
    {
        let value: u16 = parts[c];
        assert(0 <= value * span <= 65_535 * span) by (nonlinear_arith)
            requires
                0 <= value <= 65_535,
                0 <= span,
        ;
        let product: u128 = value as u128 * span as u128;
        let sum: u128 = sums[c];
        assert(sum == before[c as int]);
        sums[c] = sum + product;
        c = c + 1;
    }
}

fn scaled_parts(sums: &[u128; 14], length: u64) -> (parts: [u16; 14])
    requires
        forall|c: int| 0 <= c < 14 ==> #[trigger] sums@[c] <= 65_535 * u64::MAX,
    ensures
        forall|c: int| 0 <= c < 14 ==> #[trigger] parts@[c] == weighted(sums@[c] as int, length as int),
{
    let mut parts: [u16; 14] = [0, 0, 0, 0, 0, 0, 0, 0, 0, 0, 0, 0, 0, 0];
    let mut c: usize = 0;
    while c < 14
        invariant
            c <= 14,
            forall|k: int| 0 <= k < 14 ==> #[trigger] sums@[k] <= 65_535 * u64::MAX,
            forall|k: int|
                0 <= k < c ==> #[trigger] parts@[k] == weighted(sums@[k] as int, length as int),
        decreases 14 - c,
    {
        let sum: u128 = sums[c];
        assert(sum <= 65_535 * u64::MAX);
        parts[c] = weighted_basis_points(sum, length);
        c = c + 1;
    }
    parts
}

/// Resamples a map to `count` cells of equal length.
fn resample_map(source: &Vec<MapBin>, count: usize, total_length: u64) -> (result: Vec<MapBin>)
    requires
        source@.len() > 0,
        total_length == laid_out(source@, source@.len() as int),
        0 < count <= total_length,
    ensures
        result@ == resampled(source@, count as int),
{
    let ghost s = source@;
    let ghost n = source@.len() as int;
    let ghost total = total_length as int;
    let mut result: Vec<MapBin> = Vec::new();
    let mut source_index: usize = 0;
    let mut source_start: u64 = 0;
    let mut target: usize = 0;
    while target < count
        invariant
            target <= count,
            0 < count <= total_length,
            s == source@,
            n == s.len(),
            n > 0,
            total == total_length,
            total == laid_out(s, n),
            source_index < n,
            target < count ==> source_start == laid_out(s, source_index as int) && source_start
                <= cut(target as int, count as int, total),
            result@ == resampled(s, count as int).take(target as int),
        decreases count - target,
    {
        let target_start: u64 = partition_point(target, count, total_length);
        let target_end: u64 = partition_point(target + 1, count, total_length);
        proof {
            lemma_cut_bounds(target as int, count as int, total);
            lemma_bin_beyond_from(s, target_start as int, source_index as int);
        }
        let len: usize = source.len();
        while source_index + 1 < len && source_start.saturating_add(
            source[source_index].length_bytes,
        ) <= target_start
            invariant
                s == source@,
                n == s.len(),
                len == n,
                source_index < n,
                source_start == laid_out(s, source_index as int),
                source_start <= target_start,
                bin_beyond(s, target_start as int, 0) == bin_beyond(
                    s,
                    target_start as int,
                    source_index as int,
                ),
            decreases n - source_index,
        {
            source_start = source_start.saturating_add(source[source_index].length_bytes);
            source_index = source_index + 1;
        }
        let ghost first = source_index as int;
        assert(bin_beyond(s, target_start as int, first) == first);
        let offset_bytes: u64 = source[source_index].offset_bytes.saturating_add(
            target_start - source_start,
        );
        let mut length: u64 = 0;
        let mut sums: [u128; 14] = [0, 0, 0, 0, 0, 0, 0, 0, 0, 0, 0, 0, 0, 0];
        let mut cursor: u64 = target_start;
        let mut index: usize = source_index;
        let mut bin_start: u64 = source_start;
        proof {
            lemma_laid_out(s, first + 1, n);
            assert forall|c: int| 0 <= c < 14 implies #[trigger] sums@[c] == weight(
                s,
                c,
                target_start as int,
                cursor as int,
                n,
            ) by {
                lemma_weight_empty(s, c, target_start as int, n);
            }
        }
        while cursor < target_end && index < source.len()
            invariant
                s == source@,
                n == s.len(),
                total == laid_out(s, n),
                index <= n,
                bin_start == laid_out(s, index as int),
                target_start <= cursor <= target_end <= total,
                bin_start <= cursor,
                index < n ==> cursor <= laid_out(s, index + 1),
                length == cursor - target_start,
                forall|c: int|
                    0 <= c < 14 ==> #[trigger] sums@[c] == weight(
                        s,
                        c,
                        target_start as int,
                        cursor as int,
                        n,
                    ),
                forall|c: int| 0 <= c < 14 ==> #[trigger] sums@[c] <= 65_535 * length,
            decreases n - index + (target_end - cursor),
        {
            let bin: MapBin = source[index];
            let bin_end: u64 = bin_start.saturating_add(bin.length_bytes);
            assert(bin_end == laid_out(s, index + 1));
            let overlap_end: u64 = target_end.min(bin_end);
            let overlap: u64 = overlap_end - cursor;
            let parts: [u16; 14] = mix_values(bin.mix);
            let ghost before = sums@;
            add_weighted(&mut sums, &parts, overlap, Ghost(length as int));
            proof {
                assert forall|c: int| 0 <= c < 14 implies #[trigger] sums@[c] == weight(
                    s,
                    c,
                    target_start as int,
                    overlap_end as int,
                    n,
                ) by {
                    lemma_weight_step(
                        s,
                        c,
                        target_start as int,
                        cursor as int,
                        overlap_end as int,
                        index as int,
                        n,
                    );
                    assert(sums@[c] == before[c] + parts@[c] * overlap);
                }
                lemma_laid_out(s, index + 1, n);
            }
            length = length + overlap;
            cursor = overlap_end;
            if cursor >= bin_end {
                bin_start = bin_end;
                index = index + 1;
                proof {
                    if index < n {
                        lemma_laid_out(s, index as int, index + 1);
                    }
                }
            }
        }
        assert(cursor == target_end);
        let parts: [u16; 14] = scaled_parts(&sums, length);
        let bin: MapBin = MapBin { offset_bytes, length_bytes: length, mix: mix_from(parts) };
        assert(bin == resampled_bin(s, count as int, target as int)) by {
            assert(parts@ =~= Seq::new(
                14,
                |c: int|
                    weighted(
                        weight(s, c, target_start as int, target_end as int, n),
                        target_end - target_start,
                    ),
            ));
        }
        result.push(bin);
        proof {
            if target + 1 < count {
                lemma_cut_bounds(target + 1, count as int, total);
                lemma_cut_bounds(target + 2, count as int, total);
                assert(index < n);
            }
        }
        if index < source.len() {
            source_index = index;
            source_start = bin_start;
        } else {
            source_index = source.len() - 1;
            source_start = total_length.saturating_sub(source[source_index].length_bytes);
        }
        target = target + 1;
        assert(result@ =~= resampled(s, count as int).take(target as int));
    }
    assert(result@ =~= resampled(s, count as int));
    result
}

/// How many cells fit along one side of the window.
pub open spec fn cells_along(side: u32) -> int {
    arith::max_int(arith::min_int(side + 2, u32::MAX as int) / 11, 1)
}

/// How many cells fit into the window.
pub open spec fn cells_in(width: u32, height: u32) -> int {
    arith::min_int(cells_along(width) * cells_along(height), u32::MAX as int)
}

/// Cell `t` of a map of which nothing is known.
pub open spec fn placeholder(capacity: int, count: int, t: int) -> MapBin {
    let start = cut(t, count, capacity);
    let end = cut(t + 1, count, capacity);
    MapBin {
        offset_bytes: start as u64,
        length_bytes: arith::max_int(end - start, 1) as u64,
        mix: CategoryMix {
            free: 0,
            contiguous_data: 0,
            fragmented_data: 0,
            unscanned_data: 10_000,
            defrag_staging: 0,
            metadata: MetadataMix {
                filesystem_headers: 0,
                journal: 0,
                allocation_tables: 0,
                file_metadata: 0,
                group_descriptors: 0,
                block_bitmaps: 0,
                file_bitmaps: 0,
                reserved: 0,
                other: 0,
            },
        },
    }
}

/// The cells that a window of the given size shows of a map. A volume that
/// was not analyzed shows placeholders for its capacity.
pub open spec fn aggregated(source: Seq<MapBin>, capacity: u64, width: u32, height: u32) -> Seq<
    MapBin,
> {
    let total = laid_out(source, source.len() as int);
    if width == 0 || height == 0 {
        Seq::empty()
    } else if source.len() == 0 {
        if capacity == 0 {
            Seq::empty()
        } else {
            let count = arith::min_int(cells_in(width, height), capacity as int);
            Seq::new(count as nat, |t: int| placeholder(capacity as int, count, t))
        }
    } else if total == 0 {
        Seq::empty()
    } else {
        let count = arith::min_int(cells_in(width, height), total);
        if count == source.len() {
            source
        } else {
            resampled(source, count)
        }
    }
}

fn cells(width: u32, height: u32) -> (count: u32)
    ensures
        count == cells_in(width, height),
        count >= 1,
{
    let columns: u32 = (width.saturating_add(2) / PITCH).max(1);
    let rows: u32 = (height.saturating_add(2) / PITCH).max(1);
    assert(1 <= columns * rows <= u32::MAX * u32::MAX) by (nonlinear_arith)
        requires
            1 <= columns <= u32::MAX,
            1 <= rows <= u32::MAX,
    ;
    let wide: u64 = columns as u64 * rows as u64;
    if wide < u32::MAX as u64 {
        wide as u32
    } else {
        u32::MAX
    }
}

/// The cells that a window of the given size shows of a map.
pub fn aggregate_map(source: &Vec<MapBin>, capacity: u64, width: u32, height: u32) -> (cells: Vec<
    MapBin,
>)
    ensures
        cells@ == aggregated(source@, capacity, width, height),
{
    if width == 0 || height == 0 {
        return Vec::new();
    }
    let available: u32 = cells(width, height);
    if source.len() == 0 {
        if capacity == 0 {
            return Vec::new();
        }
        let count: usize = (available as u64).min(capacity) as usize;
        let ghost goal = aggregated(source@, capacity, width, height);
        let mut bins: Vec<MapBin> = Vec::new();
        let mut index: usize = 0;
        while index < count
            invariant
                index <= count,
                0 < count <= capacity,
                count <= u32::MAX,
                goal == Seq::new(
                    count as nat,
                    |t: int| placeholder(capacity as int, count as int, t),
                ),
                bins@ == goal.take(index as int),
            decreases count - index,
        {
            let start: u64 = partition_point(index, count, capacity);
            let end: u64 = partition_point(index + 1, count, capacity);
            proof {
                lemma_cut_bounds(index as int, count as int, capacity as int);
            }
            let mut mix: CategoryMix = CategoryMix::default();
            mix.unscanned_data = 10_000;
            bins.push(
                MapBin {
                    offset_bytes: start,
                    length_bytes: end.saturating_sub(start).max(1),
                    mix,
                },
            );
            index = index + 1;
            assert(bins@ =~= goal.take(index as int));
        }
        assert(bins@ =~= goal);
        return bins;
    }
    let mut total_length: u64 = 0;
    let mut i: usize = 0;
    while i < source.len()
        invariant
            i <= source@.len(),
            total_length == laid_out(source@, i as int),
        decreases source@.len() - i,
    {
        total_length = total_length.saturating_add(source[i].length_bytes);
        i = i + 1;
    }
    if total_length == 0 {
        return Vec::new();
    }
    let count: usize = (available as u64).min(total_length) as usize;
    if count == source.len() {
        return views::copy_list(source);
    }
    resample_map(source, count, total_length)
}

// ---------------------------------------------------------------------
// Incremental updates
// ---------------------------------------------------------------------

/// How many bins, from `i` on, begin before `offset` without a gap in that
/// row.
pub open spec fn first_not_before(target: Seq<MapBin>, offset: u64, i: int) -> int
    decreases target.len() - i,
{
    if i >= target.len() || target[i].offset_bytes >= offset {
        i
    } else {
        first_not_before(target, offset, i + 1)
    }
}

/// A map after one bin was put in its place: in place of the bin with the
/// same offset where there is one.
pub open spec fn merged_one(target: Seq<MapBin>, bin: MapBin) -> Seq<MapBin> {
    let at = first_not_before(target, bin.offset_bytes, 0);
    if at < target.len() && target[at].offset_bytes == bin.offset_bytes {
        target.update(at, bin)
    } else {
        target.insert(at, bin)
    }
}

/// A map after an update: a full one replaces it, another replaces single
/// bins.
pub open spec fn merged(target: Seq<MapBin>, full: bool, bins: Seq<MapBin>) -> Seq<MapBin>
    decreases bins.len(),
{
    if full {
        bins
    } else if bins.len() == 0 {
        target
    } else {
        merged_one(merged(target, false, bins.drop_last()), bins.last())
    }
}

/// Applies an update to a map.
pub fn merge_map_bins(target: &mut Vec<MapBin>, full: bool, bins: Vec<MapBin>)
    ensures
        final(target)@ == merged(old(target)@, full, bins@),
{
    if full {
        *target = bins;
        return;
    }
    let ghost start = target@;
    let mut i: usize = 0;
    assert(bins@.take(0) =~= Seq::<MapBin>::empty());
    while i < bins.len()
        invariant
            i <= bins@.len(),
            target@ == merged(start, false, bins@.take(i as int)),
        decreases bins@.len() - i,
    {
        let bin: MapBin = bins[i];
        let mut at: usize = 0;
        while at < target.len() && target[at].offset_bytes < bin.offset_bytes
            invariant
                at <= target@.len(),
                first_not_before(target@, bin.offset_bytes, 0) == first_not_before(
                    target@,
                    bin.offset_bytes,
                    at as int,
                ),
            decreases target@.len() - at,
        {
            at = at + 1;
        }
        if at < target.len() && target[at].offset_bytes == bin.offset_bytes {
            target.set(at, bin);
        } else {
            target.insert(at, bin);
        }
        assert(bins@.take(i + 1).drop_last() =~= bins@.take(i as int));
        i = i + 1;
    }
    assert(bins@.take(i as int) =~= bins@);
}

// ---------------------------------------------------------------------
// Laws
// ---------------------------------------------------------------------

/// The bytes that the first `n` cells cover.
pub open spec fn cells_length(cells: Seq<MapBin>, n: int) -> int
    decreases n,
{
    if n <= 0 {
        0
    } else {
        cells_length(cells, n - 1) + cells[n - 1].length_bytes
    }
}

/// However a map is cut into cells, the cells cover as many bytes as the
/// map.
pub proof fn lemma_resampling_keeps_length(source: Seq<MapBin>, count: int)
    requires
        0 < count <= laid_out(source, source.len() as int),
    ensures
        resampled(source, count).len() == count,
        cells_length(resampled(source, count), count) == laid_out(source, source.len() as int),
{
    let total = laid_out(source, source.len() as int);
    lemma_laid_out(source, 0, source.len() as int);
    lemma_cut_bounds(count, count, total);
    lemma_cells_telescope(resampled(source, count), count, total, count);
}

/// The placeholders of a volume that was not analyzed cover its capacity.
pub proof fn lemma_placeholders_cover_capacity(capacity: u64, width: u32, height: u32)
    requires
        capacity > 0,
        width > 0,
        height > 0,
    ensures
        ({
            let cells = aggregated(Seq::empty(), capacity, width, height);
            &&& cells.len() == arith::min_int(cells_in(width, height), capacity as int)
            &&& cells_length(cells, cells.len() as int) == capacity
            &&& forall|t: int|
                0 <= t < cells.len() ==> (#[trigger] cells[t]).mix.unscanned_data == 10_000
        }),
{
    let count = arith::min_int(cells_in(width, height), capacity as int);
    let cells = aggregated(Seq::empty(), capacity, width, height);
    assert(cells_along(width) * cells_along(height) >= 1) by (nonlinear_arith)
        requires
            cells_along(width) >= 1,
            cells_along(height) >= 1,
    ;
    assert forall|t: int| 0 <= t < count implies (#[trigger] cells[t]).length_bytes == cut(
        t + 1,
        count,
        capacity as int,
    ) - cut(t, count, capacity as int) by {
        lemma_cut_bounds(t, count, capacity as int);
        lemma_cut_bounds(t + 1, count, capacity as int);
    }
    lemma_cut_bounds(count, count, capacity as int);
    lemma_cells_telescope(cells, count, capacity as int, count);
}

proof fn lemma_cells_telescope(cells: Seq<MapBin>, count: int, total: int, n: int)
    requires
        0 <= n <= count,
        0 < count <= total <= u64::MAX,
        cells.len() == count,
        forall|t: int|
            0 <= t < count ==> (#[trigger] cells[t]).length_bytes == (cut(t + 1, count, total)
                - cut(t, count, total)) as u64,
    ensures
        cells_length(cells, n) == cut(n, count, total),
    decreases n,
{
    lemma_cut_bounds(n, count, total);
    if n > 0 {
        lemma_cells_telescope(cells, count, total, n - 1);
        lemma_cut_bounds(n - 1, count, total);
        assert(cells[n - 1].length_bytes == (cut(n, count, total) - cut(n - 1, count, total)) as u64);
    }
}

/// Whether the bins of a map stand in order, no two at the same place.
pub open spec fn ascending(bins: Seq<MapBin>) -> bool {
    forall|i: int, j: int|
        0 <= i < j < bins.len() ==> (#[trigger] bins[i]).offset_bytes < (
        #[trigger] bins[j]).offset_bytes
}

proof fn lemma_first_not_before(target: Seq<MapBin>, offset: u64, i: int, at: int)
    requires
        0 <= i <= at <= target.len(),
        forall|k: int| i <= k < at ==> (#[trigger] target[k]).offset_bytes < offset,
        at < target.len() ==> target[at].offset_bytes >= offset,
    ensures
        first_not_before(target, offset, i) == at,
    decreases at - i,
{
    if i < at {
        lemma_first_not_before(target, offset, i + 1, at);
    }
}

/// A bin of the map replaces the bin in its place.
pub proof fn lemma_merge_replaces(target: Seq<MapBin>, at: int, bin: MapBin)
    requires
        0 <= at < target.len(),
        target[at].offset_bytes == bin.offset_bytes,
        forall|k: int|
            0 <= k < at ==> (#[trigger] target[k]).offset_bytes < bin.offset_bytes,
    ensures
        merged_one(target, bin) == target.update(at, bin),
{
    lemma_first_not_before(target, bin.offset_bytes, 0, at);
}

} // verus!
