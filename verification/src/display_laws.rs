//! What holds of every display of a drive map: which files a cell names, what
//! a cell shows of the bins below it, and how a map is packed.

use vstd::prelude::*;

use crate::arith;
use crate::contributors;
use crate::contributors::MapFileRange;
use crate::domain::MapBin;
use crate::map_view;
use crate::map_view::MapContributor;

verus! {

// ---------------------------------------------------------------------
// The files of a cell
// ---------------------------------------------------------------------

proof fn lemma_reaching(bins: Seq<MapBin>, x: int, i: int)
    requires
        0 <= i <= bins.len(),
    ensures
        i <= contributors::first_reaching(bins, x, i) <= bins.len(),
        forall|k: int|
            i <= k < contributors::first_reaching(bins, x, i) ==> contributors::cell_end(
                #[trigger] bins[k],
            ) <= x,
    decreases bins.len() - i,
{
    if i < bins.len() && contributors::cell_end(bins[i]) <= x {
        lemma_reaching(bins, x, i + 1);
    }
}

proof fn lemma_beyond(bins: Seq<MapBin>, end: int, i: int)
    requires
        0 <= i <= bins.len(),
    ensures
        i <= contributors::first_beyond(bins, end, i) <= bins.len(),
        contributors::first_beyond(bins, end, i) < bins.len() ==> bins[contributors::first_beyond(
            bins,
            end,
            i,
        )].offset_bytes >= end,
    decreases bins.len() - i,
{
    if i < bins.len() && bins[i].offset_bytes < end {
        lemma_beyond(bins, end, i + 1);
    }
}

/// A range of a file has in a cell the bytes that both have in common, where
/// the cells stand in order and apart.
pub proof fn lemma_ranges_reach_the_cells_they_share(
    bins: Seq<MapBin>,
    i: int,
    entry: MapFileRange,
)
    requires
        contributors::cells_apart(bins),
        0 <= i < bins.len(),
        bins[i].offset_bytes + bins[i].length_bytes <= u64::MAX,
        entry.physical.offset_bytes + entry.physical.length_bytes <= u64::MAX,
        entry.file_index <= u32::MAX,
    ensures
        ({
            let from = if entry.physical.offset_bytes > bins[i].offset_bytes {
                entry.physical.offset_bytes as int
            } else {
                bins[i].offset_bytes as int
            };
            let range_end = entry.physical.offset_bytes + entry.physical.length_bytes;
            let cell_end = bins[i].offset_bytes + bins[i].length_bytes;
            let to = if range_end < cell_end {
                range_end
            } else {
                cell_end
            };
            contributors::hit(bins, i, entry) == (if from < to {
                to - from
            } else {
                0
            })
        }),
{
    let offset = entry.physical.offset_bytes as int;
    let end = offset + entry.physical.length_bytes;
    let first = contributors::first_reaching(bins, offset, 0);
    lemma_reaching(bins, offset, 0);
    lemma_beyond(bins, end, first);
    let beyond = contributors::first_beyond(bins, end, first);
    if i < first {
        assert(contributors::cell_end(bins[i]) <= offset);
    } else if i > beyond {
        assert(bins[beyond].offset_bytes + bins[beyond].length_bytes <= bins[i].offset_bytes);
    }
}

/// The slots of a cell name the files with the most bytes in it, those with
/// more before those with fewer, and of as many the one with the lower
/// number; no file that has bytes there is left out while a slot is free, and
/// each is named with its share, at least one hundredth of a percent.
pub proof fn lemma_slots_name_the_largest_files(
    slots: Seq<MapContributor>,
    bins: Seq<MapBin>,
    index: int,
    ranges: Seq<MapFileRange>,
    file: usize,
)
    requires
        contributors::shows_ranking(slots, bins, index, ranges),
        contributors::file_bytes(bins, index, ranges, file, ranges.len() as int) > 0,
        forall|k: int| 0 <= k < ranges.len() ==> (#[trigger] ranges[k]).file_index <= u32::MAX,
        file <= u32::MAX,
    ensures
        slots.len() == 5,
        slots[0].coverage_basis_points >= 1,
        contributors::file_bytes(
            bins,
            index,
            ranges,
            slots[0].file_index as usize,
            ranges.len() as int,
        ) >= contributors::file_bytes(bins, index, ranges, file, ranges.len() as int),
        forall|j: int|
            0 <= j < 5 && (#[trigger] slots[j]).coverage_basis_points == 0 ==> exists|i: int|
                0 <= i < j && (#[trigger] slots[i]).file_index == file,
        forall|i: int, j: int|
            0 <= i < j < 5 && (#[trigger] slots[j]).coverage_basis_points > 0 ==> ({
                let a = contributors::file_bytes(
                    bins,
                    index,
                    ranges,
                    (#[trigger] slots[i]).file_index as usize,
                    ranges.len() as int,
                );
                let b = contributors::file_bytes(
                    bins,
                    index,
                    ranges,
                    slots[j].file_index as usize,
                    ranges.len() as int,
                );
                a > b || a == b && slots[i].file_index < slots[j].file_index
            }),
{
    let list = choose|list: Seq<(usize, u64)>| #[trigger]
        contributors::is_ranking(list, bins, index, ranges) && slots == contributors::slots_of(
            list,
            bins[index].length_bytes,
        );
    let n = ranges.len() as int;
    assert forall|i: int| 0 <= i < list.len() implies (#[trigger] list[i]).0 <= u32::MAX by {
        lemma_files_with_bytes(bins, index, ranges, list[i].0, n);
    }
    let at = choose|i: int| 0 <= i < list.len() && (#[trigger] list[i]).0 == file;
    assert(list[0].1 >= list[at].1) by {
        if at > 0 {
            assert(contributors::outranks(list[0], list[at]));
        }
    }
    assert forall|j: int| 0 <= j < 5 && (#[trigger] slots[j]).coverage_basis_points == 0 implies
        exists|i: int| 0 <= i < j && (#[trigger] slots[i]).file_index == file by {
        if j < list.len() {
            assert(slots[j].coverage_basis_points >= 1);
        }
        assert(slots[at].file_index == file);
    }
    assert forall|i: int, j: int|
        0 <= i < j < 5 && (#[trigger] slots[j]).coverage_basis_points > 0 implies ({
        let a = contributors::file_bytes(
            bins,
            index,
            ranges,
            (#[trigger] slots[i]).file_index as usize,
            n,
        );
        let b = contributors::file_bytes(bins, index, ranges, slots[j].file_index as usize, n);
        a > b || a == b && slots[i].file_index < slots[j].file_index
    }) by {
        assert(j < list.len());
        assert(contributors::outranks(list[i], list[j]));
        assert(slots[i].file_index as usize == list[i].0);
        assert(slots[j].file_index as usize == list[j].0);
    }
}

proof fn lemma_files_with_bytes(
    bins: Seq<MapBin>,
    index: int,
    ranges: Seq<MapFileRange>,
    file: usize,
    n: int,
)
    requires
        0 <= n <= ranges.len(),
        contributors::file_bytes(bins, index, ranges, file, n) > 0,
        forall|k: int| 0 <= k < ranges.len() ==> (#[trigger] ranges[k]).file_index <= u32::MAX,
    ensures
        file <= u32::MAX,
    decreases n,
{
    if n > 0 {
        assert(ranges[n - 1].file_index <= u32::MAX);
        if ranges[n - 1].file_index != file {
            lemma_files_with_bytes(bins, index, ranges, file, n - 1);
        }
    }
}

/// Each range of a file adds the bytes that it has in a cell to those of its
/// file there, and nothing to those of any other file.
pub proof fn lemma_ranges_add_up(
    bins: Seq<MapBin>,
    index: int,
    ranges: Seq<MapFileRange>,
    entry: MapFileRange,
    file: usize,
)
    ensures
        ({
            let n = ranges.len() as int;
            let before = contributors::file_bytes(bins, index, ranges, file, n);
            let after = contributors::file_bytes(bins, index, ranges.push(entry), file, n + 1);
            &&& entry.file_index != file ==> after == before
            &&& entry.file_index == file && before + contributors::hit(bins, index, entry)
                <= u64::MAX && before >= 0 ==> after == before + contributors::hit(
                bins,
                index,
                entry,
            )
        }),
        contributors::file_bytes(bins, index, Seq::<MapFileRange>::empty(), file, 0) == 0,
{
    lemma_prefix_bytes(bins, index, ranges, entry, file, ranges.len() as int);
}

proof fn lemma_prefix_bytes(
    bins: Seq<MapBin>,
    index: int,
    ranges: Seq<MapFileRange>,
    entry: MapFileRange,
    file: usize,
    n: int,
)
    requires
        0 <= n <= ranges.len(),
    ensures
        contributors::file_bytes(bins, index, ranges.push(entry), file, n)
            == contributors::file_bytes(bins, index, ranges, file, n),
    decreases n,
{
    if n > 0 {
        lemma_prefix_bytes(bins, index, ranges, entry, file, n - 1);
    }
}

// ---------------------------------------------------------------------
// The cells of a window
// ---------------------------------------------------------------------

/// Shares are rounded to the nearest hundredth of a percent.
pub proof fn lemma_shares_are_rounded(value: int, length: int)
    requires
        length > 0,
        value >= 0,
    ensures
        ({
            let share = map_view::weighted(value, length);
            &&& share < 65_535 ==> share * length <= value + length / 2 && value + length / 2 < (share
                + 1) * length
            &&& share == 65_535 ==> value + length / 2 >= 65_535 * length
        }),
{
    let whole = value + length / 2;
    let q = whole / length;
    vstd::arithmetic::div_mod::lemma_fundamental_div_mod(whole, length);
    assert(length * q == q * length) by (nonlinear_arith);
    assert((q + 1) * length == q * length + length) by (nonlinear_arith);
    assert(q >= 0) by {
        vstd::arithmetic::div_mod::lemma_div_pos_is_pos(whole, length);
    }
    if q >= 65_535 {
        assert(q * length >= 65_535 * length) by (nonlinear_arith)
            requires
                q >= 65_535,
                length > 0,
        ;
    }
}

proof fn lemma_even_weight(source: Seq<MapBin>, c: int, lo: int, hi: int, n: int, m: u16)
    requires
        0 <= n <= source.len(),
        0 <= lo <= hi,
        forall|k: int|
            0 <= k < source.len() && map_view::common(
                lo,
                hi,
                #[trigger] map_view::laid_out(source, k),
                map_view::laid_out(source, k + 1),
            ) > 0 ==> map_view::mix_seq(source[k].mix)[c] == m,
    ensures
        map_view::weight(source, c, lo, hi, n) == m * map_view::common(
            lo,
            hi,
            0,
            map_view::laid_out(source, n),
        ),
    decreases n,
{
    if n > 0 {
        lemma_even_weight(source, c, lo, hi, n - 1, m);
        map_view::lemma_laid_out(source, n - 1, n);
        let a = map_view::laid_out(source, n - 1);
        let b = map_view::laid_out(source, n);
        let part = map_view::common(lo, hi, a, b);
        let before = map_view::common(lo, hi, 0, a);
        assert(map_view::common(lo, hi, 0, b) == before + part);
        let own = map_view::mix_seq(source[n - 1].mix)[c];
        assert(own * part == m * part) by (nonlinear_arith)
            requires
                part > 0 ==> own == m,
                part >= 0,
        ;
        assert(m * before + m * part == m * (before + part)) by (nonlinear_arith);
    } else {
        assert(m * 0 == 0) by (nonlinear_arith);
    }
}

/// A cell of a resampled map shows what the bins show that it is made of:
/// where all of those have the same share of something, so has the cell.
pub proof fn lemma_cells_show_their_bins(source: Seq<MapBin>, count: int, t: int, c: int, m: u16)
    requires
        0 <= t < count,
        0 <= c < 14,
        ({
            let total = map_view::laid_out(source, source.len() as int);
            let lo = map_view::cut(t, count, total);
            let hi = map_view::cut(t + 1, count, total);
            &&& lo < hi
            &&& forall|k: int|
                0 <= k < source.len() && map_view::common(
                    lo,
                    hi,
                    #[trigger] map_view::laid_out(source, k),
                    map_view::laid_out(source, k + 1),
                ) > 0 ==> map_view::mix_seq(source[k].mix)[c] == m
        }),
    ensures
        map_view::mix_seq(map_view::resampled(source, count)[t].mix)[c] == m,
        map_view::resampled(source, count).len() == count,
{
    let n = source.len() as int;
    let total = map_view::laid_out(source, n);
    let lo = map_view::cut(t, count, total);
    let hi = map_view::cut(t + 1, count, total);
    map_view::lemma_laid_out(source, 0, n);
    map_view::lemma_cut_bounds(t, count, total);
    map_view::lemma_cut_bounds(t + 1, count, total);
    lemma_even_weight(source, c, lo, hi, n, m);
    assert(map_view::common(lo, hi, 0, total) == hi - lo);
    let length = hi - lo;
    let whole = m * length + length / 2;
    vstd::arithmetic::div_mod::lemma_fundamental_div_mod_converse(
        whole,
        length,
        m as int,
        length / 2,
    );
    let parts = Seq::new(
        14,
        |x: int| map_view::weighted(map_view::weight(source, x, lo, hi, n), hi - lo),
    );
    assert(parts[c] == m);
    assert(map_view::mix_seq(map_view::mix_of(parts)) =~= parts);
}

/// The cells of a window stand eleven points apart, with two points between
/// them: a side has as many as fit, and one in any case.
pub proof fn lemma_cells_fill_the_window(side: u32)
    requires
        side <= u32::MAX - 2,
    ensures
        ({
            let n = map_view::cells_along(side);
            &&& n >= 1
            &&& n > 1 ==> n * 11 - 2 <= side
            &&& (n + 1) * 11 - 2 > side
        }),
{
}

/// A window shows no more cells than fit into it, and no more than the map has
/// bytes. A map that has as many bins is shown as it is; a volume that was
/// not analyzed shows nothing but unscanned data.
pub proof fn lemma_window_shows_the_map(
    source: Seq<MapBin>,
    capacity: u64,
    width: u32,
    height: u32,
    t: int,
)
    requires
        width > 0,
        height > 0,
    ensures
        ({
            let shown = map_view::aggregated(source, capacity, width, height);
            let cells = map_view::cells_along(width) * map_view::cells_along(height);
            let total = map_view::laid_out(source, source.len() as int);
            &&& cells <= u32::MAX ==> shown.len() <= cells
            &&& source.len() > 0 && total >= cells && cells <= u32::MAX ==> shown.len() == cells
            &&& source.len() == 0 && capacity >= cells && cells <= u32::MAX ==> shown.len() == cells
            &&& source.len() == 0 && capacity == 0 ==> shown.len() == 0
            &&& source.len() > 0 && source.len() == cells && total >= cells && cells <= u32::MAX
                ==> shown == source
            &&& source.len() == 0 && 0 <= t < shown.len() ==> shown[t].mix.unscanned_data == 10_000
                && shown[t].mix.free == 0 && shown[t].mix.fragmented_data == 0
                && shown[t].mix.contiguous_data == 0
        }),
{
    let a = map_view::cells_along(width);
    let b = map_view::cells_along(height);
    assert(a * b >= 1) by (nonlinear_arith)
        requires
            a >= 1,
            b >= 1,
    ;
    map_view::lemma_laid_out(source, 0, source.len() as int);
}

// ---------------------------------------------------------------------
// Packed maps
// ---------------------------------------------------------------------

/// The number of `width` bytes that stands at a place.
pub open spec fn number_at(bytes: Seq<u8>, at: int, width: int) -> nat {
    arith::le_value(bytes.subrange(at, at + width))
}

proof fn lemma_number(bytes: Seq<u8>, at: int, value: nat, width: nat)
    requires
        0 <= at,
        at + width <= bytes.len(),
        bytes.subrange(at, at + width) == arith::le_bytes(value, width),
        width == 2 && value <= u16::MAX || width == 4 && value <= u32::MAX || width == 8 && value
            <= u64::MAX,
    ensures
        number_at(bytes, at, width as int) == value,
{
    arith::lemma_le_round_trip(value, width);
    reveal_with_fuel(vstd::arithmetic::power::pow, 9);
    assert(256 * (256 * 1int) == 0x1_0000) by (nonlinear_arith);
    assert(256 * (256 * (256 * (256 * 1int))) == 0x1_0000_0000) by (nonlinear_arith);
    assert(256 * (256 * (256 * (256 * 0x1_0000_0000int))) == 0x1_0000_0000_0000_0000)
        by (nonlinear_arith);
    vstd::arithmetic::div_mod::lemma_small_mod(
        value,
        vstd::arithmetic::power::pow(256, width) as nat,
    );
}

proof fn lemma_parts_are_packed(parts: Seq<u16>, k: int)
    requires
        0 <= k < parts.len(),
    ensures
        map_view::parts_bytes(parts).len() == 2 * parts.len(),
        map_view::parts_bytes(parts).subrange(2 * k, 2 * k + 2) == arith::le_bytes(
            parts[k] as nat,
            2,
        ),
    decreases parts.len(),
{
    let rest = parts.drop_last();
    arith::lemma_le_bytes_len(parts.last() as nat, 2);
    if rest.len() > 0 {
        lemma_parts_are_packed(rest, if k < rest.len() { k } else { 0 });
    } else {
        assert(map_view::parts_bytes(rest).len() == 0);
    }
    let all = map_view::parts_bytes(parts);
    if k < rest.len() {
        assert(rest[k] == parts[k]);
        assert(all.subrange(2 * k, 2 * k + 2) =~= map_view::parts_bytes(rest).subrange(
            2 * k,
            2 * k + 2,
        ));
    } else {
        assert(all.subrange(2 * k, 2 * k + 2) =~= arith::le_bytes(parts.last() as nat, 2));
    }
}

proof fn lemma_slots_are_packed(slots: Seq<MapContributor>, k: int)
    requires
        0 <= k < slots.len(),
    ensures
        map_view::contributors_bytes(slots).len() == 6 * slots.len(),
        map_view::contributors_bytes(slots).subrange(6 * k, 6 * k + 4) == arith::le_bytes(
            slots[k].file_index as nat,
            4,
        ),
        map_view::contributors_bytes(slots).subrange(6 * k + 4, 6 * k + 6) == arith::le_bytes(
            slots[k].coverage_basis_points as nat,
            2,
        ),
    decreases slots.len(),
{
    let rest = slots.drop_last();
    let last = slots.last();
    arith::lemma_le_bytes_len(last.file_index as nat, 4);
    arith::lemma_le_bytes_len(last.coverage_basis_points as nat, 2);
    if rest.len() > 0 {
        lemma_slots_are_packed(rest, if k < rest.len() { k } else { 0 });
    } else {
        assert(map_view::contributors_bytes(rest).len() == 0);
    }
    let all = map_view::contributors_bytes(slots);
    let before = map_view::contributors_bytes(rest);
    if k < rest.len() {
        assert(rest[k] == slots[k]);
        assert(all.subrange(6 * k, 6 * k + 4) =~= before.subrange(6 * k, 6 * k + 4));
        assert(all.subrange(6 * k + 4, 6 * k + 6) =~= before.subrange(6 * k + 4, 6 * k + 6));
    } else {
        assert(all.subrange(6 * k, 6 * k + 4) =~= arith::le_bytes(last.file_index as nat, 4));
        assert(all.subrange(6 * k + 4, 6 * k + 6) =~= arith::le_bytes(
            last.coverage_basis_points as nat,
            2,
        ));
    }
}

/// The record of a bin holds its place and length, its fourteen shares, and
/// the files of its slots, each where a reader looks for it.
pub proof fn lemma_records_hold_their_bin(bin: MapBin, slots: Seq<MapContributor>, j: int)
    requires
        slots.len() == 5,
        0 <= j < 5,
    ensures
        ({
            let record = map_view::record_bytes(bin, slots);
            &&& record.len() == 74
            &&& number_at(record, 0, 8) == bin.offset_bytes
            &&& number_at(record, 8, 8) == bin.length_bytes
            &&& number_at(record, 16, 2) == bin.mix.free
            &&& number_at(record, 18, 2) == bin.mix.contiguous_data
            &&& number_at(record, 20, 2) == bin.mix.fragmented_data
            &&& number_at(record, 22, 2) == bin.mix.unscanned_data
            &&& number_at(record, 24, 2) == bin.mix.defrag_staging
            &&& number_at(record, 26, 2) == bin.mix.metadata.filesystem_headers
            &&& number_at(record, 28, 2) == bin.mix.metadata.journal
            &&& number_at(record, 30, 2) == bin.mix.metadata.allocation_tables
            &&& number_at(record, 32, 2) == bin.mix.metadata.file_metadata
            &&& number_at(record, 34, 2) == bin.mix.metadata.group_descriptors
            &&& number_at(record, 36, 2) == bin.mix.metadata.block_bitmaps
            &&& number_at(record, 38, 2) == bin.mix.metadata.file_bitmaps
            &&& number_at(record, 40, 2) == bin.mix.metadata.reserved
            &&& number_at(record, 42, 2) == bin.mix.metadata.other
            &&& number_at(record, 44 + 6 * j, 4) == slots[j].file_index
            &&& number_at(record, 48 + 6 * j, 2) == slots[j].coverage_basis_points
        }),
{
    let record = map_view::record_bytes(bin, slots);
    let parts = map_view::mix_seq(bin.mix);
    let packed = map_view::parts_bytes(parts);
    let names = map_view::contributors_bytes(slots);
    arith::lemma_le_bytes_len(bin.offset_bytes as nat, 8);
    arith::lemma_le_bytes_len(bin.length_bytes as nat, 8);
    lemma_slots_are_packed(slots, j);
    lemma_parts_are_packed(parts, 0);
    assert(record.subrange(0, 8) =~= arith::le_bytes(bin.offset_bytes as nat, 8));
    assert(record.subrange(8, 16) =~= arith::le_bytes(bin.length_bytes as nat, 8));
    lemma_number(record, 0, bin.offset_bytes as nat, 8);
    lemma_number(record, 8, bin.length_bytes as nat, 8);
    assert forall|k: int| 0 <= k < 14 implies #[trigger] number_at(record, 16 + 2 * k, 2)
        == parts[k] by {
        lemma_parts_are_packed(parts, k);
        assert(record.subrange(16 + 2 * k, 18 + 2 * k) =~= packed.subrange(2 * k, 2 * k + 2));
        lemma_number(record, 16 + 2 * k, parts[k] as nat, 2);
    }
    assert(number_at(record, 16 + 2 * 0int, 2) == parts[0]);
    assert(number_at(record, 16 + 2 * 1int, 2) == parts[1]);
    assert(number_at(record, 16 + 2 * 2int, 2) == parts[2]);
    assert(number_at(record, 16 + 2 * 3int, 2) == parts[3]);
    assert(number_at(record, 16 + 2 * 4int, 2) == parts[4]);
    assert(number_at(record, 16 + 2 * 5int, 2) == parts[5]);
    assert(number_at(record, 16 + 2 * 6int, 2) == parts[6]);
    assert(number_at(record, 16 + 2 * 7int, 2) == parts[7]);
    assert(number_at(record, 16 + 2 * 8int, 2) == parts[8]);
    assert(number_at(record, 16 + 2 * 9int, 2) == parts[9]);
    assert(number_at(record, 16 + 2 * 10int, 2) == parts[10]);
    assert(number_at(record, 16 + 2 * 11int, 2) == parts[11]);
    assert(number_at(record, 16 + 2 * 12int, 2) == parts[12]);
    assert(number_at(record, 16 + 2 * 13int, 2) == parts[13]);
    assert(record.subrange(44 + 6 * j, 48 + 6 * j) =~= names.subrange(6 * j, 6 * j + 4));
    assert(record.subrange(48 + 6 * j, 50 + 6 * j) =~= names.subrange(6 * j + 4, 6 * j + 6));
    lemma_number(record, 44 + 6 * j, slots[j].file_index as nat, 4);
    lemma_number(record, 48 + 6 * j, slots[j].coverage_basis_points as nat, 2);
}

} // verus!
