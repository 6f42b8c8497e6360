//! Which files occupy each cell of the drive map, and how much of it.

use vstd::prelude::*;

use crate::arith;
use crate::domain::{MapBin, PhysicalRange};
use crate::map_view;
use crate::map_view::MapContributor;
use crate::sort;
use crate::sort::PairKey;

verus! {

/// A physical range and the number of the file that it belongs to.
#[derive(Clone, Copy, Debug, PartialEq, Eq, Structural)]
pub struct MapFileRange {
    pub file_index: usize,
    pub physical: PhysicalRange,
}

/// Where a cell ends.
pub open spec fn cell_end(bin: MapBin) -> int {
    arith::sat64(bin.offset_bytes + bin.length_bytes)
}

/// The first cell, from `i` on, that ends behind `x`.
pub open spec fn first_reaching(bins: Seq<MapBin>, x: int, i: int) -> int
    decreases bins.len() - i,
{
    if i >= bins.len() || cell_end(bins[i]) > x {
        i
    } else {
        first_reaching(bins, x, i + 1)
    }
}

/// The first cell, from `i` on, that does not begin before `end`.
pub open spec fn first_beyond(bins: Seq<MapBin>, end: int, i: int) -> int
    decreases bins.len() - i,
{
    if i >= bins.len() || bins[i].offset_bytes >= end {
        i
    } else {
        first_beyond(bins, end, i + 1)
    }
}

/// How many bytes of a file range fall into a cell. The cells are searched
/// from the first that ends behind the range's start to the first that does
/// not begin before its end.
pub open spec fn hit(bins: Seq<MapBin>, index: int, entry: MapFileRange) -> int {
    let range = entry.physical;
    let range_end = arith::sat64(range.offset_bytes + range.length_bytes);
    let first = first_reaching(bins, range.offset_bytes as int, 0);
    if entry.file_index > u32::MAX || range.length_bytes == 0 {
        0
    } else if first <= index < first_beyond(bins, range_end, first) {
        arith::sat64(
            arith::min_int(range_end, cell_end(bins[index])) - arith::max_int(
                range.offset_bytes as int,
                bins[index].offset_bytes as int,
            ),
        )
    } else {
        0
    }
}

/// How many bytes of file `file` the first `n` ranges put into a cell.
pub open spec fn file_bytes(
    bins: Seq<MapBin>,
    index: int,
    ranges: Seq<MapFileRange>,
    file: usize,
    n: int,
) -> int
    decreases n,
{
    if n <= 0 {
        0
    } else {
        let before = file_bytes(bins, index, ranges, file, n - 1);
        if ranges[n - 1].file_index == file {
            arith::sat64(before + hit(bins, index, ranges[n - 1]))
        } else {
            before
        }
    }
}

/// Whether one contributor of a cell ranks before another: it has more
/// bytes, or as many and a lower number.
pub open spec fn outranks(a: (usize, u64), b: (usize, u64)) -> bool {
    a.1 > b.1 || (a.1 == b.1 && a.0 < b.0)
}

/// Whether a list names every file that has bytes in a cell, with those
/// bytes and in order of rank. There is only one such list.
pub open spec fn is_ranking(
    list: Seq<(usize, u64)>,
    bins: Seq<MapBin>,
    index: int,
    ranges: Seq<MapFileRange>,
) -> bool {
    &&& forall|i: int, j: int|
        0 <= i < j < list.len() ==> outranks(#[trigger] list[i], #[trigger] list[j])
    &&& forall|i: int|
        0 <= i < list.len() ==> (#[trigger] list[i]).1 > 0 && list[i].1 == file_bytes(
            bins,
            index,
            ranges,
            list[i].0,
            ranges.len() as int,
        )
    &&& forall|file: usize|
        #[trigger] file_bytes(bins, index, ranges, file, ranges.len() as int) > 0 ==> exists|i: int|
            0 <= i < list.len() && (#[trigger] list[i]).0 == file
}

/// The slots of a cell: its five highest-ranking files, with the share of
/// the cell that each has. A file with any bytes shows at least one basis
/// point.
pub open spec fn slots_of(list: Seq<(usize, u64)>, length: u64) -> Seq<MapContributor> {
    Seq::new(
        5,
        |j: int|
            if j < list.len() {
                MapContributor {
                    file_index: list[j].0 as u32,
                    coverage_basis_points: arith::max_int(
                        map_view::weighted(list[j].1 * 10_000, length as int) as int,
                        1,
                    ) as u16,
                }
            } else {
                map_view::no_contributor()
            },
    )
}

/// Whether slots hold the ranking of a cell.
pub open spec fn shows_ranking(
    slots: Seq<MapContributor>,
    bins: Seq<MapBin>,
    index: int,
    ranges: Seq<MapFileRange>,
) -> bool {
    exists|list: Seq<(usize, u64)>| #[trigger]
        is_ranking(list, bins, index, ranges) && slots == slots_of(list, bins[index].length_bytes)
}

/// A cell has only one ranking.
pub proof fn lemma_ranking_unique(
    first: Seq<(usize, u64)>,
    second: Seq<(usize, u64)>,
    bins: Seq<MapBin>,
    index: int,
    ranges: Seq<MapFileRange>,
)
    requires
        is_ranking(first, bins, index, ranges),
        is_ranking(second, bins, index, ranges),
    ensures
        first == second,
{
    lemma_ranking_prefix(first, second, bins, index, ranges, first.len() as int);
    lemma_ranking_prefix(second, first, bins, index, ranges, second.len() as int);
    assert(first =~= second);
}

proof fn lemma_ranking_prefix(
    first: Seq<(usize, u64)>,
    second: Seq<(usize, u64)>,
    bins: Seq<MapBin>,
    index: int,
    ranges: Seq<MapFileRange>,
    n: int,
)
    requires
        is_ranking(first, bins, index, ranges),
        is_ranking(second, bins, index, ranges),
        0 <= n <= first.len(),
    ensures
        n <= second.len(),
        forall|i: int| 0 <= i < n ==> first[i] == second[i],
    decreases n,
{
    if n > 0 {
        lemma_ranking_prefix(first, second, bins, index, ranges, n - 1);
        let a = first[n - 1];
        let p = lemma_ranked_in(second, bins, index, ranges, a);
        if p < n - 1 {
            assert(first[p] == second[p]);
            assert(outranks(first[p], first[n - 1]));
        } else if p > n - 1 {
            let b = second[n - 1];
            let q = lemma_ranked_in(first, bins, index, ranges, b);
            assert(outranks(second[n - 1], second[p]));
            if q < n - 1 {
                assert(first[q] == second[q]);
                assert(outranks(second[q], second[n - 1]));
            } else if q > n - 1 {
                assert(outranks(first[n - 1], first[q]));
            }
        }
    }
}

/// Where a ranking names a contributor.
proof fn lemma_ranked_in(
    list: Seq<(usize, u64)>,
    bins: Seq<MapBin>,
    index: int,
    ranges: Seq<MapFileRange>,
    entry: (usize, u64),
) -> (at: int)
    requires
        is_ranking(list, bins, index, ranges),
        entry.1 > 0,
        entry.1 == file_bytes(bins, index, ranges, entry.0, ranges.len() as int),
    ensures
        0 <= at < list.len(),
        list[at] == entry,
{
    assert(file_bytes(bins, index, ranges, entry.0, ranges.len() as int) > 0);
    let at = choose|i: int| 0 <= i < list.len() && (#[trigger] list[i]).0 == entry.0;
    at
}

// ---------------------------------------------------------------------
// Sums per file
// ---------------------------------------------------------------------

/// The bytes that a list of sums has for a file.
pub open spec fn listed(sums: Seq<(usize, u64)>, file: usize) -> int
    decreases sums.len(),
{
    if sums.len() == 0 {
        0
    } else if sums.last().0 == file {
        sums.last().1 as int
    } else {
        listed(sums.drop_last(), file)
    }
}

/// Whether a list of sums names each file once, in order.
pub open spec fn by_file(sums: Seq<(usize, u64)>) -> bool {
    forall|i: int, j: int|
        0 <= i < j < sums.len() ==> (#[trigger] sums[i]).0 < (#[trigger] sums[j]).0
}

proof fn lemma_listed(sums: Seq<(usize, u64)>, file: usize)
    requires
        by_file(sums),
    ensures
        forall|i: int|
            0 <= i < sums.len() && (#[trigger] sums[i]).0 == file ==> listed(sums, file)
                == sums[i].1,
        (forall|i: int| 0 <= i < sums.len() ==> (#[trigger] sums[i]).0 != file) ==> listed(
            sums,
            file,
        ) == 0,
    decreases sums.len(),
{
    if sums.len() > 0 {
        lemma_listed(sums.drop_last(), file);
        assert forall|i: int| 0 <= i < sums.len() && (#[trigger] sums[i]).0 == file implies listed(
            sums,
            file,
        ) == sums[i].1 by {
            if i < sums.len() - 1 {
                assert(sums.drop_last()[i] == sums[i]);
            }
        }
        if forall|i: int| 0 <= i < sums.len() ==> (#[trigger] sums[i]).0 != file {
            assert(sums[sums.len() - 1].0 != file);
            assert forall|i: int| 0 <= i < sums.len() - 1 implies (
            #[trigger] sums.drop_last()[i]).0 != file by {
                assert(sums[i].0 != file);
            }
        }
    }
}

/// Adds bytes to the sum of a file.
fn add_bytes(sums: &mut Vec<(usize, u64)>, file: usize, bytes: u64)
    requires
        by_file(old(sums)@),
        forall|i: int| 0 <= i < old(sums)@.len() ==> (#[trigger] old(sums)@[i]).1 > 0,
        forall|i: int| 0 <= i < old(sums)@.len() ==> (#[trigger] old(sums)@[i]).0 <= u32::MAX,
        file <= u32::MAX,
        bytes > 0,
    ensures
        by_file(final(sums)@),
        forall|i: int| 0 <= i < final(sums)@.len() ==> (#[trigger] final(sums)@[i]).1 > 0,
        forall|i: int| 0 <= i < final(sums)@.len() ==> (#[trigger] final(sums)@[i]).0 <= u32::MAX,
        forall|f: usize|
            #[trigger] listed(final(sums)@, f) == if f == file {
                arith::sat64(listed(old(sums)@, f) + bytes)
            } else {
                listed(old(sums)@, f)
            },
{
    let ghost before = sums@;
    let mut at: usize = sums.len();
    while at > 0 && sums[at - 1].0 > file
        invariant
            at <= sums@.len(),
            sums@ == before,
            forall|i: int| at <= i < sums@.len() ==> (#[trigger] sums@[i]).0 > file,
        decreases at,
    {
        at = at - 1;
    }
    if at > 0 && sums[at - 1].0 == file {
        let total: u64 = sums[at - 1].1.saturating_add(bytes);
        sums.set(at - 1, (file, total));
        proof {
            let after = sums@;
            assert(by_file(after));
            assert forall|f: usize|
                #[trigger] listed(after, f) == if f == file {
                    arith::sat64(listed(before, f) + bytes)
                } else {
                    listed(before, f)
                } by {
                lemma_listed(before, f);
                lemma_listed(after, f);
                if f == file {
                    assert(before[at - 1].0 == file);
                    assert(after[at - 1].0 == file);
                } else {
                    lemma_same_elsewhere(before, after, f);
                }
            }
        }
    } else {
        sums.insert(at, (file, bytes));
        proof {
            let after = sums@;
            assert(after =~= before.insert(at as int, (file, bytes)));
            if at > 0 {
                assert(before[at - 1].0 < file);
            }
            assert forall|i: int| 0 <= i < at implies (#[trigger] before[i]).0 < file by {
                if i < at - 1 {
                    assert(before[i].0 < before[at - 1].0);
                }
            }
            assert(by_file(after)) by {
                assert forall|i: int, j: int| 0 <= i < j < after.len() implies (
                #[trigger] after[i]).0 < (#[trigger] after[j]).0 by {
                    let a = if i < at {
                        i
                    } else {
                        i - 1
                    };
                    let b = if j < at {
                        j
                    } else {
                        j - 1
                    };
                    if i != at && j != at {
                        assert(before[a].0 < before[b].0);
                    } else if i == at {
                        assert(before[b].0 > file);
                    } else {
                        assert(before[a].0 < file);
                    }
                }
            }
            assert forall|i: int| 0 <= i < after.len() implies (#[trigger] after[i]).1 > 0
                && after[i].0 <= u32::MAX by {
                if i < at {
                    assert(after[i] == before[i]);
                } else if i > at {
                    assert(after[i] == before[i - 1]);
                }
            }
            assert forall|f: usize|
                #[trigger] listed(after, f) == if f == file {
                    arith::sat64(listed(before, f) + bytes)
                } else {
                    listed(before, f)
                } by {
                lemma_listed(before, f);
                lemma_listed(after, f);
                if f == file {
                    assert forall|i: int| 0 <= i < before.len() implies (
                    #[trigger] before[i]).0 != file by {
                        if i >= at {
                            assert(before[i].0 > file);
                        }
                    }
                    assert(after[at as int].0 == file);
                } else {
                    lemma_inserted_elsewhere(before, at as int, (file, bytes), f);
                }
            }
        }
    }
}

proof fn lemma_same_elsewhere(before: Seq<(usize, u64)>, after: Seq<(usize, u64)>, file: usize)
    requires
        by_file(before),
        by_file(after),
        before.len() == after.len(),
        forall|i: int| 0 <= i < before.len() ==> (#[trigger] before[i]).0 == after[i].0,
        forall|i: int|
            0 <= i < before.len() && (#[trigger] before[i]).0 == file ==> before[i] == after[i],
    ensures
        listed(before, file) == listed(after, file),
{
    lemma_listed(before, file);
    lemma_listed(after, file);
    if exists|i: int| 0 <= i < before.len() && (#[trigger] before[i]).0 == file {
        let i = choose|i: int| 0 <= i < before.len() && (#[trigger] before[i]).0 == file;
        assert(after[i].0 == file);
    } else {
        assert forall|i: int| 0 <= i < after.len() implies (#[trigger] after[i]).0 != file by {
            assert(before[i].0 != file);
        }
    }
}

proof fn lemma_inserted_elsewhere(
    before: Seq<(usize, u64)>,
    at: int,
    entry: (usize, u64),
    file: usize,
)
    requires
        0 <= at <= before.len(),
        by_file(before),
        by_file(before.insert(at, entry)),
        entry.0 != file,
    ensures
        listed(before, file) == listed(before.insert(at, entry), file),
{
    let after = before.insert(at, entry);
    lemma_listed(before, file);
    lemma_listed(after, file);
    if exists|i: int| 0 <= i < before.len() && (#[trigger] before[i]).0 == file {
        let i = choose|i: int| 0 <= i < before.len() && (#[trigger] before[i]).0 == file;
        let j = if i < at {
            i
        } else {
            i + 1
        };
        assert(after[j] == before[i]);
    } else {
        assert forall|j: int| 0 <= j < after.len() implies (#[trigger] after[j]).0 != file by {
            if j < at {
                assert(after[j] == before[j]);
            } else if j > at {
                assert(after[j] == before[j - 1]);
            }
        }
    }
}

// ---------------------------------------------------------------------
// Searching
// ---------------------------------------------------------------------

/// Whether the cells end in order, so that they can be bisected.
pub open spec fn ends_ascend(bins: Seq<MapBin>) -> bool {
    forall|i: int, j: int|
        0 <= i < j < bins.len() ==> cell_end(#[trigger] bins[i]) <= cell_end(#[trigger] bins[j])
}

/// Tells whether the cells end in order.
fn ends_in_order(bins: &Vec<MapBin>) -> (yes: bool)
    ensures
        yes == ends_ascend(bins@),
{
    let mut i: usize = 1;
    while i < bins.len()
        invariant
            1 <= i,
            i <= bins@.len() || bins@.len() == 0,
            forall|a: int, b: int|
                0 <= a < b < i && b < bins@.len() ==> cell_end(#[trigger] bins@[a]) <= cell_end(
                    #[trigger] bins@[b],
                ),
        decreases bins@.len() - i,
    {
        let previous: u64 = bins[i - 1].offset_bytes.saturating_add(bins[i - 1].length_bytes);
        let current: u64 = bins[i].offset_bytes.saturating_add(bins[i].length_bytes);
        assert(previous == cell_end(bins@[i - 1]) && current == cell_end(bins@[i as int]));
        if previous > current {
            return false;
        }
        i = i + 1;
    }
    true
}

proof fn lemma_first_reaching(bins: Seq<MapBin>, x: int, i: int, at: int)
    requires
        0 <= i <= at <= bins.len(),
        forall|k: int| i <= k < at ==> cell_end(#[trigger] bins[k]) <= x,
        at < bins.len() ==> cell_end(bins[at]) > x,
    ensures
        first_reaching(bins, x, i) == at,
    decreases at - i,
{
    if i < at {
        assert(cell_end(bins[i]) <= x);
        lemma_first_reaching(bins, x, i + 1, at);
    }
}

/// Finds the first cell that ends behind `x`; bisects where the cells end in
/// order.
fn find_reaching(bins: &Vec<MapBin>, x: u64, in_order: bool) -> (at: usize)
    requires
        in_order ==> ends_ascend(bins@),
    ensures
        at <= bins@.len(),
        at == first_reaching(bins@, x as int, 0),
{
    if in_order {
        let mut low: usize = 0;
        let mut high: usize = bins.len();
        while low < high
            invariant
                low <= high <= bins@.len(),
                ends_ascend(bins@),
                forall|k: int| 0 <= k < low ==> cell_end(#[trigger] bins@[k]) <= x,
                forall|k: int| high <= k < bins@.len() ==> cell_end(#[trigger] bins@[k]) > x,
            decreases high - low,
        {
            let middle: usize = low + (high - low) / 2;
            let end: u64 = bins[middle].offset_bytes.saturating_add(bins[middle].length_bytes);
            assert(end == cell_end(bins@[middle as int]));
            if end <= x {
                low = middle + 1;
            } else {
                high = middle;
            }
        }
        proof {
            lemma_first_reaching(bins@, x as int, 0, low as int);
        }
        return low;
    }
    let mut at: usize = 0;
    while at < bins.len() && bins[at].offset_bytes.saturating_add(bins[at].length_bytes) <= x
        invariant
            at <= bins@.len(),
            first_reaching(bins@, x as int, 0) == first_reaching(bins@, x as int, at as int),
        decreases bins@.len() - at,
    {
        at = at + 1;
    }
    at
}

proof fn lemma_first_beyond(bins: Seq<MapBin>, end: int, i: int, at: int)
    requires
        0 <= i <= at < bins.len(),
        forall|k: int| i <= k <= at ==> (#[trigger] bins[k]).offset_bytes < end,
    ensures
        first_beyond(bins, end, i) > at,
    decreases at - i,
{
    if i < at {
        lemma_first_beyond(bins, end, i + 1, at);
    } else {
        lemma_first_beyond_grows(bins, end, i + 1);
    }
}

proof fn lemma_first_beyond_grows(bins: Seq<MapBin>, end: int, i: int)
    ensures
        first_beyond(bins, end, i) >= i,
    decreases bins.len() - i,
{
    if i < bins.len() && bins[i].offset_bytes < end {
        lemma_first_beyond_grows(bins, end, i + 1);
    }
}

proof fn lemma_beyond_from(bins: Seq<MapBin>, end: int, i: int, at: int)
    requires
        0 <= i <= at <= bins.len(),
        forall|k: int| i <= k < at ==> (#[trigger] bins[k]).offset_bytes < end,
        at == bins.len() || bins[at].offset_bytes >= end,
    ensures
        first_beyond(bins, end, i) == at,
    decreases at - i,
{
    if i < at {
        lemma_beyond_from(bins, end, i + 1, at);
    }
}

// ---------------------------------------------------------------------
// Ranking
// ---------------------------------------------------------------------

/// Ranks the sums of a cell and fills its slots.
fn fill_slots(sums: Vec<(usize, u64)>, length: u64) -> (result: ([MapContributor; 5], Ghost<
    Seq<(usize, u64)>,
>))
    requires
        by_file(sums@),
        forall|i: int| 0 <= i < sums@.len() ==> (#[trigger] sums@[i]).0 <= u32::MAX,
    ensures
        result.0@ == slots_of(result.1@, length),
        forall|i: int, j: int|
            0 <= i < j < result.1@.len() ==> outranks(
                #[trigger] result.1@[i],
                #[trigger] result.1@[j],
            ),
        forall|i: int| 0 <= i < result.1@.len() ==> sums@.contains(#[trigger] result.1@[i]),
        forall|i: int| 0 <= i < sums@.len() ==> result.1@.contains(#[trigger] sums@[i]),
{
    let ghost all = sums@;
    let mut keys: Vec<PairKey> = Vec::new();
    let mut i: usize = 0;
    while i < sums.len()
        invariant
            i <= sums@.len(),
            sums@ == all,
            keys@.len() == i,
            forall|k: int|
                0 <= k < i ==> #[trigger] keys@[k] == (PairKey {
                    first: (u64::MAX - all[k].1) as u64,
                    second: all[k].0 as u64,
                }),
        decreases sums@.len() - i,
    {
        keys.push(PairKey { first: u64::MAX - sums[i].1, second: sums[i].0 as u64 });
        i = i + 1;
    }
    let order: Vec<usize> = sort::stable_order(&keys);
    proof {
        sort::lemma_order_distinct(keys@, order@);
    }
    let ranked: Vec<(usize, u64)> = sort::arranged(sums, &order);
    proof {
        assert forall|a: int, b: int| 0 <= a < b < ranked@.len() implies outranks(
            #[trigger] ranked@[a],
            #[trigger] ranked@[b],
        ) by {
            let p = order@[a] as int;
            let q = order@[b] as int;
            assert(sort::before(keys@, p, q));
            assert(keys@[p].second == all[p].0 && keys@[q].second == all[q].0);
            if p < q {
                assert(all[p].0 < all[q].0);
            } else {
                assert(all[q].0 < all[p].0);
            }
        }
        assert forall|a: int| 0 <= a < ranked@.len() implies all.contains(
            #[trigger] ranked@[a],
        ) by {
            assert(ranked@[a] == all[order@[a] as int]);
        }
        assert forall|p: int| 0 <= p < all.len() implies ranked@.contains(#[trigger] all[p]) by {
            assert(order@.contains(p as usize));
            let a = choose|a: int| 0 <= a < order@.len() && order@[a] == p as usize;
            assert(ranked@[a] == all[p]);
        }
    }
    let none: MapContributor = MapContributor::default();
    let mut slots: [MapContributor; 5] = [none, none, none, none, none];
    let mut j: usize = 0;
    while j < 5 && j < ranked.len()
        invariant
            j <= 5,
            j <= ranked@.len(),
            forall|k: int| 0 <= k < ranked@.len() ==> all.contains(#[trigger] ranked@[k]),
            forall|k: int| 0 <= k < all.len() ==> (#[trigger] all[k]).0 <= u32::MAX,
            forall|k: int| 0 <= k < j ==> #[trigger] slots@[k] == slots_of(ranked@, length)[k],
            forall|k: int| j <= k < 5 ==> #[trigger] slots@[k] == map_view::no_contributor(),
        decreases 5 - j,
    {
        let (file_index, bytes) = ranked[j];
        assert(all.contains(ranked@[j as int]));
        let points: u16 = map_view::weighted_basis_points(bytes as u128 * 10_000, length).max(1);
        slots[j] = MapContributor { file_index: file_index as u32, coverage_basis_points: points };
        j = j + 1;
    }
    assert(slots@ =~= slots_of(ranked@, length));
    (slots, Ghost(ranked@))
}

/// What the sums of a cell must be after the first `n` ranges.
spec fn sums_match(
    sums: Seq<(usize, u64)>,
    bins: Seq<MapBin>,
    index: int,
    ranges: Seq<MapFileRange>,
    n: int,
) -> bool {
    &&& by_file(sums)
    &&& forall|i: int| 0 <= i < sums.len() ==> (#[trigger] sums[i]).1 > 0
    &&& forall|i: int| 0 <= i < sums.len() ==> (#[trigger] sums[i]).0 <= u32::MAX
    &&& forall|file: usize|
        #[trigger] listed(sums, file) == file_bytes(bins, index, ranges, file, n)
}

/// The files that occupy each cell, the five with the most bytes first.
pub fn file_contributors(bins: &Vec<MapBin>, file_ranges: &Vec<MapFileRange>) -> (result: Vec<
    [MapContributor; 5],
>)
    ensures
        result@.len() == bins@.len(),
        forall|b: int|
            0 <= b < bins@.len() ==> shows_ranking(
                (#[trigger] result@[b])@,
                bins@,
                b,
                file_ranges@,
            ),
{
    let ghost cells = bins@;
    let ghost ranges = file_ranges@;
    let in_order: bool = ends_in_order(bins);
    let mut sums: Vec<Vec<(usize, u64)>> = Vec::new();
    let mut i: usize = 0;
    while i < bins.len()
        invariant
            i <= bins@.len(),
            sums@.len() == i,
            cells == bins@,
            forall|b: int| 0 <= b < i ==> sums_match((#[trigger] sums@[b])@, cells, b, ranges, 0),
        decreases bins@.len() - i,
    {
        let empty: Vec<(usize, u64)> = Vec::new();
        sums.push(empty);
        i = i + 1;
    }
    let mut n: usize = 0;
    while n < file_ranges.len()
        invariant
            n <= ranges.len(),
            cells == bins@,
            ranges == file_ranges@,
            sums@.len() == cells.len(),
            in_order ==> ends_ascend(cells),
            forall|b: int|
                0 <= b < cells.len() ==> sums_match(
                    (#[trigger] sums@[b])@,
                    cells,
                    b,
                    ranges,
                    n as int,
                ),
        decreases ranges.len() - n,
    {
        let entry: MapFileRange = file_ranges[n];
        let range: PhysicalRange = entry.physical;
        let fits: bool = entry.file_index as u64 <= u32::MAX as u64;
        if fits && range.length_bytes != 0 {
            let range_end: u64 = range.offset_bytes.saturating_add(range.length_bytes);
            let first: usize = find_reaching(bins, range.offset_bytes, in_order);
            let mut b: usize = first;
            while b < bins.len() && bins[b].offset_bytes < range_end
                invariant
                    first <= b <= cells.len(),
                    cells == bins@,
                    ranges == file_ranges@,
                    n < ranges.len(),
                    entry == ranges[n as int],
                    range == entry.physical,
                    entry.file_index <= u32::MAX,
                    range.length_bytes != 0,
                    range_end == arith::sat64(range.offset_bytes + range.length_bytes),
                    first == first_reaching(cells, range.offset_bytes as int, 0),
                    sums@.len() == cells.len(),
                    forall|k: int|
                        first <= k < b ==> (#[trigger] cells[k]).offset_bytes < range_end,
                    forall|k: int|
                        0 <= k < cells.len() ==> sums_match(
                            (#[trigger] sums@[k])@,
                            cells,
                            k,
                            ranges,
                            if first <= k < b {
                                n + 1
                            } else {
                                n as int
                            },
                        ),
                decreases cells.len() - b,
            {
                let bin: MapBin = bins[b];
                let bin_end: u64 = bin.offset_bytes.saturating_add(bin.length_bytes);
                let overlap: u64 = range_end.min(bin_end).saturating_sub(
                    range.offset_bytes.max(bin.offset_bytes),
                );
                proof {
                    lemma_first_beyond(cells, range_end as int, first as int, b as int);
                    assert(hit(cells, b as int, entry) == overlap);
                    assert(sums_match(sums@[b as int]@, cells, b as int, ranges, n as int));
                }
                let ghost old_sums = sums@[b as int]@;
                if overlap > 0 {
                    add_bytes(&mut sums[b], entry.file_index, overlap);
                }
                proof {
                    let new_sums = sums@[b as int]@;
                    assert forall|file: usize|
                        #[trigger] listed(new_sums, file) == file_bytes(
                            cells,
                            b as int,
                            ranges,
                            file,
                            n + 1,
                        ) by {
                        assert(listed(old_sums, file) == file_bytes(
                            cells,
                            b as int,
                            ranges,
                            file,
                            n as int,
                        ));
                        lemma_file_bytes_bound(cells, b as int, ranges, file, n as int);
                    }
                    assert(sums_match(new_sums, cells, b as int, ranges, n + 1));
                }
                b = b + 1;
            }
            proof {
                lemma_beyond_from(cells, range_end as int, first as int, b as int);
                assert forall|k: int| 0 <= k < cells.len() implies sums_match(
                    (#[trigger] sums@[k])@,
                    cells,
                    k,
                    ranges,
                    n + 1,
                ) by {
                    if !(first <= k < b) {
                        lemma_unhit_sums(sums@[k]@, cells, k, ranges, n as int);
                    }
                }
            }
        } else {
            proof {
                assert forall|k: int| 0 <= k < cells.len() implies sums_match(
                    (#[trigger] sums@[k])@,
                    cells,
                    k,
                    ranges,
                    n + 1,
                ) by {
                    lemma_unhit_sums(sums@[k]@, cells, k, ranges, n as int);
                }
            }
        }
        n = n + 1;
    }
    let mut result: Vec<[MapContributor; 5]> = Vec::new();
    let mut b: usize = 0;
    while b < bins.len()
        invariant
            b <= cells.len(),
            cells == bins@,
            ranges == file_ranges@,
            sums@.len() == cells.len(),
            result@.len() == b,
            forall|k: int|
                b <= k < cells.len() ==> sums_match(
                    (#[trigger] sums@[k])@,
                    cells,
                    k,
                    ranges,
                    ranges.len() as int,
                ),
            forall|k: int|
                0 <= k < b ==> shows_ranking((#[trigger] result@[k])@, cells, k, ranges),
        decreases cells.len() - b,
    {
        let mut own: Vec<(usize, u64)> = Vec::new();
        let ghost match_at = sums@[b as int]@;
        assert(sums_match(match_at, cells, b as int, ranges, ranges.len() as int));
        std::mem::swap(&mut own, &mut sums[b]);
        let (slots, list) = fill_slots(own, bins[b].length_bytes);
        proof {
            lemma_is_ranking(match_at, list@, cells, b as int, ranges);
            assert(shows_ranking(slots@, cells, b as int, ranges));
        }
        result.push(slots);
        b = b + 1;
    }
    result
}

proof fn lemma_file_bytes_bound(
    bins: Seq<MapBin>,
    index: int,
    ranges: Seq<MapFileRange>,
    file: usize,
    n: int,
)
    requires
        n <= ranges.len(),
    ensures
        0 <= file_bytes(bins, index, ranges, file, n) <= u64::MAX,
    decreases n,
{
    if n > 0 {
        lemma_file_bytes_bound(bins, index, ranges, file, n - 1);
    }
}

proof fn lemma_unhit_sums(
    sums: Seq<(usize, u64)>,
    bins: Seq<MapBin>,
    index: int,
    ranges: Seq<MapFileRange>,
    n: int,
)
    requires
        0 <= n < ranges.len(),
        sums_match(sums, bins, index, ranges, n),
        hit(bins, index, ranges[n]) == 0,
    ensures
        sums_match(sums, bins, index, ranges, n + 1),
{
    assert forall|file: usize|
        #[trigger] listed(sums, file) == file_bytes(bins, index, ranges, file, n + 1) by {
        lemma_file_bytes_bound(bins, index, ranges, file, n);
    }
}

proof fn lemma_is_ranking(
    sums: Seq<(usize, u64)>,
    list: Seq<(usize, u64)>,
    bins: Seq<MapBin>,
    index: int,
    ranges: Seq<MapFileRange>,
)
    requires
        sums_match(sums, bins, index, ranges, ranges.len() as int),
        forall|i: int, j: int|
            0 <= i < j < list.len() ==> outranks(#[trigger] list[i], #[trigger] list[j]),
        forall|i: int| 0 <= i < list.len() ==> sums.contains(#[trigger] list[i]),
        forall|i: int| 0 <= i < sums.len() ==> list.contains(#[trigger] sums[i]),
    ensures
        is_ranking(list, bins, index, ranges),
{
    let n = ranges.len() as int;
    assert forall|i: int| 0 <= i < list.len() implies (#[trigger] list[i]).1 > 0 && list[i].1
        == file_bytes(bins, index, ranges, list[i].0, n) by {
        assert(sums.contains(list[i]));
        let k = choose|k: int| 0 <= k < sums.len() && sums[k] == list[i];
        lemma_listed(sums, list[i].0);
        assert(sums[k].0 == list[i].0);
        assert(listed(sums, list[i].0) == file_bytes(bins, index, ranges, list[i].0, n));
    }
    assert forall|file: usize|
        #[trigger] file_bytes(bins, index, ranges, file, n) > 0 implies exists|i: int|
        0 <= i < list.len() && (#[trigger] list[i]).0 == file by {
        assert(listed(sums, file) == file_bytes(bins, index, ranges, file, n));
        lemma_listed(sums, file);
        let k = choose|k: int| 0 <= k < sums.len() && (#[trigger] sums[k]).0 == file;
        assert(list.contains(sums[k]));
        let i = choose|i: int| 0 <= i < list.len() && list[i] == sums[k];
        assert(list[i].0 == file);
    }
}

// ---------------------------------------------------------------------
// What does not matter
// ---------------------------------------------------------------------

/// What one range adds to the bytes that a file has in a cell.
spec fn part_of(bins: Seq<MapBin>, index: int, entry: MapFileRange, file: usize) -> int {
    if entry.file_index == file {
        hit(bins, index, entry)
    } else {
        0
    }
}

/// The bytes that ranges put into a cell for a file, without a limit.
spec fn all_parts(bins: Seq<MapBin>, index: int, ranges: Seq<MapFileRange>, file: usize) -> int
    decreases ranges.len(),
{
    if ranges.len() == 0 {
        0
    } else {
        all_parts(bins, index, ranges.drop_last(), file) + part_of(
            bins,
            index,
            ranges.last(),
            file,
        )
    }
}

proof fn lemma_bytes_are_parts(
    bins: Seq<MapBin>,
    index: int,
    ranges: Seq<MapFileRange>,
    file: usize,
    n: int,
)
    requires
        0 <= n <= ranges.len(),
    ensures
        all_parts(bins, index, ranges.take(n), file) >= 0,
        file_bytes(bins, index, ranges, file, n) == arith::sat64(
            all_parts(bins, index, ranges.take(n), file),
        ),
    decreases n,
{
    if n > 0 {
        lemma_bytes_are_parts(bins, index, ranges, file, n - 1);
        assert(ranges.take(n).drop_last() =~= ranges.take(n - 1));
        assert(ranges.take(n).last() == ranges[n - 1]);
    }
}

proof fn lemma_parts_of_two(
    bins: Seq<MapBin>,
    index: int,
    first: Seq<MapFileRange>,
    second: Seq<MapFileRange>,
    file: usize,
)
    ensures
        all_parts(bins, index, first + second, file) == all_parts(bins, index, first, file)
            + all_parts(bins, index, second, file),
    decreases second.len(),
{
    if second.len() == 0 {
        assert(first + second =~= first);
    } else {
        lemma_parts_of_two(bins, index, first, second.drop_last(), file);
        assert((first + second).drop_last() =~= first + second.drop_last());
    }
}

/// The range at a place can be taken out and counted apart.
proof fn lemma_parts_without(
    bins: Seq<MapBin>,
    index: int,
    ranges: Seq<MapFileRange>,
    file: usize,
    at: int,
)
    requires
        0 <= at < ranges.len(),
    ensures
        all_parts(bins, index, ranges, file) == all_parts(bins, index, ranges.remove(at), file)
            + part_of(bins, index, ranges[at], file),
{
    let front = ranges.take(at);
    let one = seq![ranges[at]];
    let back = ranges.skip(at + 1);
    assert(ranges =~= (front + one) + back);
    assert(ranges.remove(at) =~= front + back);
    lemma_parts_of_two(bins, index, front + one, back, file);
    lemma_parts_of_two(bins, index, front, one, file);
    lemma_parts_of_two(bins, index, front, back, file);
    assert(one.drop_last() =~= Seq::<MapFileRange>::empty());
    assert(all_parts(bins, index, one.drop_last(), file) == 0);
}

proof fn lemma_parts_in_any_order(
    bins: Seq<MapBin>,
    index: int,
    first: Seq<MapFileRange>,
    second: Seq<MapFileRange>,
    file: usize,
)
    requires
        first.to_multiset() == second.to_multiset(),
    ensures
        all_parts(bins, index, first, file) == all_parts(bins, index, second, file),
    decreases first.len(),
{
    first.to_multiset_ensures();
    second.to_multiset_ensures();
    if first.len() > 0 {
        let last = first.last();
        assert(first.contains(last));
        assert(first.to_multiset().count(last) > 0);
        assert(second.contains(last));
        let at = second.index_of(last);
        let rest = first.drop_last();
        assert(rest =~= first.remove(first.len() - 1));
        assert(rest.to_multiset() =~= first.to_multiset().remove(last));
        assert(second.remove(at).to_multiset() =~= second.to_multiset().remove(last));
        lemma_parts_in_any_order(bins, index, rest, second.remove(at), file);
        lemma_parts_without(bins, index, second, file, at);
    } else {
        assert(second.len() == 0);
    }
}

/// Where every file has as many bytes in a cell, the cell has the same slots.
proof fn lemma_same_bytes_same_slots(
    bins: Seq<MapBin>,
    index: int,
    first: Seq<MapFileRange>,
    second: Seq<MapFileRange>,
    one: Seq<MapContributor>,
    other: Seq<MapContributor>,
)
    requires
        forall|file: usize|
            all_parts(bins, index, first, file) == #[trigger] all_parts(
                bins,
                index,
                second,
                file,
            ),
        shows_ranking(one, bins, index, first),
        shows_ranking(other, bins, index, second),
    ensures
        one == other,
{
    let a = choose|list: Seq<(usize, u64)>| #[trigger]
        is_ranking(list, bins, index, first) && one == slots_of(list, bins[index].length_bytes);
    let b = choose|list: Seq<(usize, u64)>| #[trigger]
        is_ranking(list, bins, index, second) && other == slots_of(
            list,
            bins[index].length_bytes,
        );
    assert forall|file: usize|
        #[trigger] file_bytes(bins, index, first, file, first.len() as int) == file_bytes(
            bins,
            index,
            second,
            file,
            second.len() as int,
        ) by {
        lemma_bytes_are_parts(bins, index, first, file, first.len() as int);
        lemma_bytes_are_parts(bins, index, second, file, second.len() as int);
        assert(first.take(first.len() as int) =~= first);
        assert(second.take(second.len() as int) =~= second);
        assert(all_parts(bins, index, first, file) == all_parts(bins, index, second, file));
    }
    assert(is_ranking(b, bins, index, first)) by {
        assert forall|i: int| 0 <= i < b.len() implies (#[trigger] b[i]).1 > 0 && b[i].1
            == file_bytes(bins, index, first, b[i].0, first.len() as int) by {
            assert(file_bytes(bins, index, first, b[i].0, first.len() as int) == file_bytes(
                bins,
                index,
                second,
                b[i].0,
                second.len() as int,
            ));
        }
        assert forall|file: usize|
            #[trigger] file_bytes(bins, index, first, file, first.len() as int)
                > 0 implies exists|i: int| 0 <= i < b.len() && (#[trigger] b[i]).0 == file by {
            assert(file_bytes(bins, index, second, file, second.len() as int) > 0);
        }
    }
    lemma_ranking_unique(a, b, bins, index, first);
}

/// The order in which the ranges of the files are listed does not matter:
/// every cell has the same slots.
pub proof fn lemma_order_of_ranges_is_free(
    bins: Seq<MapBin>,
    index: int,
    first: Seq<MapFileRange>,
    second: Seq<MapFileRange>,
    one: Seq<MapContributor>,
    other: Seq<MapContributor>,
)
    requires
        first.to_multiset() == second.to_multiset(),
        shows_ranking(one, bins, index, first),
        shows_ranking(other, bins, index, second),
    ensures
        one == other,
{
    assert forall|file: usize|
        all_parts(bins, index, first, file) == #[trigger] all_parts(
            bins,
            index,
            second,
            file,
        ) by {
        lemma_parts_in_any_order(bins, index, first, second, file);
    }
    lemma_same_bytes_same_slots(bins, index, first, second, one, other);
}

/// Whether cells stand in order and apart.
pub open spec fn cells_apart(bins: Seq<MapBin>) -> bool {
    forall|i: int, j: int|
        0 <= i < j < bins.len() ==> (#[trigger] bins[i]).offset_bytes + bins[i].length_bytes <= (
        #[trigger] bins[j]).offset_bytes
}

proof fn lemma_reaching_bounds(bins: Seq<MapBin>, x: int, i: int)
    requires
        0 <= i <= bins.len(),
    ensures
        i <= first_reaching(bins, x, i) <= bins.len(),
        forall|k: int|
            i <= k < first_reaching(bins, x, i) ==> cell_end(#[trigger] bins[k]) <= x,
    decreases bins.len() - i,
{
    if i < bins.len() && cell_end(bins[i]) <= x {
        lemma_reaching_bounds(bins, x, i + 1);
    }
}

proof fn lemma_beyond_bounds(bins: Seq<MapBin>, end: int, i: int)
    requires
        0 <= i <= bins.len(),
    ensures
        i <= first_beyond(bins, end, i) <= bins.len(),
        first_beyond(bins, end, i) < bins.len() ==> bins[first_beyond(
            bins,
            end,
            i,
        )].offset_bytes >= end,
    decreases bins.len() - i,
{
    if i < bins.len() && bins[i].offset_bytes < end {
        lemma_beyond_bounds(bins, end, i + 1);
    }
}

/// Where the cells stand apart, a range hits each cell with the bytes that
/// they share.
proof fn lemma_hit_is_shared(bins: Seq<MapBin>, index: int, entry: MapFileRange)
    requires
        cells_apart(bins),
        0 <= index < bins.len(),
        entry.file_index <= u32::MAX,
    ensures
        hit(bins, index, entry) == if entry.physical.length_bytes == 0 {
            0
        } else {
            arith::sat64(
                arith::min_int(
                    arith::sat64(entry.physical.offset_bytes + entry.physical.length_bytes),
                    cell_end(bins[index]),
                ) - arith::max_int(
                    entry.physical.offset_bytes as int,
                    bins[index].offset_bytes as int,
                ),
            )
        },
{
    let range = entry.physical;
    let range_end = arith::sat64(range.offset_bytes + range.length_bytes);
    lemma_reaching_bounds(bins, range.offset_bytes as int, 0);
    let first = first_reaching(bins, range.offset_bytes as int, 0);
    lemma_beyond_bounds(bins, range_end, first);
    let beyond = first_beyond(bins, range_end, first);
    if range.length_bytes > 0 && index >= beyond {
        if index > beyond {
            assert(bins[beyond].offset_bytes + bins[beyond].length_bytes
                <= bins[index].offset_bytes);
        }
    }
}

/// A range of a file may be cut in two without a change: where the cells
/// stand in order and apart, every cell has the same slots.
pub proof fn lemma_cutting_a_range_is_free(
    bins: Seq<MapBin>,
    index: int,
    before: Seq<MapFileRange>,
    after: Seq<MapFileRange>,
    file: usize,
    offset: u64,
    left: u64,
    right: u64,
    one: Seq<MapContributor>,
    other: Seq<MapContributor>,
)
    requires
        cells_apart(bins),
        0 <= index < bins.len(),
        offset + left + right <= u64::MAX,
        shows_ranking(
            one,
            bins,
            index,
            before + seq![range_of_file(file, offset, (left + right) as u64)] + after,
        ),
        shows_ranking(
            other,
            bins,
            index,
            before + seq![
                range_of_file(file, offset, left),
                range_of_file(file, (offset + left) as u64, right),
            ] + after,
        ),
    ensures
        one == other,
{
    let whole = range_of_file(file, offset, (left + right) as u64);
    let a = range_of_file(file, offset, left);
    let b = range_of_file(file, (offset + left) as u64, right);
    if file <= u32::MAX {
        lemma_hit_is_shared(bins, index, whole);
        lemma_hit_is_shared(bins, index, a);
        lemma_hit_is_shared(bins, index, b);
    }
    assert(hit(bins, index, whole) == hit(bins, index, a) + hit(bins, index, b));
    let first = before + seq![whole] + after;
    let second = before + seq![a, b] + after;
    assert forall|f: usize|
        all_parts(bins, index, first, f) == #[trigger] all_parts(bins, index, second, f) by {
        lemma_parts_of_two(bins, index, before + seq![whole], after, f);
        lemma_parts_of_two(bins, index, before, seq![whole], f);
        lemma_parts_of_two(bins, index, before + seq![a, b], after, f);
        lemma_parts_of_two(bins, index, before, seq![a, b], f);
        reveal_with_fuel(all_parts, 3);
        assert(seq![whole].drop_last() =~= Seq::<MapFileRange>::empty());
        assert(seq![a, b].drop_last() =~= seq![a]);
        assert(seq![a].drop_last() =~= Seq::<MapFileRange>::empty());
    }
    lemma_same_bytes_same_slots(bins, index, first, second, one, other);
}

/// A range of a file.
pub open spec fn range_of_file(file: usize, offset: u64, length: u64) -> MapFileRange {
    MapFileRange {
        file_index: file,
        physical: PhysicalRange { offset_bytes: offset, length_bytes: length },
    }
}

} // verus!
