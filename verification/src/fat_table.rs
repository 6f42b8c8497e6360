//! The file allocation table of a classic FAT volume: its entries and the
//! cluster chains that they form.

use std::collections::HashSet;

use vstd::prelude::*;

use crate::arith;
use crate::error;
use crate::error::{ErrorView, ServiceError};
use crate::text;

verus! {

/// The three classic FAT layouts.
#[derive(Clone, Copy, Debug, PartialEq, Eq, Structural)]
pub enum ClassicKind {
    Fat12,
    Fat16,
    Fat32,
}

// ---------------------------------------------------------------------
// Entries
// ---------------------------------------------------------------------

/// The entry of a cluster, where the table holds it.
pub open spec fn entry_of(fat: Seq<u8>, kind: ClassicKind, cluster: u32) -> Option<u32> {
    match kind {
        ClassicKind::Fat12 => {
            let at = cluster as int * 3 / 2;
            if at + 2 <= fat.len() {
                let pair = arith::le_value(fat.subrange(at, at + 2));
                Some(
                    if cluster % 2 == 0 {
                        (pair % 4096) as u32
                    } else {
                        (pair / 16) as u32
                    },
                )
            } else {
                None
            }
        },
        ClassicKind::Fat16 => {
            let at = cluster as int * 2;
            if at + 2 <= fat.len() {
                Some(arith::le_value(fat.subrange(at, at + 2)) as u32)
            } else {
                None
            }
        },
        ClassicKind::Fat32 => {
            let at = cluster as int * 4;
            if at + 4 <= fat.len() {
                Some((arith::le_value(fat.subrange(at, at + 4)) % 0x1000_0000) as u32)
            } else {
                None
            }
        },
    }
}

/// Reads the entry of a cluster.
pub fn fat_entry(fat: &Vec<u8>, kind: ClassicKind, cluster: u32) -> (entry: Option<u32>)
    ensures
        entry == entry_of(fat@, kind, cluster),
{
    let len: usize = fat.len();
    match kind {
        ClassicKind::Fat12 => {
            let at: u64 = cluster as u64 * 3 / 2;
            if at + 2 > len as u64 {
                return None;
            }
            let pair: u16 = arith::read_u16(fat, at as usize);
            assert(pair & 0x0fff == pair % 4096) by (bit_vector);
            assert(pair >> 4 == pair / 16) by (bit_vector);
            assert(cluster & 1 == cluster % 2) by (bit_vector);
            Some(
                if cluster & 1 == 0 {
                    (pair & 0x0fff) as u32
                } else {
                    (pair >> 4) as u32
                },
            )
        },
        ClassicKind::Fat16 => {
            let at: u64 = cluster as u64 * 2;
            if at + 2 > len as u64 {
                return None;
            }
            Some(arith::read_u16(fat, at as usize) as u32)
        },
        ClassicKind::Fat32 => {
            let at: u64 = cluster as u64 * 4;
            if at + 4 > len as u64 {
                return None;
            }
            let word: u32 = arith::read_u32(fat, at as usize);
            assert(word & 0x0fff_ffff == word % 0x1000_0000) by (bit_vector);
            Some(word & 0x0fff_ffff)
        },
    }
}

/// The value that ends a chain.
pub open spec fn end_mark(kind: ClassicKind) -> u32 {
    match kind {
        ClassicKind::Fat12 => 0x0fff,
        ClassicKind::Fat16 => 0xffff,
        ClassicKind::Fat32 => 0x0fff_ffff,
    }
}

/// Whether a value ends a chain.
pub open spec fn ends_chain(kind: ClassicKind, value: u32) -> bool {
    match kind {
        ClassicKind::Fat12 => value >= 0x0ff8,
        ClassicKind::Fat16 => value >= 0xfff8,
        ClassicKind::Fat32 => value >= 0x0fff_fff8,
    }
}

/// Whether a value marks a cluster as bad.
pub open spec fn marks_bad(kind: ClassicKind, value: u32) -> bool {
    match kind {
        ClassicKind::Fat12 => value == 0x0ff7,
        ClassicKind::Fat16 => value == 0xfff7,
        ClassicKind::Fat32 => value == 0x0fff_fff7,
    }
}

/// The value that ends a chain.
pub fn eoc(kind: ClassicKind) -> (value: u32)
    ensures
        value == end_mark(kind),
{
    match kind {
        ClassicKind::Fat12 => 0x0fff,
        ClassicKind::Fat16 => 0xffff,
        ClassicKind::Fat32 => 0x0fff_ffff,
    }
}

/// Tells whether a value ends a chain.
pub fn is_eoc(kind: ClassicKind, value: u32) -> (yes: bool)
    ensures
        yes == ends_chain(kind, value),
{
    match kind {
        ClassicKind::Fat12 => value >= 0x0ff8,
        ClassicKind::Fat16 => value >= 0xfff8,
        ClassicKind::Fat32 => value >= 0x0fff_fff8,
    }
}

/// Tells whether a value marks a cluster as bad.
pub fn is_bad(kind: ClassicKind, value: u32) -> (yes: bool)
    ensures
        yes == marks_bad(kind, value),
{
    match kind {
        ClassicKind::Fat12 => value == 0x0ff7,
        ClassicKind::Fat16 => value == 0xfff7,
        ClassicKind::Fat32 => value == 0x0fff_fff7,
    }
}

/// The number behind the last cluster of a volume with `count` clusters.
pub open spec fn cluster_end(count: u32) -> u32 {
    if count > u32::MAX - 2 {
        u32::MAX
    } else {
        (count + 2) as u32
    }
}

/// Whether every cluster of a volume with `count` clusters has a number that
/// marks neither a bad cluster nor the end of a chain.
pub open spec fn count_fits(kind: ClassicKind, count: u32) -> bool {
    match kind {
        ClassicKind::Fat12 => cluster_end(count) <= 0x0ff7,
        ClassicKind::Fat16 => cluster_end(count) <= 0xfff7,
        ClassicKind::Fat32 => cluster_end(count) <= 0x0fff_fff7,
    }
}

// ---------------------------------------------------------------------
// Chains
// ---------------------------------------------------------------------

pub open spec fn outside_text(cluster: u32) -> Seq<char> {
    "cluster chain points to "@ + text::decimal(cluster as nat)
}

pub open spec fn cycle_text(cluster: u32) -> Seq<char> {
    "cluster chain cycles at "@ + text::decimal(cluster as nat)
}

pub open spec fn missing_text(cluster: u32) -> Seq<char> {
    "FAT entry "@ + text::decimal(cluster as nat) + " is out of range"@
}

pub open spec fn broken_text(value: u32) -> Seq<char> {
    "cluster chain terminates at invalid value 0x"@ + text::hexadecimal(value as nat)
}

pub open spec fn too_long_text() -> Seq<char> {
    "cluster chain is longer than the volume"@
}

/// What following a chain gives when `done` was passed and `current` comes
/// next.
pub open spec fn followed(
    fat: Seq<u8>,
    kind: ClassicKind,
    count: u32,
    done: Seq<u32>,
    current: u32,
) -> Result<Seq<u32>, ErrorView>
    decreases count + 1 - done.len(),
{
    if current < 2 || current >= cluster_end(count) {
        Err(ErrorView::UnsafeFilesystem(outside_text(current)))
    } else if done.contains(current) {
        Err(ErrorView::UnsafeFilesystem(cycle_text(current)))
    } else if done.len() + 1 > count {
        Err(ErrorView::UnsafeFilesystem(too_long_text()))
    } else {
        match entry_of(fat, kind, current) {
            None => Err(ErrorView::UnsafeFilesystem(missing_text(current))),
            Some(next) => if ends_chain(kind, next) {
                Ok(done.push(current))
            } else if next == 0 || marks_bad(kind, next) {
                Err(ErrorView::UnsafeFilesystem(broken_text(next)))
            } else {
                followed(fat, kind, count, done.push(current), next)
            },
        }
    }
}

/// The chain that begins at `start`. A start below 2 stands for no chain.
pub open spec fn chain_of(fat: Seq<u8>, kind: ClassicKind, start: u32, count: u32) -> Result<
    Seq<u32>,
    ErrorView,
> {
    if start < 2 {
        Ok(Seq::empty())
    } else {
        followed(fat, kind, count, Seq::empty(), start)
    }
}

fn numbered(head: &str, number: u32, tail: &str) -> (message: String)
    ensures
        message@ == head@ + text::decimal(number as nat) + tail@,
{
    let mut message: String = head.to_owned();
    text::push_decimal(&mut message, number as u64);
    text::push_text(&mut message, tail);
    message
}

fn ending_in(head: &str, number: u32) -> (message: String)
    ensures
        message@ == head@ + text::decimal(number as nat),
{
    let mut message: String = head.to_owned();
    text::push_decimal(&mut message, number as u64);
    message
}

/// The message about a table that lacks an entry.
pub fn missing_entry(cluster: u32) -> (message: String)
    ensures
        message@ == missing_text(cluster),
{
    numbered("FAT entry ", cluster, " is out of range")
}

/// The number behind the last cluster.
pub fn end_of_clusters(count: u32) -> (end: u32)
    ensures
        end == cluster_end(count),
{
    count.saturating_add(2)
}

/// What a chain walk gave, over views.
pub open spec fn chain_outcome(result: Result<Vec<u32>, ServiceError>) -> Result<
    Seq<u32>,
    ErrorView,
> {
    match result {
        Ok(clusters) => Ok(clusters@),
        Err(error) => Err(error@),
    }
}

/// Follows the chain that begins at `start`.
pub fn chain(fat: &Vec<u8>, kind: ClassicKind, start: u32, cluster_count: u32) -> (result: Result<
    Vec<u32>,
    ServiceError,
>)
    ensures
        chain_outcome(result) == chain_of(fat@, kind, start, cluster_count),
{
    let mut clusters: Vec<u32> = Vec::new();
    if start < 2 {
        return Ok(clusters);
    }
    let end: u32 = end_of_clusters(cluster_count);
    let mut seen: HashSet<u32> = HashSet::new();
    let mut current: u32 = start;
    loop
        invariant
            end == cluster_end(cluster_count),
            start >= 2,
            clusters@.len() <= cluster_count,
            forall|c: u32| #[trigger] seen@.contains(c) <==> clusters@.contains(c),
            chain_of(fat@, kind, start, cluster_count) == followed(
                fat@,
                kind,
                cluster_count,
                clusters@,
                current,
            ),
        decreases cluster_count + 1 - clusters@.len(),
    {
        if current < 2 || current >= end {
            return Err(error::unsafe_fs(ending_in("cluster chain points to ", current)));
        }
        let ghost done = clusters@;
        if !seen.insert(current) {
            return Err(error::unsafe_fs(ending_in("cluster chain cycles at ", current)));
        }
        clusters.push(current);
        if clusters.len() as u64 > cluster_count as u64 {
            return Err(error::unsafe_fs("cluster chain is longer than the volume".to_owned()));
        }
        let next: u32 = match fat_entry(fat, kind, current) {
            Some(next) => next,
            None => {
                return Err(error::unsafe_fs(missing_entry(current)));
            },
        };
        if is_eoc(kind, next) {
            return Ok(clusters);
        }
        if next == 0 || is_bad(kind, next) {
            let mut message: String = "cluster chain terminates at invalid value 0x".to_owned();
            text::push_hexadecimal(&mut message, next as u64);
            return Err(error::unsafe_fs(message));
        }
        proof {
            assert forall|c: u32| #[trigger] seen@.contains(c) <==> clusters@.contains(c) by {
                if done.contains(c) {
                    let i = choose|i: int| 0 <= i < done.len() && done[i] == c;
                    assert(clusters@[i] == c);
                }
                if c == current {
                    assert(clusters@[done.len() as int] == c);
                }
                if clusters@.contains(c) && c != current {
                    let i = choose|i: int| 0 <= i < clusters@.len() && clusters@[i] == c;
                    assert(done[i] == c);
                }
            }
        }
        current = next;
    }
}

/// Whether `clusters` is a chain of the table: distinct clusters of the data
/// area, each of which leads to the next, and the last of which ends it.
pub open spec fn is_chain(fat: Seq<u8>, kind: ClassicKind, count: u32, clusters: Seq<u32>) -> bool {
    &&& clusters.no_duplicates()
    &&& forall|i: int|
        0 <= i < clusters.len() ==> 2 <= #[trigger] clusters[i] < cluster_end(count)
    &&& forall|i: int|
        0 <= i < clusters.len() - 1 ==> entry_of(fat, kind, #[trigger] clusters[i]) == Some(
            clusters[i + 1],
        ) && !ends_chain(kind, clusters[i + 1])
    &&& clusters.len() > 0 ==> match entry_of(fat, kind, clusters.last()) {
        Some(value) => ends_chain(kind, value),
        None => false,
    }
}

/// Whether `done` leads to `current` without a break or a repetition.
spec fn is_path(fat: Seq<u8>, kind: ClassicKind, count: u32, done: Seq<u32>, current: u32) -> bool {
    &&& done.no_duplicates()
    &&& forall|i: int| 0 <= i < done.len() ==> 2 <= #[trigger] done[i] < cluster_end(count)
    &&& forall|i: int|
        0 <= i < done.len() - 1 ==> entry_of(fat, kind, #[trigger] done[i]) == Some(done[i + 1])
            && !ends_chain(kind, done[i + 1])
    &&& done.len() > 0 ==> entry_of(fat, kind, done.last()) == Some(current) && !ends_chain(
        kind,
        current,
    )
}

proof fn lemma_followed_is_chain(
    fat: Seq<u8>,
    kind: ClassicKind,
    count: u32,
    done: Seq<u32>,
    current: u32,
)
    requires
        is_path(fat, kind, count, done, current),
    ensures
        followed(fat, kind, count, done, current) matches Ok(clusters) ==> is_chain(
            fat,
            kind,
            count,
            clusters,
        ) && clusters.len() > done.len() && clusters.take(done.len() as int) == done
            && clusters[done.len() as int] == current,
    decreases count + 1 - done.len(),
{
    if let Ok(clusters) = followed(fat, kind, count, done, current) {
        let longer = done.push(current);
        assert(longer.no_duplicates()) by {
            assert forall|i: int, j: int|
                0 <= i < longer.len() && 0 <= j < longer.len() && i != j implies longer[i]
                != longer[j] by {
                if i == done.len() {
                    assert(done.contains(done[j]));
                } else if j == done.len() {
                    assert(done.contains(done[i]));
                }
            }
        }
        let next = entry_of(fat, kind, current)->0;
        assert forall|i: int| 0 <= i < longer.len() - 1 implies entry_of(
            fat,
            kind,
            #[trigger] longer[i],
        ) == Some(longer[i + 1]) && !ends_chain(kind, longer[i + 1]) by {
            if i == done.len() - 1 {
                assert(longer[i] == done.last());
            } else {
                assert(longer[i] == done[i]);
            }
        }
        if ends_chain(kind, next) {
            assert(clusters.take(done.len() as int) =~= done);
        } else {
            lemma_followed_is_chain(fat, kind, count, longer, next);
            assert(clusters.take(done.len() as int) =~= clusters.take(longer.len() as int).take(
                done.len() as int,
            ));
            assert(longer.take(done.len() as int) =~= done);
            assert(clusters[done.len() as int] == clusters.take(
                longer.len() as int,
            )[done.len() as int]);
        }
    }
}

/// What a chain walk returns is a chain: no cluster occurs twice, every one
/// lies in the data area, and the table links each to the next.
pub proof fn lemma_chain_is_linked(fat: Seq<u8>, kind: ClassicKind, start: u32, count: u32)
    ensures
        chain_of(fat, kind, start, count) matches Ok(clusters) ==> is_chain(
            fat,
            kind,
            count,
            clusters,
        ) && (start >= 2 ==> clusters.len() > 0 && clusters[0] == start),
{
    if start >= 2 {
        lemma_followed_is_chain(fat, kind, count, Seq::empty(), start);
    }
}

proof fn lemma_chain_is_followed(
    fat: Seq<u8>,
    kind: ClassicKind,
    count: u32,
    clusters: Seq<u32>,
    n: int,
)
    requires
        is_chain(fat, kind, count, clusters),
        0 <= n < clusters.len(),
        clusters.len() <= count,
        forall|i: int|
            0 <= i < clusters.len() ==> !marks_bad(kind, #[trigger] clusters[i]),
    ensures
        followed(fat, kind, count, clusters.take(n), clusters[n]) == Ok::<Seq<u32>, ErrorView>(
            clusters,
        ),
    decreases clusters.len() - n,
{
    let done = clusters.take(n);
    let current = clusters[n];
    assert(!done.contains(current)) by {
        if done.contains(current) {
            let i = choose|i: int| 0 <= i < done.len() && done[i] == current;
            assert(clusters[i] == clusters[n]);
        }
    }
    assert(done.push(current) =~= clusters.take(n + 1));
    if n == clusters.len() - 1 {
        assert(clusters.take(n + 1) =~= clusters);
    } else {
        lemma_chain_is_followed(fat, kind, count, clusters, n + 1);
    }
}

/// A chain that is intact is found: a chain walk from its first cluster
/// returns it, unless one of its clusters has the number that marks a bad
/// one.
pub proof fn lemma_intact_chain_is_found(
    fat: Seq<u8>,
    kind: ClassicKind,
    count: u32,
    clusters: Seq<u32>,
)
    requires
        is_chain(fat, kind, count, clusters),
        clusters.len() > 0,
        forall|i: int|
            0 <= i < clusters.len() ==> !marks_bad(kind, #[trigger] clusters[i]),
    ensures
        chain_of(fat, kind, clusters[0], count) == Ok::<Seq<u32>, ErrorView>(clusters),
{
    lemma_distinct_fit(clusters, 2, cluster_end(count) as int);
    lemma_chain_is_followed(fat, kind, count, clusters, 0);
    assert(clusters.take(0) =~= Seq::<u32>::empty());
}

/// Distinct numbers of a range are no more than the range holds.
proof fn lemma_distinct_fit(clusters: Seq<u32>, low: int, high: int)
    requires
        clusters.no_duplicates(),
        low <= high,
        forall|i: int| 0 <= i < clusters.len() ==> low <= #[trigger] clusters[i] < high,
    ensures
        clusters.len() <= high - low,
    decreases high - low,
{
    if clusters.len() == 0 {
    } else if low == high {
        assert(low <= clusters[0] < high);
    } else {
        let top = (high - 1) as u32;
        if clusters.contains(top) {
            let at = choose|i: int| 0 <= i < clusters.len() && clusters[i] == top;
            let rest = clusters.remove(at);
            assert forall|i: int| 0 <= i < rest.len() implies low <= #[trigger] rest[i]
                < high - 1 by {
                let k = if i < at {
                    i
                } else {
                    i + 1
                };
                assert(rest[i] == clusters[k]);
                assert(clusters[k] != clusters[at]);
                assert(low <= clusters[k] < high);
            }
            assert(rest.no_duplicates()) by {
                assert forall|i: int, j: int|
                    0 <= i < rest.len() && 0 <= j < rest.len() && i != j implies rest[i]
                    != rest[j] by {
                    let a = if i < at {
                        i
                    } else {
                        i + 1
                    };
                    let b = if j < at {
                        j
                    } else {
                        j + 1
                    };
                    assert(rest[i] == clusters[a] && rest[j] == clusters[b]);
                }
            }
            lemma_distinct_fit(rest, low, high - 1);
        } else {
            assert forall|i: int| 0 <= i < clusters.len() implies low <= #[trigger] clusters[i]
                < high - 1 by {
                assert(clusters.contains(clusters[i]));
                assert(low <= clusters[i] < high);
            }
            lemma_distinct_fit(clusters, low, high - 1);
        }
    }
}

} // verus!
