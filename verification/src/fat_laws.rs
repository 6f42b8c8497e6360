//! What holds of every reading of an unmounted FAT volume: where its parts
//! lie, that the walk misses no file and names each by its path, and what the
//! survey and the report say of it.

use vstd::prelude::*;
use vstd::utf8::*;

use crate::arith;
use crate::classic_fat;
use crate::classic_fat::{
    DirNodeView, EntryId, Findings, FrameView, Geometry, Medium, RawFileView, SnapshotView, Survey,
    Visit, Wanted,
};
use crate::domain::{AnalysisCompleteness, VolumeView};
use crate::error::ErrorView;
use crate::extents;
use crate::fat_table;
use crate::fat_table::ClassicKind;
use crate::file_laws;
use crate::path;
use crate::path_laws;
use crate::plan_laws;
use crate::raw_report;
use crate::scan;

verus! {

// ---------------------------------------------------------------------
// Where the parts of a volume lie
// ---------------------------------------------------------------------

/// The clusters of the data area lie behind each other from its start: the
/// first has the number two, and each begins where the one before it ends.
/// Other numbers have no place.
pub proof fn lemma_clusters_lie_in_order(geometry: Geometry, cluster: u32)
    requires
        geometry.count_of_clusters < u32::MAX - 2,
        geometry.data_start + geometry.count_of_clusters * geometry.cluster_size <= u64::MAX,
    ensures
        geometry.count_of_clusters > 0 ==> geometry.offset_of(2) == Some(geometry.data_start),
        geometry.offset_of(cluster) is Some <==> 2 <= cluster < geometry.count_of_clusters + 2,
        2 <= cluster && cluster + 1 < geometry.count_of_clusters + 2 ==> {
            &&& geometry.offset_of((cluster + 1) as u32) is Some
            &&& geometry.offset_of((cluster + 1) as u32)->0 == geometry.offset_of(cluster)->0
                + geometry.cluster_size
        },
{
    if 2 <= cluster < geometry.count_of_clusters + 2 {
        assert(0 <= (cluster - 2) * geometry.cluster_size <= geometry.count_of_clusters
            * geometry.cluster_size) by (nonlinear_arith)
            requires
                0 <= cluster - 2 <= geometry.count_of_clusters,
                geometry.cluster_size >= 0,
        ;
        assert((cluster + 1 - 2) * geometry.cluster_size == (cluster - 2) * geometry.cluster_size
            + geometry.cluster_size) by (nonlinear_arith);
        assert((cluster + 1 - 2) * geometry.cluster_size <= geometry.count_of_clusters
            * geometry.cluster_size) by (nonlinear_arith)
            requires
                cluster + 1 - 2 <= geometry.count_of_clusters,
                geometry.cluster_size >= 0,
        ;
    }
    assert(0 * geometry.cluster_size == 0) by (nonlinear_arith);
}

/// The copies of the allocation table lie behind each other.
pub proof fn lemma_tables_lie_in_order(geometry: Geometry, copy: int)
    requires
        0 <= copy < 255,
        geometry.fat_start + (copy + 1) * geometry.table_bytes() <= u64::MAX,
    ensures
        geometry.table_bytes() == geometry.fat_size_sectors * geometry.bytes_per_sector,
        geometry.table_start(0) == geometry.fat_start,
        geometry.table_start(copy + 1) == geometry.table_start(copy) + geometry.table_bytes(),
{
    let bytes = geometry.table_bytes();
    assert(bytes >= 0) by (nonlinear_arith)
        requires
            bytes == geometry.fat_size_sectors * geometry.bytes_per_sector,
    ;
    assert((copy + 1) * bytes == copy * bytes + bytes) by (nonlinear_arith);
    assert(copy * bytes >= 0) by (nonlinear_arith)
        requires
            copy >= 0,
            bytes >= 0,
    ;
    assert(0 * bytes == 0) by (nonlinear_arith);
}

/// A directory entry has 32 bytes and lies in the clusters of its directory,
/// or in the fixed root directory, behind the entries with lower numbers.
pub proof fn lemma_entries_lie_in_their_directory(
    medium: Medium,
    dir_cluster: u32,
    index: u32,
    chain: Seq<u32>,
    place: u64,
)
    requires
        medium.geometry.cluster_size > 0,
    ensures
        classic_fat::entry_offset_of(medium.geometry, medium.kind, medium.fat, EntryId::Root) is Err,
        dir_cluster == 0xffff_ffff && medium.geometry.root_dir_start + index * 32 <= u64::MAX
            ==> classic_fat::entry_offset_of(
            medium.geometry,
            medium.kind,
            medium.fat,
            EntryId::Entry { dir_cluster, index },
        ) == Ok::<u64, ErrorView>((medium.geometry.root_dir_start + index * 32) as u64),
        dir_cluster != 0xffff_ffff && fat_table::chain_of(
            medium.fat,
            medium.kind,
            dir_cluster,
            medium.geometry.count_of_clusters,
        ) == Ok::<Seq<u32>, ErrorView>(chain) ==> ({
            let at = index * 32 / medium.geometry.cluster_size as int;
            let found = classic_fat::entry_offset_of(
                medium.geometry,
                medium.kind,
                medium.fat,
                EntryId::Entry { dir_cluster, index },
            );
            &&& at >= chain.len() ==> found is Err
            &&& at < chain.len() && medium.geometry.offset_of(chain[at]) == Some(place) && place
                + medium.geometry.cluster_size <= u64::MAX ==> found == Ok::<u64, ErrorView>(
                (place + index * 32 % medium.geometry.cluster_size as int) as u64,
            )
        }),
{
    let size = medium.geometry.cluster_size as int;
    vstd::arithmetic::div_mod::lemma_fundamental_div_mod(index * 32, size);
    assert(0 <= (index * 32) % size < size) by (nonlinear_arith)
        requires
            size > 0,
    ;
}

proof fn lemma_low_bits(a: u8, b: u8, c: u8, d: u8)
    ensures
        (a + 256 * b + 65_536 * c + 16_777_216 * d) % 0x1000_0000 == a + 256 * b + 65_536 * c
            + 16_777_216 * (d as int % 16),
        (a + 256 * b) % 4096 == a + 256 * (b as int % 16),
        (a + 256 * b) / 16 == a as int / 16 + 16 * b,
{
    let low = a + 256 * b + 65_536 * c + 16_777_216 * (d as int % 16);
    vstd::arithmetic::div_mod::lemma_fundamental_div_mod_converse(
        a + 256 * b + 65_536 * c + 16_777_216 * d,
        0x1000_0000,
        d as int / 16,
        low,
    );
    vstd::arithmetic::div_mod::lemma_fundamental_div_mod_converse(
        a + 256 * b,
        4096,
        b as int / 16,
        a + 256 * (b as int % 16),
    );
    vstd::arithmetic::div_mod::lemma_fundamental_div_mod_converse(
        a + 256 * b,
        16,
        a as int / 16 + 16 * b,
        a as int % 16,
    );
}

/// An entry of a FAT16 table is sixteen bits.
pub proof fn lemma_entries_of_sixteen_bits_are_read(fat: Seq<u8>, cluster: u32)
    requires
        cluster * 2 + 2 <= fat.len(),
    ensures
        ({
            let at = cluster * 2;
            fat_table::entry_of(fat, ClassicKind::Fat16, cluster) == Some(
                (fat[at] + 256 * fat[at + 1]) as u32,
            )
        }),
{
    let at = cluster * 2;
    arith::lemma_le_value_2(fat.subrange(at, at + 2));
}

/// An entry of a FAT32 table is the lower 28 of 32 bits.
pub proof fn lemma_entries_of_28_bits_are_read(fat: Seq<u8>, cluster: u32)
    requires
        cluster * 4 + 4 <= fat.len(),
    ensures
        ({
            let at = cluster * 4;
            fat_table::entry_of(fat, ClassicKind::Fat32, cluster) == Some(
                (fat[at] + 256 * fat[at + 1] + 65_536 * fat[at + 2] + 16_777_216 * (fat[at + 3]
                    as int % 16)) as u32,
            )
        }),
{
    let at = cluster * 4;
    arith::lemma_le_value_4(fat.subrange(at, at + 4));
    lemma_low_bits(fat[at], fat[at + 1], fat[at + 2], fat[at + 3]);
}

/// Two entries of a FAT12 table share three bytes: the first has the first
/// byte and the lower half of the second, the other has the rest.
pub proof fn lemma_entries_of_twelve_bits_are_read(fat: Seq<u8>, pair: u32)
    requires
        pair * 3 + 3 <= fat.len(),
        pair * 2 + 1 <= u32::MAX,
    ensures
        ({
            let at = pair * 3;
            &&& fat_table::entry_of(fat, ClassicKind::Fat12, (pair * 2) as u32) == Some(
                (fat[at] + 256 * (fat[at + 1] as int % 16)) as u32,
            )
            &&& fat_table::entry_of(fat, ClassicKind::Fat12, (pair * 2 + 1) as u32) == Some(
                (fat[at + 1] as int / 16 + 16 * fat[at + 2]) as u32,
            )
        }),
{
    let at = pair * 3;
    assert((pair * 2) * 3 / 2 == at);
    assert((pair * 2 + 1) * 3 / 2 == at + 1);
    arith::lemma_le_value_2(fat.subrange(at, at + 2));
    arith::lemma_le_value_2(fat.subrange(at + 1, at + 3));
    lemma_low_bits(fat[at], fat[at + 1], 0, 0);
    lemma_low_bits(fat[at + 1], fat[at + 2], 0, 0);
}

/// The values that mean more than a cluster: the end of a chain, and a
/// cluster that cannot be used.
pub proof fn lemma_marks_are_apart(value: u32)
    ensures
        fat_table::ends_chain(ClassicKind::Fat12, value) <==> value >= 0xff8,
        fat_table::ends_chain(ClassicKind::Fat16, value) <==> value >= 0xfff8,
        fat_table::ends_chain(ClassicKind::Fat32, value) <==> value >= 0xfff_fff8,
        fat_table::marks_bad(ClassicKind::Fat12, value) <==> value == 0xff7,
        fat_table::marks_bad(ClassicKind::Fat16, value) <==> value == 0xfff7,
        fat_table::marks_bad(ClassicKind::Fat32, value) <==> value == 0xfff_fff7,
        fat_table::end_mark(ClassicKind::Fat12) == 0xfff,
        fat_table::end_mark(ClassicKind::Fat16) == 0xffff,
        fat_table::end_mark(ClassicKind::Fat32) == 0xfff_ffff,
{
}

/// Nothing speaks against the tables of a volume exactly where it has one or
/// two copies, all alike, a FAT32 volume keeps them so, and the volume was
/// shut down cleanly and met no error; FAT12 does not tell the latter.
pub proof fn lemma_sound_tables_have_no_issues(
    kind: ClassicKind,
    num_fats: u8,
    boot: Seq<u8>,
    fat: Seq<u8>,
    mirrors: Seq<Seq<u8>>,
    status: u32,
)
    requires
        fat_table::entry_of(fat, kind, 1) == Some(status),
    ensures
        classic_fat::table_issues_of(kind, num_fats, boot, fat, mirrors).len() == 0 <==> {
            &&& 1 <= num_fats <= 2
            &&& forall|i: int| 0 <= i < mirrors.len() ==> #[trigger] mirrors[i] == fat
            &&& kind == ClassicKind::Fat32 ==> (arith::le_value(boot.subrange(40, 42)) as u16)
                & 0x0080u16 == 0
            &&& kind == ClassicKind::Fat16 ==> status & 0x8000u32 != 0 && status & 0x4000u32 != 0
            &&& kind == ClassicKind::Fat32 ==> status & 0x0800_0000u32 != 0 && status
                & 0x0400_0000u32 != 0
        },
{
    lemma_mirrors(fat, mirrors);
}

proof fn lemma_mirrors(fat: Seq<u8>, mirrors: Seq<Seq<u8>>)
    ensures
        classic_fat::mirror_issues(fat, mirrors).len() == 0 <==> forall|i: int|
            0 <= i < mirrors.len() ==> #[trigger] mirrors[i] == fat,
    decreases mirrors.len(),
{
    if mirrors.len() > 0 {
        let rest = mirrors.drop_last();
        lemma_mirrors(fat, rest);
        assert(mirrors[mirrors.len() - 1] == mirrors.last());
        if forall|i: int| 0 <= i < mirrors.len() ==> #[trigger] mirrors[i] == fat {
            assert forall|i: int| 0 <= i < rest.len() implies #[trigger] rest[i] == fat by {
                assert(mirrors[i] == rest[i]);
            }
        }
        if (forall|i: int| 0 <= i < rest.len() ==> #[trigger] rest[i] == fat) && mirrors.last()
            == fat {
            assert forall|i: int| 0 <= i < mirrors.len() implies #[trigger] mirrors[i] == fat by {
                if i < rest.len() {
                    assert(mirrors[i] == rest[i]);
                }
            }
        }
    }
}

// ---------------------------------------------------------------------
// The walk over the directories
// ---------------------------------------------------------------------

/// Whether an entry is neither deleted nor a label nor one of the names that a
/// directory has for itself and the one above it.
pub open spec fn counts(node: DirNodeView) -> bool {
    !node.is_deleted && !node.is_volume_label && node.name != "."@ && node.name != ".."@
}

/// The path of an entry: that of its directory, and its name.
pub open spec fn path_below(parent: Seq<u8>, node: DirNodeView) -> Seq<u8> {
    path::joined(parent, encode_utf8(node.name))
}

/// Whether a file that was found is the one that an entry names.
pub open spec fn is_file_of(file: RawFileView, parent: Seq<u8>, node: DirNodeView) -> bool {
    &&& file.path == path_below(parent, node)
    &&& file.size == node.size
    &&& file.attributes == node.attributes
    &&& file.first_cluster == node.first_cluster
}

/// What visiting an entry does. One that does not count is passed. A
/// directory that was not entered before is to be listed, under the path of
/// the directory that names it and its own name, and its clusters are those
/// of a directory. A file is found, under such a path, with the chain of its
/// clusters; where that is not as long as its size asks for, something speaks
/// against the volume.
pub proof fn lemma_entries_are_visited(
    medium: Medium,
    findings: Findings,
    parent: Seq<u8>,
    node: DirNodeView,
    chain: Seq<u32>,
    place: u64,
)
    requires
        medium.geometry.cluster_size > 0,
        fat_table::chain_of(
            medium.fat,
            medium.kind,
            node.first_cluster,
            medium.geometry.count_of_clusters,
        ) == Ok::<Seq<u32>, ErrorView>(chain),
        classic_fat::entry_offset_of(medium.geometry, medium.kind, medium.fat, node.id) == Ok::<
            u64,
            ErrorView,
        >(place),
    ensures
        ({
            let (found, visit) = classic_fat::visited(medium, findings, parent, node);
            &&& !counts(node) ==> found == findings && visit == Visit::Next
            &&& counts(node) && node.is_dir && node.first_cluster >= 2 && !findings.seen.contains(
                node.first_cluster,
            ) ==> {
                &&& visit == (Visit::Descend { id: node.id, path: path_below(parent, node) })
                &&& found.files == findings.files
                &&& found.seen == findings.seen.insert(node.first_cluster)
                &&& forall|c: u32| #[trigger]
                    found.directories.contains(c) <==> findings.directories.contains(c)
                        || chain.contains(c)
            }
            &&& counts(node) && node.is_dir && (node.first_cluster < 2 || findings.seen.contains(
                node.first_cluster,
            )) ==> {
                &&& visit == Visit::Next
                &&& found.files == findings.files
                &&& found.directories == findings.directories
                &&& found.issues.len() == findings.issues.len() + 1
            }
            &&& counts(node) && !node.is_dir ==> {
                &&& visit == Visit::Next
                &&& found.files.len() == findings.files.len() + 1
                &&& found.files.drop_last() == findings.files
                &&& is_file_of(found.files.last(), parent, node)
                &&& found.files.last().chain == chain
                &&& found.files.last().entry_offset == place
                &&& found.directories == findings.directories
                &&& found.seen == findings.seen
                &&& found.issues.len() == 0 ==> {
                    &&& chain.len() * medium.geometry.cluster_size >= node.size
                    &&& chain.len() * medium.geometry.cluster_size < node.size
                        + medium.geometry.cluster_size
                }
            }
        }),
{
    let child = path_below(parent, node);
    let entered = Findings { seen: findings.seen.insert(node.first_cluster), ..findings };
    let length = chain.len() as int;
    lemma_registering(entered, chain, "directory "@ + path::lossy_text(child), length);
    let need = arith::ceil_div(node.size as int, medium.geometry.cluster_size as int);
    arith::lemma_ceil_div(node.size as int, medium.geometry.cluster_size as int);
    let measured = Findings {
        issues: if chain.len() == need {
            findings.issues
        } else {
            findings.issues.push(
                classic_fat::wrong_length_text(child, chain.len(), need as nat),
            )
        },
        ..findings
    };
    lemma_registering(measured, chain, "file "@ + path::lossy_text(child), length);
    let owned = classic_fat::registered(measured, chain, "file "@ + path::lossy_text(child), length);
    let found = classic_fat::visited(medium, findings, parent, node).0;
    if counts(node) && !node.is_dir {
        assert(found.files.drop_last() =~= owned.files);
    }
}

/// Giving clusters an owner changes nothing but owners and complaints, and
/// drops no complaint; each of the clusters has an owner then.
proof fn lemma_registering(findings: Findings, clusters: Seq<u32>, owner: Seq<char>, n: int)
    requires
        n <= clusters.len(),
    ensures
        ({
            let after = classic_fat::registered(findings, clusters, owner, n);
            &&& after.seen == findings.seen
            &&& after.directories == findings.directories
            &&& after.files == findings.files
            &&& after.issues.len() >= findings.issues.len()
            &&& forall|i: int| 0 <= i < n ==> after.owners.contains_key(#[trigger] clusters[i])
            &&& forall|c: u32|
                findings.owners.contains_key(c) ==> #[trigger] after.owners.contains_key(c)
        }),
    decreases n,
{
    if n > 0 {
        lemma_registering(findings, clusters, owner, n - 1);
    }
}

/// Whether an entry of one of the directories on a stack names a path.
pub open spec fn is_named(frames: Seq<FrameView>, path: Seq<u8>, is_dir: bool) -> bool {
    exists|f: int, n: int|
        0 <= f < frames.len() && 0 <= n < frames[f].nodes.len() && {
            let node = #[trigger] frames[f].nodes[n];
            &&& counts(node)
            &&& node.is_dir == is_dir
            &&& path == path_below(frames[f].path, node)
        }
}

/// Whether the directories of a stack are those of another, with some of
/// their entries done.
pub open spec fn is_left_of(rest: Seq<FrameView>, frames: Seq<FrameView>) -> bool {
    &&& rest.len() <= frames.len()
    &&& forall|f: int|
        0 <= f < rest.len() ==> {
            &&& (#[trigger] rest[f]).path == frames[f].path
            &&& rest[f].nodes.len() <= frames[f].nodes.len()
            &&& rest[f].nodes == frames[f].nodes.skip(
                frames[f].nodes.len() - rest[f].nodes.len(),
            )
        }
}

proof fn lemma_named_before(frames: Seq<FrameView>, less: Seq<FrameView>, path: Seq<u8>, dir: bool)
    requires
        is_left_of(less, frames),
        is_named(less, path, dir),
    ensures
        is_named(frames, path, dir),
{
    let (f, n) = choose|f: int, n: int|
        0 <= f < less.len() && 0 <= n < less[f].nodes.len() && {
            let node = #[trigger] less[f].nodes[n];
            &&& counts(node)
            &&& node.is_dir == dir
            &&& path == path_below(less[f].path, node)
        };
    let skipped = frames[f].nodes.len() - less[f].nodes.len();
    assert(less[f].path == frames[f].path);
    assert(frames[f].nodes[skipped + n] == less[f].nodes[n]);
}

proof fn lemma_left_of_left(a: Seq<FrameView>, b: Seq<FrameView>, c: Seq<FrameView>)
    requires
        is_left_of(a, b),
        is_left_of(b, c),
    ensures
        is_left_of(a, c),
{
    assert forall|f: int| 0 <= f < a.len() implies {
        &&& (#[trigger] a[f]).path == c[f].path
        &&& a[f].nodes.len() <= c[f].nodes.len()
        &&& a[f].nodes == c[f].nodes.skip(c[f].nodes.len() - a[f].nodes.len())
    } by {
        assert(a[f].path == b[f].path);
        assert(b[f].path == c[f].path);
        assert(a[f].nodes =~= c[f].nodes.skip(c[f].nodes.len() - a[f].nodes.len()));
    }
}

proof fn lemma_first_is_done(frames: Seq<FrameView>)
    requires
        frames.len() > 0,
    ensures
        frames.last().nodes.len() > 0 ==> is_left_of(classic_fat::after_first(frames), frames),
        is_left_of(frames.drop_last(), frames),
{
    if frames.last().nodes.len() > 0 {
        let rest = classic_fat::after_first(frames);
        assert forall|f: int| 0 <= f < rest.len() implies {
            &&& (#[trigger] rest[f]).path == frames[f].path
            &&& rest[f].nodes.len() <= frames[f].nodes.len()
            &&& rest[f].nodes == frames[f].nodes.skip(frames[f].nodes.len() - rest[f].nodes.len())
        } by {
            if f < frames.len() - 1 {
                assert(rest[f] == frames[f]);
                assert(frames[f].nodes.skip(0) =~= frames[f].nodes);
            }
        }
    }
    let less = frames.drop_last();
    assert forall|f: int| 0 <= f < less.len() implies {
        &&& (#[trigger] less[f]).path == frames[f].path
        &&& less[f].nodes.len() <= frames[f].nodes.len()
        &&& less[f].nodes == frames[f].nodes.skip(frames[f].nodes.len() - less[f].nodes.len())
    } by {
        assert(frames[f].nodes.skip(0) =~= frames[f].nodes);
    }
}

proof fn lemma_visit_finds(medium: Medium, findings: Findings, parent: Seq<u8>, node: DirNodeView)
    ensures
        ({
            let (found, visit) = classic_fat::visited(medium, findings, parent, node);
            &&& findings.files.len() <= found.files.len() <= findings.files.len() + 1
            &&& found.files.take(findings.files.len() as int) == findings.files
            &&& found.files.len() > findings.files.len() ==> counts(node) && !node.is_dir
                && is_file_of(found.files.last(), parent, node)
            &&& visit matches Visit::Descend { id, path } ==> counts(node) && node.is_dir && id
                == node.id && path == path_below(parent, node)
            &&& visit == Visit::Next && counts(node) && !node.is_dir ==> found.files.len()
                > findings.files.len()
        }),
{
    let child = path_below(parent, node);
    let found = classic_fat::visited(medium, findings, parent, node).0;
    match fat_table::chain_of(
        medium.fat,
        medium.kind,
        node.first_cluster,
        medium.geometry.count_of_clusters,
    ) {
        Ok(chain) => {
            let entered = Findings { seen: findings.seen.insert(node.first_cluster), ..findings };
            let length = chain.len() as int;
            lemma_registering(entered, chain, "directory "@ + path::lossy_text(child), length);
            let need = arith::ceil_div(node.size as int, medium.geometry.cluster_size as int);
            let measured = Findings {
                issues: if chain.len() == need {
                    findings.issues
                } else {
                    findings.issues.push(
                        classic_fat::wrong_length_text(child, chain.len(), need as nat),
                    )
                },
                ..findings
            };
            lemma_registering(measured, chain, "file "@ + path::lossy_text(child), length);
        },
        Err(_) => {},
    }
    assert(found.files.take(findings.files.len() as int) =~= findings.files);
}

/// A walk names what it finds by its path: a directory that it asks to be
/// listed, and each file that it finds, has the path of a directory on the
/// stack and below it the name that an entry of that directory gives it. No
/// file that was found before is lost.
pub proof fn lemma_walk_names_what_it_finds(
    medium: Medium,
    findings: Findings,
    frames: Seq<FrameView>,
)
    ensures
        ({
            let (found, rest, outcome) = classic_fat::walked(medium, findings, frames);
            &&& outcome matches Ok(Wanted::Listing { id, path }) ==> is_named(frames, path, true)
            &&& findings.files.len() <= found.files.len()
            &&& found.files.take(findings.files.len() as int) == findings.files
            &&& forall|k: int|
                findings.files.len() <= k < found.files.len() ==> is_named(
                    frames,
                    (#[trigger] found.files[k]).path,
                    false,
                )
            &&& is_left_of(rest, frames)
        }),
    decreases classic_fat::steps_left(frames),
{
    let (found, rest, outcome) = classic_fat::walked(medium, findings, frames);
    let old_len = findings.files.len() as int;
    if frames.len() == 0 {
        assert(found.files.take(old_len) =~= findings.files);
    } else if frames.last().nodes.len() == 0 {
        let less = frames.drop_last();
        lemma_first_is_done(frames);
        lemma_walk_names_what_it_finds(medium, findings, less);
        lemma_left_of_left(rest, less, frames);
        if let Ok(Wanted::Listing { id, path }) = outcome {
            lemma_named_before(frames, less, path, true);
        }
        assert forall|k: int| old_len <= k < found.files.len() implies is_named(
            frames,
            (#[trigger] found.files[k]).path,
            false,
        ) by {
            lemma_named_before(frames, less, found.files[k].path, false);
        }
    } else {
        let less = classic_fat::after_first(frames);
        let node = frames.last().nodes[0];
        let (met, visit) = classic_fat::visited(medium, findings, frames.last().path, node);
        lemma_first_is_done(frames);
        lemma_visit_finds(medium, findings, frames.last().path, node);
        assert(frames[frames.len() - 1].nodes[0] == node);
        assert(less.drop_last() =~= frames.drop_last());
        if met.files.len() > old_len {
            assert(is_named(frames, met.files.last().path, false));
        }
        if visit == Visit::Next {
            lemma_walk_names_what_it_finds(medium, met, less);
            lemma_left_of_left(rest, less, frames);
            if let Ok(Wanted::Listing { id, path }) = outcome {
                lemma_named_before(frames, less, path, true);
            }
            assert(found.files.take(old_len) =~= findings.files) by {
                assert(found.files.take(met.files.len() as int).take(old_len) =~= found.files.take(
                    old_len,
                ));
            }
            assert forall|k: int| old_len <= k < found.files.len() implies is_named(
                frames,
                (#[trigger] found.files[k]).path,
                false,
            ) by {
                if k < met.files.len() {
                    assert(found.files.take(met.files.len() as int)[k] == met.files[k]);
                    assert(met.files[k] == met.files.last());
                } else {
                    lemma_named_before(frames, less, found.files[k].path, false);
                }
            }
        }
    }
}

/// Whether one of the files is that of an entry.
pub open spec fn is_found(files: Seq<RawFileView>, parent: Seq<u8>, node: DirNodeView) -> bool {
    exists|k: int| 0 <= k < files.len() && is_file_of(#[trigger] files[k], parent, node)
}

proof fn lemma_still_found(
    files: Seq<RawFileView>,
    more: Seq<RawFileView>,
    parent: Seq<u8>,
    node: DirNodeView,
)
    requires
        is_found(files, parent, node),
        files.len() <= more.len(),
        more.take(files.len() as int) == files,
    ensures
        is_found(more, parent, node),
{
    let k = choose|k: int| 0 <= k < files.len() && is_file_of(#[trigger] files[k], parent, node);
    assert(more.take(files.len() as int)[k] == more[k]);
}

/// A walk misses no file: each entry of a directory on the stack that counts
/// and is no directory is found, with its path and size, or is still to be
/// visited when the walk asks for a listing. When everything was visited,
/// none is left.
pub proof fn lemma_walk_misses_no_file(
    medium: Medium,
    findings: Findings,
    frames: Seq<FrameView>,
    f: int,
    n: int,
)
    requires
        0 <= f < frames.len(),
        0 <= n < frames[f].nodes.len(),
        counts(frames[f].nodes[n]),
        !frames[f].nodes[n].is_dir,
    ensures
        ({
            let (found, rest, outcome) = classic_fat::walked(medium, findings, frames);
            let node = frames[f].nodes[n];
            &&& outcome is Ok ==> is_found(found.files, frames[f].path, node) || (f < rest.len()
                && rest[f].nodes.contains(node))
            &&& outcome == Ok::<Wanted, ErrorView>(Wanted::Nothing) ==> is_found(
                found.files,
                frames[f].path,
                node,
            ) && rest.len() == 0
        }),
    decreases classic_fat::steps_left(frames),
{
    let (found, rest, outcome) = classic_fat::walked(medium, findings, frames);
    let node = frames[f].nodes[n];
    if frames.last().nodes.len() == 0 {
        let less = frames.drop_last();
        assert(less[f] == frames[f]);
        lemma_walk_misses_no_file(medium, findings, less, f, n);
    } else {
        let less = classic_fat::after_first(frames);
        let first = frames.last().nodes[0];
        let (met, visit) = classic_fat::visited(medium, findings, frames.last().path, first);
        lemma_visit_finds(medium, findings, frames.last().path, first);
        assert(less.drop_last() =~= frames.drop_last());
        if f == frames.len() - 1 && n == 0 {
            if visit == Visit::Next {
                assert(is_found(met.files, frames[f].path, node));
                lemma_walk_names_what_it_finds(medium, met, less);
                lemma_still_found(met.files, found.files, frames[f].path, node);
                lemma_walk_ends_empty(medium, met, less);
            }
        } else {
            let at = if f == frames.len() - 1 {
                n - 1
            } else {
                n
            };
            assert(less[f].path == frames[f].path);
            assert(less[f].nodes[at] == node);
            if visit == Visit::Next {
                lemma_walk_misses_no_file(medium, met, less, f, at);
            } else {
                assert(less[f].nodes.contains(node));
            }
        }
    }
}

proof fn lemma_walk_ends_empty(medium: Medium, findings: Findings, frames: Seq<FrameView>)
    ensures
        ({
            let (found, rest, outcome) = classic_fat::walked(medium, findings, frames);
            outcome == Ok::<Wanted, ErrorView>(Wanted::Nothing) ==> rest.len() == 0
        }),
    decreases classic_fat::steps_left(frames),
{
    if frames.len() > 0 {
        if frames.last().nodes.len() == 0 {
            lemma_walk_ends_empty(medium, findings, frames.drop_last());
        } else {
            let less = classic_fat::after_first(frames);
            assert(less.drop_last() =~= frames.drop_last());
            let (met, visit) = classic_fat::visited(
                medium,
                findings,
                frames.last().path,
                frames.last().nodes[0],
            );
            if visit == Visit::Next {
                lemma_walk_ends_empty(medium, met, less);
            }
        }
    }
}

/// The components of what a walk names are those of its directory, and then
/// its own name: where a directory has the names of the directories on the
/// way to it as its components, so has everything below it.
pub proof fn lemma_paths_spell_the_way(parent: Seq<u8>, node: DirNodeView)
    requires
        parent.len() > 0,
        path_laws::is_name(encode_utf8(node.name)),
    ensures
        path::components(path_below(parent, node)).0 == path::components(parent).0,
        path::components(path_below(parent, node)).1 == path::components(parent).1.push(
            encode_utf8(node.name),
        ),
{
    path_laws::lemma_joined_name_is_last(parent, encode_utf8(node.name));
}

// ---------------------------------------------------------------------
// The survey of the clusters
// ---------------------------------------------------------------------

/// Whether a survey says of a cluster what its entry says: it is free where
/// the entry is zero, and bad where the entry marks it so. Where nothing
/// speaks against the volume, every other cluster has an owner and leads to a
/// cluster of the volume or ends its chain.
pub open spec fn is_surveyed(
    medium: Medium,
    owners: Map<u32, Seq<char>>,
    survey: Survey,
    cluster: u32,
) -> bool {
    let end = medium.geometry.count_of_clusters + 2;
    fat_table::entry_of(medium.fat, medium.kind, cluster) matches Some(value) && {
        &&& survey.free.contains(cluster) <==> value == 0
        &&& survey.bad.contains(cluster) <==> fat_table::marks_bad(medium.kind, value)
        &&& survey.issues.len() == 0 && value != 0 && !fat_table::marks_bad(medium.kind, value) ==> {
            &&& owners.contains_key(cluster)
            &&& fat_table::ends_chain(medium.kind, value) || 2 <= value < end
        }
    }
}

proof fn lemma_survey_grows(medium: Medium, owners: Map<u32, Seq<char>>, cluster: u32, end: int)
    requires
        medium.geometry.count_of_clusters < u32::MAX - 2,
        2 <= cluster < end <= medium.geometry.count_of_clusters + 2,
        classic_fat::surveyed(medium, owners, end) is Ok,
    ensures
        is_surveyed(medium, owners, classic_fat::surveyed(medium, owners, end)->Ok_0, cluster),
    decreases end,
{
    let last = (end - 1) as u32;
    let before = classic_fat::surveyed(medium, owners, end - 1)->Ok_0;
    let after = classic_fat::surveyed(medium, owners, end)->Ok_0;
    let value = fat_table::entry_of(medium.fat, medium.kind, last)->0;
    lemma_survey_stays_below(medium, owners, end - 1);
    if value == 0 {
        assert(after.free == before.free.push(last));
        assert(after.free[before.free.len() as int] == last);
        assert forall|c: u32| c != last implies #[trigger] after.free.contains(c)
            == before.free.contains(c) by {
            if before.free.contains(c) {
                let i = choose|i: int| 0 <= i < before.free.len() && before.free[i] == c;
                assert(after.free[i] == c);
            }
            if after.free.contains(c) {
                let i = choose|i: int| 0 <= i < after.free.len() && after.free[i] == c;
                assert(i < before.free.len());
                assert(before.free[i] == c);
            }
        }
    }
    if cluster < last {
        lemma_survey_grows(medium, owners, cluster, end - 1);
    }
}

proof fn lemma_survey_stays_below(medium: Medium, owners: Map<u32, Seq<char>>, end: int)
    requires
        end <= u32::MAX,
        classic_fat::surveyed(medium, owners, end) is Ok,
    ensures
        forall|c: u32| #[trigger]
            classic_fat::surveyed(medium, owners, end)->Ok_0.free.contains(c) ==> 2 <= c < end,
        forall|c: u32| #[trigger]
            classic_fat::surveyed(medium, owners, end)->Ok_0.bad.contains(c) ==> 2 <= c < end,
    decreases end,
{
    if end > 2 {
        lemma_survey_stays_below(medium, owners, end - 1);
        let before = classic_fat::surveyed(medium, owners, end - 1)->Ok_0;
        let after = classic_fat::surveyed(medium, owners, end)->Ok_0;
        let last = (end - 1) as u32;
        assert forall|c: u32| #[trigger] after.free.contains(c) implies 2 <= c < end by {
            let i = choose|i: int| 0 <= i < after.free.len() && after.free[i] == c;
            if i < before.free.len() {
                assert(before.free[i] == c);
                assert(before.free.contains(c));
            } else {
                assert(c == last);
            }
        }
    }
}

/// A snapshot says of every cluster what the table says of it, and takes over
/// the files and directories that the walk found. Where nothing speaks against
/// the volume, every cluster in use belongs to something and no chain leads
/// out of the volume.
pub proof fn lemma_snapshot_says_what_the_table_says(
    medium: Medium,
    boot: Seq<u8>,
    findings: Findings,
    cluster: u32,
)
    requires
        medium.geometry.count_of_clusters < u32::MAX - 2,
        2 <= cluster < medium.geometry.count_of_clusters + 2,
    ensures
        classic_fat::snapshot_of(medium, boot, findings) matches Ok(s) ==> {
            &&& s.kind == medium.kind
            &&& s.geometry == medium.geometry
            &&& s.fat == medium.fat
            &&& s.boot == boot
            &&& s.files == findings.files
            &&& s.directory_clusters == findings.directories
            &&& findings.issues.is_prefix_of(s.writable_issues)
            &&& fat_table::entry_of(medium.fat, medium.kind, cluster) matches Some(value) && {
                &&& s.free_clusters.contains(cluster) <==> value == 0
                &&& s.bad_clusters.contains(cluster) <==> fat_table::marks_bad(medium.kind, value)
                &&& s.writable_issues.len() == 0 && value != 0 && !fat_table::marks_bad(
                    medium.kind,
                    value,
                ) ==> {
                    &&& findings.owners.contains_key(cluster)
                    &&& fat_table::ends_chain(medium.kind, value) || 2 <= value
                        < medium.geometry.count_of_clusters + 2
                }
            }
        },
{
    let end = medium.geometry.count_of_clusters + 2;
    if let Ok(s) = classic_fat::snapshot_of(medium, boot, findings) {
        lemma_survey_grows(medium, findings.owners, cluster, end);
        let survey = classic_fat::surveyed(medium, findings.owners, end)->Ok_0;
        assert(s.writable_issues == findings.issues + survey.issues);
        assert(findings.issues =~= s.writable_issues.subrange(0, findings.issues.len() as int));
    }
}

// ---------------------------------------------------------------------
// The report
// ---------------------------------------------------------------------

/// How many runs the clusters of a chain form: one, and one more wherever a
/// cluster is not the next on the device.
pub open spec fn chain_runs(chain: Seq<u32>) -> nat
    decreases chain.len(),
{
    if chain.len() == 0 {
        0
    } else if chain.len() == 1 {
        1
    } else {
        chain_runs(chain.drop_last()) + (if chain[chain.len() - 1] == chain[chain.len() - 2] + 1 {
            0nat
        } else {
            1
        })
    }
}

/// Whether every cluster of a chain lies in a data area whose bytes can be
/// counted.
pub open spec fn lies_in(geometry: Geometry, chain: Seq<u32>) -> bool {
    &&& geometry.cluster_size > 0
    &&& geometry.count_of_clusters < u32::MAX - 2
    &&& geometry.data_start + geometry.count_of_clusters * geometry.cluster_size <= u64::MAX
    &&& chain.len() <= geometry.count_of_clusters
    &&& forall|i: int|
        0 <= i < chain.len() ==> 2 <= #[trigger] chain[i] < geometry.count_of_clusters + 2
}

proof fn lemma_place(geometry: Geometry, cluster: u32)
    requires
        geometry.data_start + geometry.count_of_clusters * geometry.cluster_size <= u64::MAX,
        2 <= cluster < geometry.count_of_clusters + 2,
    ensures
        raw_report::place_of(geometry, cluster) == geometry.data_start + (cluster - 2)
            * geometry.cluster_size,
        raw_report::place_of(geometry, cluster) + geometry.cluster_size <= u64::MAX,
{
    assert(0 <= (cluster - 2) * geometry.cluster_size && (cluster - 2) * geometry.cluster_size
        + geometry.cluster_size <= geometry.count_of_clusters * geometry.cluster_size)
        by (nonlinear_arith)
        requires
            0 <= cluster - 2 < geometry.count_of_clusters,
            geometry.cluster_size >= 0,
    ;
}

proof fn lemma_same_place(geometry: Geometry, a: u32, b: u32)
    requires
        geometry.cluster_size > 0,
        geometry.data_start + geometry.count_of_clusters * geometry.cluster_size <= u64::MAX,
        2 <= a < geometry.count_of_clusters + 2,
        2 <= b < geometry.count_of_clusters + 2,
    ensures
        raw_report::place_of(geometry, a) + geometry.cluster_size == raw_report::place_of(
            geometry,
            b,
        ) <==> b == a + 1,
{
    lemma_place(geometry, a);
    lemma_place(geometry, b);
    let size = geometry.cluster_size as int;
    assert((a - 2) * size + size == (b - 2) * size <==> b == a + 1) by (nonlinear_arith)
        requires
            size > 0,
    ;
}

/// The extents of a chain end where its last cluster does, and none goes on
/// where the one before it ends.
proof fn lemma_chain_extents(geometry: Geometry, chain: Seq<u32>)
    requires
        lies_in(geometry, chain),
    ensures
        ({
            let list = raw_report::chain_extents(geometry, chain);
            &&& list.len() == chain_runs(chain)
            &&& chain.len() > 0 ==> list.len() > 0
            &&& chain.len() > 0 ==> list.last().physical + list.last().length
                == raw_report::place_of(geometry, chain.last()) + geometry.cluster_size
            &&& chain.len() > 0 ==> list.last().logical + list.last().length == chain.len()
                * geometry.cluster_size
            &&& forall|i: int|
                0 <= i < list.len() ==> (#[trigger] list[i]).logical + list[i].length <= u64::MAX
                    && list[i].physical + list[i].length <= u64::MAX && list[i].flags == 0
            &&& forall|i: int|
                0 < i < list.len() ==> list[i - 1].physical + list[i - 1].length != (
                #[trigger] list[i]).physical
        }),
    decreases chain.len(),
{
    if chain.len() > 0 {
        let rest = chain.drop_last();
        assert forall|i: int| 0 <= i < rest.len() implies 2 <= #[trigger] rest[i]
            < geometry.count_of_clusters + 2 by {
            assert(rest[i] == chain[i]);
        }
        lemma_chain_extents(geometry, rest);
        let before = raw_report::chain_extents(geometry, rest);
        let after = raw_report::chain_extents(geometry, chain);
        let size = geometry.cluster_size as int;
        assert(chain[chain.len() - 1] == chain.last());
        lemma_place(geometry, chain.last());
        assert(chain.len() * size == rest.len() * size + size) by (nonlinear_arith)
            requires
                chain.len() == rest.len() + 1,
        ;
        assert(0 <= rest.len() * size && chain.len() * size <= geometry.count_of_clusters * size)
            by (nonlinear_arith)
            requires
                0 <= rest.len(),
                chain.len() <= geometry.count_of_clusters,
                size > 0,
        ;
        if rest.len() > 0 {
            assert(rest.last() == chain[chain.len() - 2]);
            assert(2 <= chain[chain.len() - 2]);
            lemma_same_place(geometry, rest.last(), chain.last());
        } else {
            assert(before =~= Seq::empty());
        }
        assert forall|i: int| 0 < i < after.len() implies after[i - 1].physical + after[i
            - 1].length != (#[trigger] after[i]).physical by {
            if i < before.len() {
                assert(before[i - 1].physical + before[i - 1].length != before[i].physical);
                assert(after[i - 1] == before[i - 1]);
                assert(after[i].physical == before[i].physical);
            } else {
                assert(after[i - 1] == before.last());
            }
        }
    }
}

proof fn lemma_all_are_runs(list: Seq<crate::linux::FileExtent>, n: int)
    requires
        0 <= n <= list.len(),
        forall|i: int|
            0 <= i < list.len() ==> (#[trigger] list[i]).physical + list[i].length <= u64::MAX,
        forall|i: int|
            0 < i < list.len() ==> list[i - 1].physical + list[i - 1].length != (
            #[trigger] list[i]).physical,
    ensures
        extents::runs_before(list, n) == n,
    decreases n,
{
    if n > 0 {
        lemma_all_are_runs(list, n - 1);
        if n > 1 {
            assert(list[n - 2].physical + list[n - 2].length <= u64::MAX);
            assert(list[n - 2].physical + list[n - 2].length != list[n - 1].physical);
        }
    }
}

/// A file that was read from its device has as many runs as its chain of
/// clusters has pieces; every piece more than one is one too many. It has the
/// path and the size that the walk found, and the bytes of its clusters.
pub proof fn lemma_broken_chains_are_fragmented(geometry: Geometry, file: RawFileView)
    requires
        lies_in(geometry, file.chain),
    ensures
        ({
            let report = raw_report::raw_file_report(geometry, file);
            &&& report.path == file.path
            &&& report.logical_bytes == file.size
            &&& report.physical_runs == chain_runs(file.chain)
            &&& report.allocated_bytes == file.chain.len() * geometry.cluster_size
            &&& file.chain.len() > 0 ==> report.minimum_runs == 1 && report.excess_runs
                == chain_runs(file.chain) - 1
            &&& report.eligible_for_plan <==> file.chain.len() > 0
        }),
{
    let list = raw_report::chain_extents(geometry, file.chain);
    let size = geometry.cluster_size as int;
    lemma_chain_extents(geometry, file.chain);
    lemma_all_are_runs(list, list.len() as int);
    lemma_runs_fit(file.chain);
    assert(0 <= file.chain.len() * size <= geometry.count_of_clusters * size) by (nonlinear_arith)
        requires
            0 <= file.chain.len() <= geometry.count_of_clusters,
            size > 0,
    ;
    raw_report::lemma_chain_bytes_are_held(geometry, file);
    assert(file.chain.len() > 0 ==> file.chain.len() * size > 0) by (nonlinear_arith)
        requires
            size > 0,
    ;
    assert(file.chain.len() == 0 ==> file.chain.len() * size == 0) by (nonlinear_arith);
    lemma_chain_holds(geometry, file);
    file_laws::lemma_movable_files_are_eligible(
        file.path,
        raw_report::raw_facts(geometry, file),
        Ok(0),
        list,
    );
    assert forall|i: int| 0 <= i < list.len() implies (#[trigger] list[i]).flags & 0x0000_0f8eu32
        == 0 by {
        assert(list[i].flags == 0);
        assert(0u32 & 0x0000_0f8eu32 == 0) by (bit_vector);
    }
    file_laws::lemma_reports_count_extents(
        file.path,
        raw_report::raw_facts(geometry, file),
        Ok(0),
        list,
    );
}

proof fn lemma_chain_holds(geometry: Geometry, file: RawFileView)
    requires
        file.chain.len() * geometry.cluster_size <= u64::MAX,
    ensures
        file_laws::held(raw_report::chain_extents(geometry, file.chain)) == file.chain.len()
            * geometry.cluster_size,
    decreases file.chain.len(),
{
    let chain = file.chain;
    if chain.len() > 0 {
        let rest = RawFileView { chain: chain.drop_last(), ..file };
        let before = raw_report::chain_extents(geometry, rest.chain);
        let after = raw_report::chain_extents(geometry, chain);
        assert(chain.len() * geometry.cluster_size == rest.chain.len() * geometry.cluster_size
            + geometry.cluster_size) by (nonlinear_arith)
            requires
                chain.len() == rest.chain.len() + 1,
        ;
        lemma_chain_holds(geometry, rest);
        if after.len() == before.len() {
            assert(after.drop_last() =~= before.drop_last());
        } else {
            assert(after.drop_last() =~= before);
        }
    } else {
        assert(0 * geometry.cluster_size == 0) by (nonlinear_arith);
    }
}

proof fn lemma_runs_fit(chain: Seq<u32>)
    ensures
        chain_runs(chain) <= chain.len(),
        chain.len() > 0 ==> chain_runs(chain) >= 1,
    decreases chain.len(),
{
    if chain.len() > 1 {
        lemma_runs_fit(chain.drop_last());
    }
}

/// The report on a volume that was read from its device lists each file of
/// the snapshot, counts them and their bytes, and says that it is complete
/// exactly where nothing speaks against the volume; what does is among its
/// warnings.
pub proof fn lemma_raw_report_lists_the_files(s: SnapshotView, volume: VolumeView, i: int)
    requires
        s.files.len() <= usize::MAX,
        0 <= i < s.files.len(),
    ensures
        ({
            let report = raw_report::raw_report(s, volume);
            let files = raw_report::raw_file_reports(s.geometry, s.files);
            &&& report.volume == volume
            &&& report.files.len() == s.files.len()
            &&& report.files.contains(raw_report::raw_file_report(s.geometry, s.files[i]))
            &&& files.contains(report.files[i])
            &&& report.coverage.files_scanned == s.files.len()
            &&& report.coverage.skipped_entries == 0
            &&& report.warnings == s.writable_issues
            &&& report.completeness == AnalysisCompleteness::Complete <==> s.writable_issues.len()
                == 0
        }),
{
    let files = raw_report::raw_file_reports(s.geometry, s.files);
    let keys = scan::file_keys(files);
    let order = plan_laws::lemma_sort_is_an_order(keys, files);
    let out = scan::listed(files);
    assert(order.contains(i as usize));
    let at = choose|at: int| 0 <= at < order.len() && order[at] == i as usize;
    assert(out[at] == files[i]);
    assert(out[i] == files[order[i] as int]);
}

} // verus!
