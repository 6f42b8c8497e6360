//! Snapshots of classic FAT volumes: who owns each cluster, what the drive
//! map shows of them, and whether the volume is sound enough to be written.

use std::collections::{HashMap, HashSet};

use vstd::prelude::*;
use vstd::utf8::*;

use crate::arith;
use crate::cluster_set::ClusterSet;
use crate::error;
use crate::error::{ErrorView, ServiceError};
use crate::fat_table;
use crate::fat_table::ClassicKind;
use crate::linux::{FsMapKind, FsMapRange, MetadataKind};
use crate::path;
use crate::path::FsPath;
use crate::text;
use crate::views;

verus! {

// ---------------------------------------------------------------------
// Geometry
// ---------------------------------------------------------------------

/// The layout that a volume's boot sector announces.
#[derive(Clone, Copy, Debug, PartialEq, Eq, Structural)]
pub enum FatVariant {
    Fat12,
    Fat16,
    Fat32,
    ExFat,
}

/// Where the parts of a volume lie.
#[derive(Clone, Copy, Debug, PartialEq, Eq, Structural)]
pub struct Geometry {
    pub bytes_per_sector: u32,
    pub cluster_size: u32,
    pub num_fats: u8,
    pub fat_start: u64,
    pub fat_size_sectors: u32,
    pub root_dir_start: u64,
    pub root_dir_bytes: u32,
    pub root_cluster: u32,
    pub data_start: u64,
    pub count_of_clusters: u32,
}

impl Geometry {
    /// The size of one copy of the allocation table.
    pub open spec fn table_bytes(self) -> int {
        self.fat_size_sectors * self.bytes_per_sector
    }

    /// Where a copy of the allocation table begins.
    pub open spec fn table_start(self, copy: int) -> int {
        arith::sat64(self.fat_start + arith::sat64(copy * self.table_bytes()))
    }

    /// Where a cluster of the data area begins.
    pub open spec fn offset_of(self, cluster: u32) -> Option<u64> {
        let at = self.data_start + (cluster - 2) * self.cluster_size;
        if 2 <= cluster < fat_table::cluster_end(self.count_of_clusters) && at <= u64::MAX {
            Some(at as u64)
        } else {
            None
        }
    }

    /// The size of one copy of the allocation table.
    pub fn fat_bytes(&self) -> (bytes: u64)
        ensures
            bytes == self.table_bytes(),
    {
        assert(self.fat_size_sectors * self.bytes_per_sector <= u32::MAX * u32::MAX)
            by (nonlinear_arith)
            requires
                self.fat_size_sectors <= u32::MAX,
                self.bytes_per_sector <= u32::MAX,
        ;
        self.fat_size_sectors as u64 * self.bytes_per_sector as u64
    }

    /// Where a copy of the allocation table begins.
    pub fn fat_copy_start(&self, copy: u8) -> (start: u64)
        ensures
            start == self.table_start(copy as int),
    {
        proof {
            assert(self.table_bytes() >= 0) by (nonlinear_arith)
                requires
                    self.table_bytes() == self.fat_size_sectors * self.bytes_per_sector,
            ;
            assert(copy * self.table_bytes() >= 0) by (nonlinear_arith)
                requires
                    self.table_bytes() >= 0,
            ;
        }
        self.fat_start.saturating_add(arith::saturating_mul(copy as u64, self.fat_bytes()))
    }

    /// Where a cluster of the data area begins.
    pub fn cluster_offset(&self, cluster: u32) -> (offset: Option<u64>)
        ensures
            offset == self.offset_of(cluster),
    {
        if cluster < 2 || cluster >= fat_table::end_of_clusters(self.count_of_clusters) {
            return None;
        }
        assert((cluster - 2) * self.cluster_size <= u32::MAX * u32::MAX) by (nonlinear_arith)
            requires
                2 <= cluster <= u32::MAX,
                self.cluster_size <= u32::MAX,
        ;
        assert(0 <= (cluster - 2) * self.cluster_size) by (nonlinear_arith)
            requires
                2 <= cluster,
                0 <= self.cluster_size,
        ;
        let within: u64 = (cluster - 2) as u64 * self.cluster_size as u64;
        self.data_start.checked_add(within)
    }
}

/// What must be read of a volume before its directories: the kind of the
/// volume, the size of a table and where each copy begins.
#[derive(Debug)]
pub struct TablePlan {
    pub kind: ClassicKind,
    pub table_bytes: usize,
    pub copies: Vec<u64>,
}

/// The kind of a classic volume.
pub open spec fn classic_kind(variant: FatVariant) -> Option<ClassicKind> {
    match variant {
        FatVariant::Fat12 => Some(ClassicKind::Fat12),
        FatVariant::Fat16 => Some(ClassicKind::Fat16),
        FatVariant::Fat32 => Some(ClassicKind::Fat32),
        FatVariant::ExFat => None,
    }
}

/// Plans the reading of the tables. The first copy is always read; each
/// further one is read to be held against it.
pub fn plan_tables(variant: FatVariant, geometry: &Geometry) -> (plan: Result<
    TablePlan,
    ServiceError,
>)
    ensures
        match plan {
            Ok(p) => {
                &&& classic_kind(variant) == Some(p.kind)
                &&& p.table_bytes == geometry.table_bytes()
                &&& p.copies@.len() == arith::max_int(geometry.num_fats as int, 1)
                &&& forall|i: int|
                    0 <= i < p.copies@.len() ==> #[trigger] p.copies@[i] == geometry.table_start(i)
            },
            Err(e) => if classic_kind(variant) is None {
                e@ == ErrorView::UnsafeFilesystem("exFAT is not a classic FAT volume"@)
            } else {
                geometry.table_bytes() > usize::MAX && e@ == ErrorView::UnsafeFilesystem(
                    "FAT is too large to validate in memory"@,
                )
            },
        },
{
    let kind: ClassicKind = match variant {
        FatVariant::Fat12 => ClassicKind::Fat12,
        FatVariant::Fat16 => ClassicKind::Fat16,
        FatVariant::Fat32 => ClassicKind::Fat32,
        FatVariant::ExFat => {
            return Err(error::unsafe_fs("exFAT is not a classic FAT volume".to_owned()));
        },
    };
    let bytes: u64 = geometry.fat_bytes();
    if bytes > usize::MAX as u64 {
        return Err(error::unsafe_fs("FAT is too large to validate in memory".to_owned()));
    }
    let mut copies: Vec<u64> = Vec::new();
    copies.push(geometry.fat_copy_start(0));
    let mut copy: u8 = 1;
    while copy < geometry.num_fats
        invariant
            1 <= copy,
            copy <= arith::max_int(geometry.num_fats as int, 1),
            copies@.len() == copy,
            forall|i: int|
                0 <= i < copies@.len() ==> #[trigger] copies@[i] == geometry.table_start(i),
        decreases geometry.num_fats - copy,
    {
        copies.push(geometry.fat_copy_start(copy));
        copy = copy + 1;
    }
    Ok(TablePlan { kind, table_bytes: bytes as usize, copies })
}

// ---------------------------------------------------------------------
// Soundness of the tables
// ---------------------------------------------------------------------

pub open spec fn copies_issues(num_fats: u8) -> Seq<Seq<char>> {
    if num_fats < 1 || num_fats > 2 {
        seq!["unsupported number of FAT copies: "@ + text::decimal(num_fats as nat)]
    } else {
        Seq::empty()
    }
}

/// A complaint about each further copy that differs from the first.
pub open spec fn mirror_issues(fat: Seq<u8>, mirrors: Seq<Seq<u8>>) -> Seq<Seq<char>>
    decreases mirrors.len(),
{
    if mirrors.len() == 0 {
        Seq::empty()
    } else {
        let before = mirror_issues(fat, mirrors.drop_last());
        if mirrors.last() == fat {
            before
        } else {
            before.push(
                "FAT copy "@ + text::decimal(mirrors.len() + 1) + " differs from FAT1"@,
            )
        }
    }
}

/// A complaint about a FAT32 volume whose copies are not kept equal.
pub open spec fn mirroring_issues(kind: ClassicKind, boot: Seq<u8>) -> Seq<Seq<char>> {
    if kind == ClassicKind::Fat32 && (arith::le_value(boot.subrange(40, 42)) as u16) & 0x0080u16
        != 0 {
        seq!["FAT32 mirroring is disabled and an active FAT is selected"@]
    } else {
        Seq::empty()
    }
}

/// The bit of the status entry that a clean shutdown leaves set.
pub open spec fn clean_bit(kind: ClassicKind) -> u32 {
    match kind {
        ClassicKind::Fat12 => 0,
        ClassicKind::Fat16 => 0x8000,
        ClassicKind::Fat32 => 0x0800_0000,
    }
}

/// The bit of the status entry that stays set while no disk error occurs.
pub open spec fn sound_bit(kind: ClassicKind) -> u32 {
    match kind {
        ClassicKind::Fat12 => 0,
        ClassicKind::Fat16 => 0x4000,
        ClassicKind::Fat32 => 0x0400_0000,
    }
}

/// Complaints about a volume that was not shut down cleanly or met a disk
/// error. FAT12 keeps no such status.
pub open spec fn status_issues(kind: ClassicKind, status: u32) -> Seq<Seq<char>> {
    if kind == ClassicKind::Fat12 {
        Seq::empty()
    } else {
        (if status & clean_bit(kind) == 0 {
            seq!["the FAT clean-shutdown bit is clear"@]
        } else {
            Seq::empty()
        }) + (if status & sound_bit(kind) == 0 {
            seq!["the FAT hard-error bit is clear"@]
        } else {
            Seq::empty()
        })
    }
}

/// The status entry; zero where the table lacks it.
pub open spec fn status_of(fat: Seq<u8>, kind: ClassicKind) -> u32 {
    match fat_table::entry_of(fat, kind, 1) {
        Some(value) => value,
        None => 0,
    }
}

/// Everything about the tables that speaks against writing the volume.
pub open spec fn table_issues_of(
    kind: ClassicKind,
    num_fats: u8,
    boot: Seq<u8>,
    fat: Seq<u8>,
    mirrors: Seq<Seq<u8>>,
) -> Seq<Seq<char>> {
    copies_issues(num_fats) + mirror_issues(fat, mirrors) + mirroring_issues(kind, boot)
        + status_issues(kind, status_of(fat, kind))
}

/// Collects everything about the tables that speaks against writing.
pub fn table_issues(
    kind: ClassicKind,
    num_fats: u8,
    boot: &Vec<u8>,
    fat: &Vec<u8>,
    mirrors: &Vec<Vec<u8>>,
) -> (issues: Vec<String>)
    requires
        boot@.len() == 512,
        mirrors@.len() + 1 == arith::max_int(num_fats as int, 1),
    ensures
        views::of(issues@) == table_issues_of(
            kind,
            num_fats,
            boot@,
            fat@,
            views::of(mirrors@),
        ),
{
    let mut issues: Vec<String> = Vec::new();
    if num_fats < 1 || num_fats > 2 {
        let mut message: String = "unsupported number of FAT copies: ".to_owned();
        text::push_decimal(&mut message, num_fats as u64);
        issues.push(message);
    }
    assert(views::of(issues@) =~= copies_issues(num_fats));
    let ghost copies = copies_issues(num_fats);
    let ghost all = views::of(mirrors@);
    let mut i: usize = 0;
    assert(all.take(0) =~= Seq::<Seq<u8>>::empty());
    assert(copies + Seq::<Seq<char>>::empty() =~= copies);
    while i < mirrors.len()
        invariant
            i <= mirrors@.len(),
            mirrors@.len() <= 255,
            all == views::of(mirrors@),
            views::of(issues@) == copies + mirror_issues(fat@, all.take(i as int)),
        decreases mirrors@.len() - i,
    {
        let ghost before = views::of(issues@);
        assert(all.take(i + 1).drop_last() =~= all.take(i as int));
        if !path::same_bytes(&mirrors[i], fat) {
            let mut message: String = "FAT copy ".to_owned();
            text::push_decimal(&mut message, i as u64 + 2);
            text::push_text(&mut message, " differs from FAT1");
            issues.push(message);
            assert(views::of(issues@) =~= before.push(message@));
        }
        i = i + 1;
        assert(views::of(issues@) =~= copies + mirror_issues(fat@, all.take(i as int)));
    }
    assert(all.take(i as int) =~= all);
    let ghost mirrored = copies + mirror_issues(fat@, all);
    if kind == ClassicKind::Fat32 {
        let ext_flags: u16 = arith::read_u16(boot, 40);
        if ext_flags & 0x0080u16 != 0 {
            issues.push("FAT32 mirroring is disabled and an active FAT is selected".to_owned());
        }
    }
    assert(views::of(issues@) =~= mirrored + mirroring_issues(kind, boot@));
    let ghost checked = mirrored + mirroring_issues(kind, boot@);
    let status: u32 = match fat_table::fat_entry(fat, kind, 1) {
        Some(value) => value,
        None => 0,
    };
    let clean: u32 = match kind {
        ClassicKind::Fat12 => 0,
        ClassicKind::Fat16 => 0x8000,
        ClassicKind::Fat32 => 0x0800_0000,
    };
    let sound: u32 = match kind {
        ClassicKind::Fat12 => 0,
        ClassicKind::Fat16 => 0x4000,
        ClassicKind::Fat32 => 0x0400_0000,
    };
    if kind != ClassicKind::Fat12 {
        if status & clean == 0 {
            issues.push("the FAT clean-shutdown bit is clear".to_owned());
        }
        if status & sound == 0 {
            issues.push("the FAT hard-error bit is clear".to_owned());
        }
    }
    assert(views::of(issues@) =~= checked + status_issues(kind, status));
    issues
}

// ---------------------------------------------------------------------
// Directory entries
// ---------------------------------------------------------------------

/// Identifies a directory entry: the root, or the entry with a number in the
/// directory that begins at a cluster.
#[derive(Clone, Copy, Debug, PartialEq, Eq, Structural)]
pub enum EntryId {
    Root,
    Entry { dir_cluster: u32, index: u32 },
}

/// The first cluster that stands for the fixed root directory of FAT12 and
/// FAT16.
pub const FIXED_ROOT: u32 = 0xffff_ffff;

/// What a directory lists.
#[derive(Debug)]
pub struct DirNode {
    pub id: EntryId,
    pub name: String,
    pub is_deleted: bool,
    pub is_volume_label: bool,
    pub is_dir: bool,
    pub first_cluster: u32,
    pub size: u64,
    pub attributes: u32,
}

/// The contents of a [`DirNode`].
#[verifier::ext_equal]
pub struct DirNodeView {
    pub id: EntryId,
    pub name: Seq<char>,
    pub is_deleted: bool,
    pub is_volume_label: bool,
    pub is_dir: bool,
    pub first_cluster: u32,
    pub size: u64,
    pub attributes: u32,
}

impl View for DirNode {
    type V = DirNodeView;

    open spec fn view(&self) -> DirNodeView {
        DirNodeView {
            id: self.id,
            name: self.name@,
            is_deleted: self.is_deleted,
            is_volume_label: self.is_volume_label,
            is_dir: self.is_dir,
            first_cluster: self.first_cluster,
            size: self.size,
            attributes: self.attributes,
        }
    }
}

/// Where the 32 bytes of a directory entry lie on the device.
pub open spec fn entry_offset_of(
    geometry: Geometry,
    kind: ClassicKind,
    fat: Seq<u8>,
    id: EntryId,
) -> Result<u64, ErrorView> {
    match id {
        EntryId::Root => Err(ErrorView::UnsafeFilesystem("root is not a file directory entry"@)),
        EntryId::Entry { dir_cluster, index } => {
            let byte = index * 32;
            if dir_cluster == FIXED_ROOT {
                Ok(arith::sat64(geometry.root_dir_start + byte) as u64)
            } else {
                match fat_table::chain_of(fat, kind, dir_cluster, geometry.count_of_clusters) {
                    Err(error) => Err(error),
                    Ok(parent) => {
                        let at = byte / geometry.cluster_size as int;
                        if at >= parent.len() {
                            Err(
                                ErrorView::UnsafeFilesystem(
                                    "directory entry lies beyond its parent chain"@,
                                ),
                            )
                        } else {
                            match geometry.offset_of(parent[at]) {
                                None => Err(
                                    ErrorView::UnsafeFilesystem(
                                        "directory cluster has no byte offset"@,
                                    ),
                                ),
                                Some(start) => Ok(
                                    arith::sat64(
                                        start + byte % geometry.cluster_size as int,
                                    ) as u64,
                                ),
                            }
                        }
                    },
                }
            }
        },
    }
}

/// Finds the bytes of a directory entry on the device.
pub fn directory_entry_offset(
    geometry: &Geometry,
    kind: ClassicKind,
    fat: &Vec<u8>,
    id: EntryId,
) -> (offset: Result<u64, ServiceError>)
    requires
        geometry.cluster_size > 0,
    ensures
        match offset {
            Ok(at) => entry_offset_of(*geometry, kind, fat@, id) == Ok::<u64, ErrorView>(at),
            Err(e) => entry_offset_of(*geometry, kind, fat@, id) == Err::<u64, ErrorView>(e@),
        },
{
    let (dir_cluster, index) = match id {
        EntryId::Root => {
            return Err(error::unsafe_fs("root is not a file directory entry".to_owned()));
        },
        EntryId::Entry { dir_cluster, index } => (dir_cluster, index),
    };
    let byte: u64 = index as u64 * 32;
    if dir_cluster == FIXED_ROOT {
        return Ok(geometry.root_dir_start.saturating_add(byte));
    }
    let parent: Vec<u32> = match fat_table::chain(
        fat,
        kind,
        dir_cluster,
        geometry.count_of_clusters,
    ) {
        Ok(parent) => parent,
        Err(error) => {
            return Err(error);
        },
    };
    let at: u64 = byte / geometry.cluster_size as u64;
    let within: u64 = byte % geometry.cluster_size as u64;
    if at >= parent.len() as u64 {
        return Err(error::unsafe_fs("directory entry lies beyond its parent chain".to_owned()));
    }
    match geometry.cluster_offset(parent[at as usize]) {
        Some(start) => Ok(start.saturating_add(within)),
        None => Err(error::unsafe_fs("directory cluster has no byte offset".to_owned())),
    }
}

// ---------------------------------------------------------------------
// Walking the directories
// ---------------------------------------------------------------------

/// A file of a snapshot.
#[derive(Debug)]
pub struct RawFile {
    pub path: FsPath,
    pub size: u64,
    pub attributes: u32,
    pub entry_offset: u64,
    pub first_cluster: u32,
    pub chain: Vec<u32>,
}

/// The contents of a [`RawFile`].
#[verifier::ext_equal]
pub struct RawFileView {
    pub path: Seq<u8>,
    pub size: u64,
    pub attributes: u32,
    pub entry_offset: u64,
    pub first_cluster: u32,
    pub chain: Seq<u32>,
}

impl View for RawFile {
    type V = RawFileView;

    open spec fn view(&self) -> RawFileView {
        RawFileView {
            path: self.path@,
            size: self.size,
            attributes: self.attributes,
            entry_offset: self.entry_offset,
            first_cluster: self.first_cluster,
            chain: self.chain@,
        }
    }
}

/// What a walk has found so far.
#[verifier::ext_equal]
pub struct Findings {
    /// The directories that were entered, by their first clusters.
    pub seen: Set<u32>,
    /// The clusters that hold directories.
    pub directories: Set<u32>,
    /// The owner of each cluster that has one.
    pub owners: Map<u32, Seq<char>>,
    pub files: Seq<RawFileView>,
    pub issues: Seq<Seq<char>>,
}

/// What a walk reads: the layout, the kind and the table.
pub struct Medium {
    pub geometry: Geometry,
    pub kind: ClassicKind,
    pub fat: Seq<u8>,
}

pub open spec fn cross_link_text(cluster: u32, previous: Seq<char>, owner: Seq<char>) -> Seq<
    char,
> {
    "cluster "@ + text::decimal(cluster as nat) + " is cross-linked between "@ + previous + " and "@
        + owner
}

/// What is found when the first `n` clusters of a chain are given an owner:
/// a complaint about each that had one already.
pub open spec fn registered(
    findings: Findings,
    clusters: Seq<u32>,
    owner: Seq<char>,
    n: int,
) -> Findings
    decreases n,
{
    if n <= 0 {
        findings
    } else {
        let before = registered(findings, clusters, owner, n - 1);
        let cluster = clusters[n - 1];
        Findings {
            owners: before.owners.insert(cluster, owner),
            issues: if before.owners.contains_key(cluster) {
                before.issues.push(
                    cross_link_text(cluster, before.owners[cluster], owner),
                )
            } else {
                before.issues
            },
            ..before
        }
    }
}

/// What visiting an entry leads to.
#[verifier::ext_equal]
pub enum Visit {
    /// On to the next entry.
    Next,
    /// Into a directory.
    Descend { id: EntryId, path: Seq<u8> },
    /// The volume cannot be read.
    Fail(ErrorView),
}

pub open spec fn repeated_directory_text(child: Seq<u8>, first_cluster: u32) -> Seq<char> {
    "directory "@ + path::lossy_text(child) + " has an invalid or repeated first cluster "@
        + text::decimal(first_cluster as nat)
}

pub open spec fn wrong_length_text(child: Seq<u8>, have: nat, need: nat) -> Seq<char> {
    path::lossy_text(child) + " has "@ + text::decimal(have)
        + " clusters but its size requires "@ + text::decimal(need)
}

/// Whether an entry is passed over.
pub open spec fn is_passed_over(node: DirNodeView) -> bool {
    node.is_deleted || node.is_volume_label || node.name == "."@ || node.name == ".."@
}

/// Visits an entry of the directory at `parent`.
pub open spec fn visited(
    medium: Medium,
    findings: Findings,
    parent: Seq<u8>,
    node: DirNodeView,
) -> (Findings, Visit) {
    let child = path::joined(parent, encode_utf8(node.name));
    let count = medium.geometry.count_of_clusters;
    if is_passed_over(node) {
        (findings, Visit::Next)
    } else {
        match entry_offset_of(medium.geometry, medium.kind, medium.fat, node.id) {
            Err(error) => (findings, Visit::Fail(error)),
            Ok(entry_offset) => if node.is_dir {
                if node.first_cluster < 2 || findings.seen.contains(node.first_cluster) {
                    (
                        Findings {
                            issues: findings.issues.push(
                                repeated_directory_text(child, node.first_cluster),
                            ),
                            ..findings
                        },
                        Visit::Next,
                    )
                } else {
                    let entered = Findings {
                        seen: findings.seen.insert(node.first_cluster),
                        ..findings
                    };
                    match fat_table::chain_of(medium.fat, medium.kind, node.first_cluster, count) {
                        Err(error) => (entered, Visit::Fail(error)),
                        Ok(clusters) => {
                            let owned = registered(
                                entered,
                                clusters,
                                "directory "@ + path::lossy_text(child),
                                clusters.len() as int,
                            );
                            (
                                Findings {
                                    directories: owned.directories.union(clusters.to_set()),
                                    ..owned
                                },
                                Visit::Descend { id: node.id, path: child },
                            )
                        },
                    }
                }
            } else {
                match fat_table::chain_of(medium.fat, medium.kind, node.first_cluster, count) {
                    Err(error) => (findings, Visit::Fail(error)),
                    Ok(clusters) => {
                        let need = arith::ceil_div(
                            node.size as int,
                            medium.geometry.cluster_size as int,
                        );
                        let measured = Findings {
                            issues: if clusters.len() == need {
                                findings.issues
                            } else {
                                findings.issues.push(
                                    wrong_length_text(child, clusters.len(), need as nat),
                                )
                            },
                            ..findings
                        };
                        let owned = registered(
                            measured,
                            clusters,
                            "file "@ + path::lossy_text(child),
                            clusters.len() as int,
                        );
                        (
                            Findings {
                                files: owned.files.push(
                                    RawFileView {
                                        path: child,
                                        size: node.size,
                                        attributes: node.attributes,
                                        entry_offset,
                                        first_cluster: node.first_cluster,
                                        chain: clusters,
                                    },
                                ),
                                ..owned
                            },
                            Visit::Next,
                        )
                    },
                }
            },
        }
    }
}

/// A directory that is being walked: its path and the entries still to come.
#[verifier::ext_equal]
pub struct FrameView {
    pub path: Seq<u8>,
    pub nodes: Seq<DirNodeView>,
}

/// How many steps a stack of directories still takes.
pub open spec fn steps_left(frames: Seq<FrameView>) -> nat
    decreases frames.len(),
{
    if frames.len() == 0 {
        0
    } else {
        steps_left(frames.drop_last()) + 1 + frames.last().nodes.len()
    }
}

/// What a walk waits for.
#[verifier::ext_equal]
pub enum Wanted {
    /// The listing of a directory.
    Listing { id: EntryId, path: Seq<u8> },
    /// Nothing: everything was visited.
    Nothing,
}

/// The stack after its top directory gave its first entry.
pub open spec fn after_first(frames: Seq<FrameView>) -> Seq<FrameView> {
    frames.drop_last().push(
        FrameView { path: frames.last().path, nodes: frames.last().nodes.skip(1) },
    )
}

/// Visits entries, the deepest directory first, until a directory must be
/// listed, everything was visited or the volume cannot be read.
pub open spec fn walked(medium: Medium, findings: Findings, frames: Seq<FrameView>) -> (
    Findings,
    Seq<FrameView>,
    Result<Wanted, ErrorView>,
)
    decreases steps_left(frames),
{
    if frames.len() == 0 {
        (findings, frames, Ok(Wanted::Nothing))
    } else if frames.last().nodes.len() == 0 {
        walked(medium, findings, frames.drop_last())
    } else {
        let rest = after_first(frames);
        let (found, visit) = visited(
            medium,
            findings,
            frames.last().path,
            frames.last().nodes[0],
        );
        proof {
            assert(rest.drop_last() =~= frames.drop_last());
        }
        match visit {
            Visit::Next => walked(medium, found, rest),
            Visit::Descend { id, path } => (found, rest, Ok(Wanted::Listing { id, path })),
            Visit::Fail(error) => (found, rest, Err(error)),
        }
    }
}

/// A directory that is being walked.
#[derive(Debug)]
pub struct WalkFrame {
    pub path: FsPath,
    pub nodes: Vec<DirNode>,
    pub next: usize,
}

impl View for WalkFrame {
    type V = FrameView;

    open spec fn view(&self) -> FrameView {
        FrameView {
            path: self.path@,
            nodes: views::of(self.nodes@).skip(self.next as int),
        }
    }
}

/// What a walk asks for next.
#[derive(Debug)]
pub enum WalkAction {
    /// List this directory and hand the entries to `FatWalk::listed`, with
    /// this path.
    List { id: EntryId, path: FsPath },
    /// Everything was visited.
    Done,
}

/// A walk over the directories of a volume.
pub struct FatWalk {
    geometry: Geometry,
    kind: ClassicKind,
    fat: Vec<u8>,
    seen: HashSet<u32>,
    directories: ClusterSet,
    owners: HashMap<u32, String>,
    files: Vec<RawFile>,
    issues: Vec<String>,
    frames: Vec<WalkFrame>,
}

/// Whether each file that was found has the chain that the table gives for
/// its first cluster.
pub open spec fn files_linked(medium: Medium, findings: Findings) -> bool {
    forall|f: int|
        0 <= f < findings.files.len() ==> fat_table::chain_of(
            medium.fat,
            medium.kind,
            (#[trigger] findings.files[f]).first_cluster,
            medium.geometry.count_of_clusters,
        ) == Ok::<Seq<u32>, ErrorView>(findings.files[f].chain)
}

/// Whether no cluster belongs to files twice.
pub open spec fn files_unshared(files: Seq<RawFileView>) -> bool {
    forall|f: int, p: int, g: int, q: int|
        #![trigger files[f].chain[p], files[g].chain[q]]
        0 <= f < files.len() && 0 <= p < files[f].chain.len() && 0 <= g < files.len() && 0 <= q
            < files[g].chain.len() && files[f].chain[p] == files[g].chain[q] ==> f == g && p == q
}

/// Whether every cluster of a file has an owner, and no cluster two files
/// unless there is a complaint.
pub open spec fn files_apart(findings: Findings) -> bool {
    &&& forall|f: int, p: int|
        #![trigger findings.files[f].chain[p]]
        0 <= f < findings.files.len() && 0 <= p < findings.files[f].chain.len()
            ==> findings.owners.contains_key(findings.files[f].chain[p])
    &&& findings.issues.len() == 0 ==> files_unshared(findings.files)
}

/// Clusters without a complaint had no owner; all of them have one then.
proof fn lemma_registered_owners(findings: Findings, clusters: Seq<u32>, owner: Seq<char>, n: int)
    requires
        0 <= n <= clusters.len(),
    ensures
        ({
            let after = registered(findings, clusters, owner, n);
            &&& after.issues.len() >= findings.issues.len()
            &&& forall|c: u32|
                findings.owners.contains_key(c) ==> #[trigger] after.owners.contains_key(c)
            &&& forall|i: int|
                0 <= i < n ==> after.owners.contains_key(#[trigger] clusters[i])
            &&& after.issues.len() == findings.issues.len() ==> forall|i: int|
                0 <= i < n ==> !findings.owners.contains_key(#[trigger] clusters[i])
        }),
    decreases n,
{
    if n > 0 {
        lemma_registered_owners(findings, clusters, owner, n - 1);
    }
}

/// Giving clusters an owner keeps the files apart.
proof fn lemma_registered_apart(findings: Findings, clusters: Seq<u32>, owner: Seq<char>, n: int)
    requires
        0 <= n <= clusters.len(),
        files_apart(findings),
    ensures
        files_apart(registered(findings, clusters, owner, n)),
{
    lemma_registered_owners(findings, clusters, owner, n);
    lemma_registered_frame(findings, clusters, owner, n);
    let after = registered(findings, clusters, owner, n);
    assert forall|f: int, p: int|
        #![trigger after.files[f].chain[p]]
        0 <= f < after.files.len() && 0 <= p
            < after.files[f].chain.len() implies after.owners.contains_key(
        after.files[f].chain[p],
    ) by {
        assert(findings.owners.contains_key(findings.files[f].chain[p]));
    }
}

/// A file whose clusters were just given an owner keeps the files apart.
proof fn lemma_added_file_is_apart(
    findings: Findings,
    owner: Seq<char>,
    file: RawFileView,
    after: Findings,
)
    requires
        files_apart(findings),
        file.chain.no_duplicates(),
        after == (Findings {
            files: findings.files.push(file),
            ..registered(findings, file.chain, owner, file.chain.len() as int)
        }),
    ensures
        files_apart(after),
{
    let n = file.chain.len() as int;
    lemma_registered_owners(findings, file.chain, owner, n);
    let files = after.files;
    assert forall|f: int, p: int|
        #![trigger files[f].chain[p]]
        0 <= f < files.len() && 0 <= p < files[f].chain.len() implies after.owners.contains_key(
        files[f].chain[p],
    ) by {
        if f < findings.files.len() {
            assert(findings.owners.contains_key(findings.files[f].chain[p]));
        } else {
            assert(after.owners.contains_key(file.chain[p]));
        }
    }
    if after.issues.len() == 0 {
        assert forall|f: int, p: int, g: int, q: int|
            #![trigger files[f].chain[p], files[g].chain[q]]
            0 <= f < files.len() && 0 <= p < files[f].chain.len() && 0 <= g < files.len() && 0 <= q
                < files[g].chain.len() && files[f].chain[p] == files[g].chain[q] implies f == g && p
            == q by {
            let last = findings.files.len();
            if f < last && g < last {
                assert(findings.files[f].chain[p] == findings.files[g].chain[q]);
            } else if f < last {
                assert(findings.owners.contains_key(findings.files[f].chain[p]));
                assert(!findings.owners.contains_key(file.chain[q]));
            } else if g < last {
                assert(findings.owners.contains_key(findings.files[g].chain[q]));
                assert(!findings.owners.contains_key(file.chain[p]));
            }
        }
    }
}

/// The owners of clusters, as texts.
pub open spec fn owner_texts(owners: Map<u32, String>) -> Map<u32, Seq<char>> {
    Map::new(|c: u32| owners.contains_key(c), |c: u32| owners[c]@)
}

/// The size of the sets of clusters that a table can name.
pub open spec fn set_limit(fat: Seq<u8>) -> nat {
    fat.len()
}

proof fn lemma_chain_below_limit(fat: Seq<u8>, kind: ClassicKind, start: u32, count: u32)
    ensures
        fat_table::chain_of(fat, kind, start, count) matches Ok(clusters) ==> forall|i: int|
            0 <= i < clusters.len() ==> #[trigger] clusters[i] < set_limit(fat),
{
    fat_table::lemma_chain_is_linked(fat, kind, start, count);
    if let Ok(clusters) = fat_table::chain_of(fat, kind, start, count) {
        assert forall|i: int| 0 <= i < clusters.len() implies #[trigger] clusters[i] < set_limit(
            fat,
        ) by {
            if i == clusters.len() - 1 {
                assert(clusters[i] == clusters.last());
            }
            assert(fat_table::entry_of(fat, kind, clusters[i]) is Some);
        }
    }
}

impl FatWalk {
    /// What the walk reads.
    pub closed spec fn medium(&self) -> Medium {
        Medium { geometry: self.geometry, kind: self.kind, fat: self.fat@ }
    }

    /// What the walk has found so far.
    pub closed spec fn findings(&self) -> Findings {
        Findings {
            seen: self.seen@,
            directories: self.directories@,
            owners: owner_texts(self.owners@),
            files: views::of(self.files@),
            issues: views::of(self.issues@),
        }
    }

    /// The directories that are being walked.
    pub closed spec fn stack(&self) -> Seq<FrameView> {
        views::of(self.frames@)
    }

    /// The walk can go on.
    pub closed spec fn wf(&self) -> bool {
        &&& self.geometry.cluster_size > 0
        &&& files_linked(self.medium(), self.findings())
        &&& files_apart(self.findings())
        &&& self.directories.limit() == set_limit(self.fat@)
        &&& forall|i: int|
            0 <= i < self.frames@.len() ==> (#[trigger] self.frames@[i]).next
                <= self.frames@[i].nodes@.len()
    }

    /// Begins a walk over a volume with known issues. The chain of a FAT32
    /// root directory is followed at once; the first listing to ask for is
    /// that of the root.
    pub fn start(
        geometry: Geometry,
        kind: ClassicKind,
        fat: Vec<u8>,
        issues: Vec<String>,
    ) -> (result: Result<FatWalk, ServiceError>)
        requires
            geometry.cluster_size > 0,
        ensures
            match result {
                Ok(walk) => {
                    &&& walk.wf()
                    &&& walk.medium() == (Medium { geometry, kind, fat: fat@ })
                    &&& walk.stack() == Seq::<FrameView>::empty()
                    &&& root_chain(walk.medium()) matches Ok(root) && walk.findings()
                        == root_findings(views::of(issues@), root)
                },
                Err(e) => root_chain((Medium { geometry, kind, fat: fat@ })) == Err::<
                    Seq<u32>,
                    ErrorView,
                >(e@),
            },
    {
        let root: Vec<u32> = if kind == ClassicKind::Fat32 {
            match fat_table::chain(
                &fat,
                kind,
                geometry.root_cluster,
                geometry.count_of_clusters,
            ) {
                Ok(root) => root,
                Err(error) => {
                    return Err(error);
                },
            }
        } else {
            Vec::new()
        };
        let directories: ClusterSet = ClusterSet::new(fat.len());
        let mut walk: FatWalk = FatWalk {
            geometry,
            kind,
            fat,
            seen: HashSet::new(),
            directories,
            owners: HashMap::new(),
            files: Vec::new(),
            issues,
            frames: Vec::new(),
        };
        let ghost none = Findings {
            seen: Set::empty(),
            directories: Set::empty(),
            owners: Map::empty(),
            files: Seq::empty(),
            issues: views::of(issues@),
        };
        proof {
            assert(walk.findings().owners =~= none.owners);
            assert(walk.findings().files =~= none.files);
            assert(walk.findings() =~= none);
            assert(walk.stack() =~= Seq::<FrameView>::empty());
        }
        let ghost medium = walk.medium();
        assert(root_chain(medium) == Ok::<Seq<u32>, ErrorView>(root@));
        walk.register_chain(&root, "directory /");
        assert forall|i: int| 0 <= i < root@.len() implies #[trigger] root@[i]
            < walk.directories.limit() by {
            assert(walk.medium() == medium);
            assert(walk.directories.limit() == set_limit(medium.fat));
            assert(kind != ClassicKind::Fat32 ==> root@.len() == 0);
            if kind == ClassicKind::Fat32 {
                let found = fat_table::chain_of(
                    medium.fat,
                    kind,
                    geometry.root_cluster,
                    geometry.count_of_clusters,
                );
                assert(found == Ok::<Seq<u32>, ErrorView>(root@));
                lemma_chain_below_limit(
                    medium.fat,
                    kind,
                    geometry.root_cluster,
                    geometry.count_of_clusters,
                );
                assert(found->Ok_0[i] < set_limit(medium.fat));
                assert(root@[i] < set_limit(medium.fat));
            }
        }
        walk.directories.insert_all(&root);
        proof {
            lemma_registered_frame(none, root@, "directory /"@, root@.len() as int);
        }
        Ok(walk)
    }

    /// Gives each cluster of a chain an owner.
    fn register_chain(&mut self, clusters: &Vec<u32>, owner: &str)
        requires
            old(self).wf(),
        ensures
            final(self).wf(),
            final(self).medium() == old(self).medium(),
            final(self).stack() == old(self).stack(),
            final(self).findings() == registered(
                old(self).findings(),
                clusters@,
                owner@,
                clusters@.len() as int,
            ),
            final(self).directories.limit() == old(self).directories.limit(),
    {
        let ghost start = self.findings();
        let ghost medium = self.medium();
        let ghost stack = self.stack();
        let mut i: usize = 0;
        while i < clusters.len()
            invariant
                i <= clusters@.len(),
                self.wf(),
                self.medium() == medium,
                self.stack() == stack,
                self.directories.limit() == old(self).directories.limit(),
                files_apart(start),
                self.findings() == registered(start, clusters@, owner@, i as int),
            decreases clusters@.len() - i,
        {
            let cluster: u32 = clusters[i];
            let ghost before = self.findings();
            let ghost owners = self.owners@;
            let previous: Option<String> = self.owners.insert(cluster, owner.to_owned());
            assert(owner_texts(self.owners@) =~= owner_texts(owners).insert(cluster, owner@));
            match previous {
                Some(other) => {
                    let mut message: String = "cluster ".to_owned();
                    text::push_decimal(&mut message, cluster as u64);
                    text::push_text(&mut message, " is cross-linked between ");
                    text::push_text(&mut message, other.as_str());
                    text::push_text(&mut message, " and ");
                    text::push_text(&mut message, owner);
                    let ghost issues = views::of(self.issues@);
                    self.issues.push(message);
                    assert(views::of(self.issues@) =~= issues.push(message@));
                },
                None => {},
            }
            i = i + 1;
            assert(self.findings() =~= registered(start, clusters@, owner@, i as int));
            proof {
                lemma_registered_apart(start, clusters@, owner@, i as int);
            }
        }
    }

    /// Takes the listing of a directory. That of the root comes first.
    pub fn listed(&mut self, path: FsPath, nodes: Vec<DirNode>)
        requires
            old(self).wf(),
        ensures
            final(self).wf(),
            final(self).medium() == old(self).medium(),
            final(self).findings() == old(self).findings(),
            final(self).stack() == old(self).stack().push(
                FrameView { path: path@, nodes: views::of(nodes@) },
            ),
    {
        let ghost stack = self.stack();
        let frame: WalkFrame = WalkFrame { path, nodes, next: 0 };
        self.frames.push(frame);
        proof {
            assert(frame@.nodes =~= views::of(nodes@));
            assert(self.stack() =~= stack.push(frame@));
        }
    }

    /// Visits one entry.
    fn visit(&mut self, parent: &FsPath, node: &DirNode) -> (visit: Result<
        Option<(EntryId, FsPath)>,
        ServiceError,
    >)
        requires
            old(self).wf(),
        ensures
            final(self).wf(),
            final(self).medium() == old(self).medium(),
            final(self).stack() == old(self).stack(),
            ({
                let (found, outcome) = visited(
                    old(self).medium(),
                    old(self).findings(),
                    parent@,
                    node@,
                );
                &&& final(self).findings() == found
                &&& match visit {
                    Ok(None) => outcome == Visit::Next,
                    Ok(Some((id, path))) => outcome == (Visit::Descend { id, path: path@ }),
                    Err(e) => outcome == Visit::Fail(e@),
                }
            }),
    {
        let ghost medium = self.medium();
        let ghost start = self.findings();
        if node.is_deleted || node.is_volume_label || text::same_text(node.name.as_str(), ".")
            || text::same_text(node.name.as_str(), "..") {
            return Ok(None);
        }
        let child: FsPath = parent.join(&FsPath::from_text(node.name.as_str()));
        let shown: String = child.display();
        let entry_offset: u64 = match directory_entry_offset(
            &self.geometry,
            self.kind,
            &self.fat,
            node.id,
        ) {
            Ok(offset) => offset,
            Err(error) => {
                return Err(error);
            },
        };
        proof {
            lemma_chain_below_limit(
                medium.fat,
                medium.kind,
                node.first_cluster,
                medium.geometry.count_of_clusters,
            );
        }
        if node.is_dir {
            if node.first_cluster < 2 || !self.seen.insert(node.first_cluster) {
                assert(self.seen@ =~= start.seen);
                let mut message: String = "directory ".to_owned();
                text::push_text(&mut message, shown.as_str());
                text::push_text(&mut message, " has an invalid or repeated first cluster ");
                text::push_decimal(&mut message, node.first_cluster as u64);
                let ghost issues = views::of(self.issues@);
                self.issues.push(message);
                assert(views::of(self.issues@) =~= issues.push(message@));
                return Ok(None);
            }
            let ghost entered = self.findings();
            let clusters: Vec<u32> = match fat_table::chain(
                &self.fat,
                self.kind,
                node.first_cluster,
                self.geometry.count_of_clusters,
            ) {
                Ok(clusters) => clusters,
                Err(error) => {
                    return Err(error);
                },
            };
            let mut owner: String = "directory ".to_owned();
            text::push_text(&mut owner, shown.as_str());
            self.register_chain(&clusters, owner.as_str());
            self.directories.insert_all(&clusters);
            return Ok(Some((node.id, child)));
        }
        let clusters: Vec<u32> = match fat_table::chain(
            &self.fat,
            self.kind,
            node.first_cluster,
            self.geometry.count_of_clusters,
        ) {
            Ok(clusters) => clusters,
            Err(error) => {
                return Err(error);
            },
        };
        let expected: u64 = arith::div_ceil(node.size, self.geometry.cluster_size as u64);
        if clusters.len() as u64 != expected {
            let mut message: String = shown.clone();
            text::push_text(&mut message, " has ");
            text::push_decimal(&mut message, clusters.len() as u64);
            text::push_text(&mut message, " clusters but its size requires ");
            text::push_decimal(&mut message, expected);
            let ghost issues = views::of(self.issues@);
            self.issues.push(message);
            assert(views::of(self.issues@) =~= issues.push(message@));
        }
        let ghost measured = self.findings();
        let mut owner: String = "file ".to_owned();
        text::push_text(&mut owner, shown.as_str());
        self.register_chain(&clusters, owner.as_str());
        let ghost files = views::of(self.files@);
        let file: RawFile = RawFile {
            path: child,
            size: node.size,
            attributes: node.attributes,
            entry_offset,
            first_cluster: node.first_cluster,
            chain: clusters,
        };
        self.files.push(file);
        assert(views::of(self.files@) =~= files.push(file@));
        proof {
            fat_table::lemma_chain_is_linked(
                medium.fat,
                medium.kind,
                node.first_cluster,
                medium.geometry.count_of_clusters,
            );
            lemma_registered_frame(measured, clusters@, owner@, clusters@.len() as int);
            lemma_added_file_is_apart(measured, owner@, file@, self.findings());
        }
        Ok(None)
    }

    /// Visits entries until a directory must be listed or everything was
    /// visited.
    pub fn advance(&mut self) -> (action: Result<WalkAction, ServiceError>)
        requires
            old(self).wf(),
        ensures
            final(self).wf(),
            final(self).medium() == old(self).medium(),
            ({
                let (found, frames, outcome) = walked(
                    old(self).medium(),
                    old(self).findings(),
                    old(self).stack(),
                );
                &&& final(self).findings() == found
                &&& final(self).stack() == frames
                &&& match action {
                    Ok(WalkAction::Done) => outcome == Ok::<Wanted, ErrorView>(Wanted::Nothing),
                    Ok(WalkAction::List { id, path }) => outcome == Ok::<Wanted, ErrorView>(
                        Wanted::Listing { id, path: path@ },
                    ),
                    Err(e) => outcome == Err::<Wanted, ErrorView>(e@),
                }
            }),
    {
        let ghost medium = self.medium();
        let ghost goal = walked(medium, self.findings(), self.stack());
        loop
            invariant
                self.wf(),
                self.medium() == medium,
                goal == walked(medium, self.findings(), self.stack()),
                medium == old(self).medium(),
                goal == walked(old(self).medium(), old(self).findings(), old(self).stack()),
            decreases steps_left(self.stack()),
        {
            let ghost stack = self.stack();
            let mut frame: WalkFrame = match self.frames.pop() {
                Some(frame) => frame,
                None => {
                    return Ok(WalkAction::Done);
                },
            };
            proof {
                assert(stack.last() == frame@);
                assert(self.stack() =~= stack.drop_last());
            }
            if frame.next < frame.nodes.len() {
                let at: usize = frame.next;
                let ghost parent = frame.path@;
                assert(stack.last().nodes[0] == frame.nodes@[at as int]@);
                let visit: Result<Option<(EntryId, FsPath)>, ServiceError> = self.visit(
                    &frame.path,
                    &frame.nodes[at],
                );
                frame.next = at + 1;
                self.frames.push(frame);
                proof {
                    assert(frame@.nodes =~= stack.last().nodes.skip(1));
                    assert(self.stack() =~= after_first(stack));
                    assert(after_first(stack).drop_last() =~= stack.drop_last());
                }
                match visit {
                    Ok(None) => {},
                    Ok(Some((id, path))) => {
                        return Ok(WalkAction::List { id, path });
                    },
                    Err(error) => {
                        return Err(error);
                    },
                }
            }
        }
    }
}

/// The chain of the root directory; only FAT32 has one.
pub open spec fn root_chain(medium: Medium) -> Result<Seq<u32>, ErrorView> {
    if medium.kind == ClassicKind::Fat32 {
        fat_table::chain_of(
            medium.fat,
            medium.kind,
            medium.geometry.root_cluster,
            medium.geometry.count_of_clusters,
        )
    } else {
        Ok(Seq::empty())
    }
}

/// What is found of a volume before its root is listed.
pub open spec fn root_findings(issues: Seq<Seq<char>>, root: Seq<u32>) -> Findings {
    let none = Findings {
        seen: Set::empty(),
        directories: Set::empty(),
        owners: Map::empty(),
        files: Seq::empty(),
        issues,
    };
    Findings {
        directories: Set::empty().union(root.to_set()),
        ..registered(none, root, "directory /"@, root.len() as int)
    }
}

/// Giving clusters an owner touches nothing but owners and complaints.
proof fn lemma_registered_frame(findings: Findings, clusters: Seq<u32>, owner: Seq<char>, n: int)
    ensures
        registered(findings, clusters, owner, n).seen == findings.seen,
        registered(findings, clusters, owner, n).directories == findings.directories,
        registered(findings, clusters, owner, n).files == findings.files,
    decreases n,
{
    if n > 0 {
        lemma_registered_frame(findings, clusters, owner, n - 1);
    }
}

// ---------------------------------------------------------------------
// The survey of all clusters
// ---------------------------------------------------------------------

/// What a survey of clusters finds.
#[verifier::ext_equal]
pub struct Survey {
    pub free: Seq<u32>,
    pub bad: Set<u32>,
    pub issues: Seq<Seq<char>>,
}

/// Whether a value leads out of the data area.
pub open spec fn leads_outside(kind: ClassicKind, value: u32, count: u32) -> bool {
    value != 0 && !fat_table::marks_bad(kind, value) && !fat_table::ends_chain(kind, value) && (value
        < 2 || value >= fat_table::cluster_end(count))
}

pub open spec fn leads_outside_text(cluster: u32, value: u32) -> Seq<char> {
    "cluster "@ + text::decimal(cluster as nat) + " points outside the data area to "@
        + text::decimal(value as nat)
}

pub open spec fn orphan_text(cluster: u32) -> Seq<char> {
    "allocated cluster "@ + text::decimal(cluster as nat) + " is orphaned"@
}

/// What the entry of one cluster adds to a survey.
pub open spec fn surveyed_one(
    survey: Survey,
    kind: ClassicKind,
    count: u32,
    owned: bool,
    cluster: u32,
    value: u32,
) -> Survey {
    let bad = fat_table::marks_bad(kind, value);
    Survey {
        free: if value == 0 {
            survey.free.push(cluster)
        } else {
            survey.free
        },
        bad: if bad {
            survey.bad.insert(cluster)
        } else {
            survey.bad
        },
        issues: survey.issues + (if leads_outside(kind, value, count) {
            seq![leads_outside_text(cluster, value)]
        } else {
            Seq::empty()
        }) + (if value != 0 && !bad && !owned {
            seq![orphan_text(cluster)]
        } else {
            Seq::empty()
        }),
    }
}

/// What the clusters below `end` show: which are free, which are bad, and
/// what speaks against writing the volume.
pub open spec fn surveyed(
    medium: Medium,
    owners: Map<u32, Seq<char>>,
    end: int,
) -> Result<Survey, ErrorView>
    decreases end,
{
    if end <= 2 {
        Ok(Survey { free: Seq::empty(), bad: Set::empty(), issues: Seq::empty() })
    } else {
        let cluster = (end - 1) as u32;
        match surveyed(medium, owners, end - 1) {
            Err(error) => Err(error),
            Ok(survey) => match fat_table::entry_of(medium.fat, medium.kind, cluster) {
                None => Err(ErrorView::UnsafeFilesystem(fat_table::missing_text(cluster))),
                Some(value) => Ok(
                    surveyed_one(
                        survey,
                        medium.kind,
                        medium.geometry.count_of_clusters,
                        owners.contains_key(cluster),
                        cluster,
                        value,
                    ),
                ),
            },
        }
    }
}

// ---------------------------------------------------------------------
// What the drive map shows
// ---------------------------------------------------------------------

/// What a cluster holds.
pub open spec fn cluster_kind_of(
    kind: ClassicKind,
    fat: Seq<u8>,
    directories: Set<u32>,
    bad: Set<u32>,
    cluster: u32,
) -> FsMapKind {
    if directories.contains(cluster) {
        FsMapKind::Metadata(MetadataKind::FileMetadata)
    } else if bad.contains(cluster) {
        FsMapKind::Metadata(MetadataKind::Reserved)
    } else if fat_table::entry_of(fat, kind, cluster) == Some(0u32) {
        FsMapKind::Free
    } else {
        FsMapKind::Allocated
    }
}

/// The range of the clusters from `start` up to `end`, unless it is empty or
/// lies nowhere.
pub open spec fn run_range(geometry: Geometry, start: u32, end: u32, kind: FsMapKind) -> Seq<
    FsMapRange,
> {
    match geometry.offset_of(start) {
        Some(physical) => if start < end {
            seq![
                FsMapRange {
                    physical,
                    length: arith::sat64((end - start) * geometry.cluster_size) as u64,
                    kind,
                },
            ]
        } else {
            Seq::empty()
        },
        None => Seq::empty(),
    }
}

/// The ranges of the clusters below `at`, one for each run of clusters that
/// hold the same; the last run, which began at the returned cluster, is
/// still open.
pub open spec fn runs_below(
    geometry: Geometry,
    kinds: spec_fn(u32) -> FsMapKind,
    at: int,
) -> (Seq<FsMapRange>, u32)
    decreases at,
{
    if at <= 3 {
        (Seq::empty(), 2)
    } else {
        let cluster = (at - 1) as u32;
        let (ranges, start) = runs_below(geometry, kinds, at - 1);
        if kinds(cluster) == kinds(start) {
            (ranges, start)
        } else {
            (ranges + run_range(geometry, start, cluster, kinds(start)), cluster)
        }
    }
}

/// The ranges of all clusters.
pub open spec fn cluster_ranges(geometry: Geometry, kinds: spec_fn(u32) -> FsMapKind) -> Seq<
    FsMapRange,
> {
    let end = fat_table::cluster_end(geometry.count_of_clusters);
    let (ranges, start) = runs_below(geometry, kinds, end as int);
    ranges + run_range(geometry, start, end, kinds(start))
}

/// The ranges of the allocation tables.
pub open spec fn table_ranges(geometry: Geometry) -> Seq<FsMapRange> {
    Seq::new(
        geometry.num_fats as nat,
        |copy: int|
            FsMapRange {
                physical: geometry.table_start(copy) as u64,
                length: geometry.table_bytes() as u64,
                kind: FsMapKind::Metadata(MetadataKind::AllocationTables),
            },
    )
}

/// The ranges of the whole volume: headers, tables, a fixed root directory
/// and the clusters.
pub open spec fn volume_ranges(geometry: Geometry, kinds: spec_fn(u32) -> FsMapKind) -> Seq<
    FsMapRange,
> {
    (if geometry.fat_start > 0 {
        seq![
            FsMapRange {
                physical: 0,
                length: geometry.fat_start,
                kind: FsMapKind::Metadata(MetadataKind::FilesystemHeaders),
            },
        ]
    } else {
        Seq::empty()
    }) + table_ranges(geometry) + (if geometry.root_dir_bytes > 0 {
        seq![
            FsMapRange {
                physical: geometry.root_dir_start,
                length: geometry.root_dir_bytes as u64,
                kind: FsMapKind::Metadata(MetadataKind::FileMetadata),
            },
        ]
    } else {
        Seq::empty()
    }) + cluster_ranges(geometry, kinds)
}

fn cluster_kind(
    kind: ClassicKind,
    fat: &Vec<u8>,
    directories: &ClusterSet,
    bad: &ClusterSet,
    cluster: u32,
) -> (held: FsMapKind)
    ensures
        held == cluster_kind_of(kind, fat@, directories@, bad@, cluster),
{
    if directories.contains(cluster) {
        FsMapKind::Metadata(MetadataKind::FileMetadata)
    } else if bad.contains(cluster) {
        FsMapKind::Metadata(MetadataKind::Reserved)
    } else {
        match fat_table::fat_entry(fat, kind, cluster) {
            Some(value) => if value == 0 {
                FsMapKind::Free
            } else {
                FsMapKind::Allocated
            },
            None => FsMapKind::Allocated,
        }
    }
}

fn push_cluster_range(
    ranges: &mut Vec<FsMapRange>,
    geometry: &Geometry,
    start: u32,
    end: u32,
    kind: FsMapKind,
)
    ensures
        final(ranges)@ == old(ranges)@ + run_range(*geometry, start, end, kind),
{
    let ghost before = ranges@;
    if end > start {
        match geometry.cluster_offset(start) {
            Some(physical) => {
                proof {
                    assert(0 <= (end - start) * geometry.cluster_size) by (nonlinear_arith)
                        requires
                            start < end,
                            0 <= geometry.cluster_size,
                    ;
                }
                let length: u64 = arith::saturating_mul(
                    (end - start) as u64,
                    geometry.cluster_size as u64,
                );
                ranges.push(FsMapRange { physical, length, kind });
            },
            None => {},
        }
    }
    assert(ranges@ =~= before + run_range(*geometry, start, end, kind));
}

/// Lists what each part of a volume holds.
pub fn allocation_ranges(
    geometry: &Geometry,
    kind: ClassicKind,
    fat: &Vec<u8>,
    directories: &ClusterSet,
    bad: &ClusterSet,
) -> (ranges: Vec<FsMapRange>)
    ensures
        ranges@ == volume_ranges(
            *geometry,
            |c: u32| cluster_kind_of(kind, fat@, directories@, bad@, c),
        ),
{
    let ghost kinds = |c: u32| cluster_kind_of(kind, fat@, directories@, bad@, c);
    let mut ranges: Vec<FsMapRange> = Vec::new();
    if geometry.fat_start > 0 {
        ranges.push(
            FsMapRange {
                physical: 0,
                length: geometry.fat_start,
                kind: FsMapKind::Metadata(MetadataKind::FilesystemHeaders),
            },
        );
    }
    let ghost headers = ranges@;
    let fat_bytes: u64 = geometry.fat_bytes();
    let mut copy: u8 = 0;
    assert(headers + table_ranges(*geometry).take(0) =~= headers);
    while copy < geometry.num_fats
        invariant
            copy <= geometry.num_fats,
            fat_bytes == geometry.table_bytes(),
            ranges@ == headers + table_ranges(*geometry).take(copy as int),
        decreases geometry.num_fats - copy,
    {
        ranges.push(
            FsMapRange {
                physical: geometry.fat_copy_start(copy),
                length: fat_bytes,
                kind: FsMapKind::Metadata(MetadataKind::AllocationTables),
            },
        );
        copy = copy + 1;
        assert(ranges@ =~= headers + table_ranges(*geometry).take(copy as int));
    }
    assert(table_ranges(*geometry).take(copy as int) =~= table_ranges(*geometry));
    if geometry.root_dir_bytes > 0 {
        ranges.push(
            FsMapRange {
                physical: geometry.root_dir_start,
                length: geometry.root_dir_bytes as u64,
                kind: FsMapKind::Metadata(MetadataKind::FileMetadata),
            },
        );
    }
    let ghost before = ranges@;
    let end: u32 = fat_table::end_of_clusters(geometry.count_of_clusters);
    let mut start: u32 = 2;
    let mut held: FsMapKind = cluster_kind(kind, fat, directories, bad, start);
    let mut cluster: u32 = 3;
    assert(before + Seq::<FsMapRange>::empty() =~= before);
    while cluster < end
        invariant
            3 <= cluster,
            cluster <= end || end < 3,
            end < 3 ==> cluster == 3,
            kinds == |c: u32| cluster_kind_of(kind, fat@, directories@, bad@, c),
            start == runs_below(*geometry, kinds, cluster as int).1,
            held == kinds(start),
            ranges@ == before + runs_below(*geometry, kinds, cluster as int).0,
        decreases end - cluster,
    {
        let next: FsMapKind = cluster_kind(kind, fat, directories, bad, cluster);
        let ghost ranges_before = runs_below(*geometry, kinds, cluster as int).0;
        if next != held {
            push_cluster_range(&mut ranges, geometry, start, cluster, held);
            assert(ranges@ =~= before + (ranges_before + run_range(
                *geometry,
                start,
                cluster,
                held,
            )));
            start = cluster;
            held = next;
        }
        cluster = cluster + 1;
    }
    let ghost below = runs_below(*geometry, kinds, end as int).0;
    assert(runs_below(*geometry, kinds, end as int) == runs_below(
        *geometry,
        kinds,
        cluster as int,
    ));
    push_cluster_range(&mut ranges, geometry, start, end, held);
    assert(ranges@ =~= before + (below + run_range(*geometry, start, end, held)));
    assert(ranges@ =~= volume_ranges(*geometry, kinds));
    ranges
}

// ---------------------------------------------------------------------
// Snapshots
// ---------------------------------------------------------------------

/// Everything that is known of a classic FAT volume.
#[derive(Debug)]
pub struct ClassicSnapshot {
    pub kind: ClassicKind,
    pub geometry: Geometry,
    pub boot: Vec<u8>,
    pub fat: Vec<u8>,
    pub files: Vec<RawFile>,
    pub directory_clusters: ClusterSet,
    pub free_clusters: Vec<u32>,
    pub bad_clusters: ClusterSet,
    pub ranges: Vec<FsMapRange>,
    pub writable_issues: Vec<String>,
}

/// The contents of a [`ClassicSnapshot`].
#[verifier::ext_equal]
pub struct SnapshotView {
    pub kind: ClassicKind,
    pub geometry: Geometry,
    pub boot: Seq<u8>,
    pub fat: Seq<u8>,
    pub files: Seq<RawFileView>,
    pub directory_clusters: Set<u32>,
    pub free_clusters: Seq<u32>,
    pub bad_clusters: Set<u32>,
    pub ranges: Seq<FsMapRange>,
    pub writable_issues: Seq<Seq<char>>,
}

impl View for ClassicSnapshot {
    type V = SnapshotView;

    open spec fn view(&self) -> SnapshotView {
        SnapshotView {
            kind: self.kind,
            geometry: self.geometry,
            boot: self.boot@,
            fat: self.fat@,
            files: views::of(self.files@),
            directory_clusters: self.directory_clusters@,
            free_clusters: self.free_clusters@,
            bad_clusters: self.bad_clusters@,
            ranges: self.ranges@,
            writable_issues: views::of(self.writable_issues@),
        }
    }
}

impl SnapshotView {
    /// Whether the table holds the entry of every cluster, the files have the
    /// chains that it gives for their first clusters, those and the free
    /// clusters lie in the data area, and no cluster belongs to files twice
    /// unless that speaks against the volume.
    pub open spec fn complete(self) -> bool {
        let end = fat_table::cluster_end(self.geometry.count_of_clusters);
        &&& self.boot.len() == 512
        &&& forall|c: u32|
            2 <= c < end ==> #[trigger] fat_table::entry_of(self.fat, self.kind, c) is Some
        &&& forall|f: int, p: int|
            #![trigger self.files[f].chain[p]]
            0 <= f < self.files.len() && 0 <= p < self.files[f].chain.len() ==> 2
                <= self.files[f].chain[p] < end
        &&& forall|i: int|
            0 <= i < self.free_clusters.len() ==> 2 <= #[trigger] self.free_clusters[i] < end
                && fat_table::entry_of(self.fat, self.kind, self.free_clusters[i]) == Some(0u32)
        &&& forall|f: int|
            0 <= f < self.files.len() ==> fat_table::chain_of(
                self.fat,
                self.kind,
                (#[trigger] self.files[f]).first_cluster,
                self.geometry.count_of_clusters,
            ) == Ok::<Seq<u32>, ErrorView>(self.files[f].chain)
        &&& self.writable_issues.len() == 0 ==> files_unshared(self.files)
    }
}

/// The snapshot of a volume whose directories were walked.
pub open spec fn snapshot_of(medium: Medium, boot: Seq<u8>, findings: Findings) -> Result<
    SnapshotView,
    ErrorView,
> {
    let end = fat_table::cluster_end(medium.geometry.count_of_clusters);
    match surveyed(medium, findings.owners, end as int) {
        Err(error) => Err(error),
        Ok(survey) => Ok(
            SnapshotView {
                kind: medium.kind,
                geometry: medium.geometry,
                boot,
                fat: medium.fat,
                files: findings.files,
                directory_clusters: findings.directories,
                free_clusters: survey.free,
                bad_clusters: survey.bad,
                ranges: volume_ranges(
                    medium.geometry,
                    |c: u32|
                        cluster_kind_of(
                            medium.kind,
                            medium.fat,
                            findings.directories,
                            survey.bad,
                            c,
                        ),
                ),
                writable_issues: findings.issues + survey.issues,
            },
        ),
    }
}

/// Whether two files of snapshots are the same.
pub open spec fn same_file(a: RawFileView, b: RawFileView) -> bool {
    &&& path::same_path(a.path, b.path)
    &&& a.size == b.size
    &&& a.attributes == b.attributes
    &&& a.entry_offset == b.entry_offset
    &&& a.first_cluster == b.first_cluster
    &&& a.chain == b.chain
}

/// Whether two snapshots show the same volume in the same state.
pub open spec fn equivalent(a: SnapshotView, b: SnapshotView) -> bool {
    &&& a.kind == b.kind
    &&& a.boot == b.boot
    &&& a.fat == b.fat
    &&& a.files.len() == b.files.len()
    &&& forall|i: int|
        0 <= i < a.files.len() ==> same_file(#[trigger] a.files[i], b.files[i])
    &&& a.directory_clusters == b.directory_clusters
}

fn same_clusters(a: &Vec<u32>, b: &Vec<u32>) -> (same: bool)
    ensures
        same == (a@ == b@),
{
    if a.len() != b.len() {
        return false;
    }
    let mut i: usize = 0;
    while i < a.len()
        invariant
            i <= a@.len(),
            a@.len() == b@.len(),
            forall|k: int| 0 <= k < i ==> a@[k] == b@[k],
        decreases a@.len() - i,
    {
        if a[i] != b[i] {
            return false;
        }
        i = i + 1;
    }
    assert(a@ =~= b@);
    true
}

impl ClassicSnapshot {
    /// Tells whether the volume may be written: it is no FAT12 volume, and
    /// nothing speaks against it.
    pub fn writable(&self) -> (yes: bool)
        ensures
            yes == (self.kind != ClassicKind::Fat12 && self@.writable_issues.len() == 0),
    {
        self.kind != ClassicKind::Fat12 && self.writable_issues.len() == 0
    }

    /// Tells whether two snapshots show the same volume in the same state.
    pub fn equivalent_to(&self, other: &ClassicSnapshot) -> (same: bool)
        ensures
            same == equivalent(self@, other@),
    {
        if self.kind != other.kind || !path::same_bytes(&self.boot, &other.boot)
            || !path::same_bytes(&self.fat, &other.fat) || self.files.len() != other.files.len() {
            return false;
        }
        let mut i: usize = 0;
        while i < self.files.len()
            invariant
                i <= self.files@.len(),
                self.files@.len() == other.files@.len(),
                forall|k: int|
                    0 <= k < i ==> same_file((#[trigger] self.files@[k])@, other.files@[k]@),
            decreases self.files@.len() - i,
        {
            let a: &RawFile = &self.files[i];
            let b: &RawFile = &other.files[i];
            if !a.path.same(&b.path) || a.size != b.size || a.attributes != b.attributes
                || a.entry_offset != b.entry_offset || a.first_cluster != b.first_cluster
                || !same_clusters(&a.chain, &b.chain) {
                assert(!same_file(self@.files[i as int], other@.files[i as int]));
                return false;
            }
            i = i + 1;
        }
        assert forall|k: int| 0 <= k < self@.files.len() implies same_file(
            #[trigger] self@.files[k],
            other@.files[k],
        ) by {
            assert(same_file(self.files@[k]@, other.files@[k]@));
        }
        self.directory_clusters.same(&other.directory_clusters)
    }

    /// The size of a cluster.
    pub fn cluster_size(&self) -> (bytes: u64)
        ensures
            bytes == self.geometry.cluster_size,
    {
        self.geometry.cluster_size as u64
    }

    /// Finds where a cluster begins.
    pub fn cluster_offset(&self, cluster: u32) -> (offset: Result<u64, ServiceError>)
        ensures
            match offset {
                Ok(at) => self.geometry.offset_of(cluster) == Some(at),
                Err(e) => self.geometry.offset_of(cluster) is None && e@
                    == ErrorView::UnsafeFilesystem(no_offset_text(cluster)),
            },
    {
        match self.geometry.cluster_offset(cluster) {
            Some(at) => Ok(at),
            None => {
                let mut message: String = "cluster ".to_owned();
                text::push_decimal(&mut message, cluster as u64);
                text::push_text(&mut message, " has no byte offset");
                Err(error::unsafe_fs(message))
            },
        }
    }
}

pub open spec fn no_offset_text(cluster: u32) -> Seq<char> {
    "cluster "@ + text::decimal(cluster as nat) + " has no byte offset"@
}

/// The message about an entry that leads out of the data area.
fn leads_outside_message(cluster: u32, value: u32) -> (message: String)
    ensures
        message@ == leads_outside_text(cluster, value),
{
    let mut message: String = "cluster ".to_owned();
    text::push_decimal(&mut message, cluster as u64);
    text::push_text(&mut message, " points outside the data area to ");
    text::push_decimal(&mut message, value as u64);
    message
}

fn orphan_message(cluster: u32) -> (message: String)
    ensures
        message@ == orphan_text(cluster),
{
    let mut message: String = "allocated cluster ".to_owned();
    text::push_decimal(&mut message, cluster as u64);
    text::push_text(&mut message, " is orphaned");
    message
}

impl FatWalk {
    /// Surveys all clusters and closes the walk.
    pub fn finish(self, boot: Vec<u8>) -> (snapshot: Result<ClassicSnapshot, ServiceError>)
        requires
            self.wf(),
        ensures
            match snapshot {
                Ok(s) => {
                    &&& snapshot_of(self.medium(), boot@, self.findings()) == Ok::<
                        SnapshotView,
                        ErrorView,
                    >(s@)
                    &&& boot@.len() == 512 ==> s@.complete()
                },
                Err(e) => snapshot_of(self.medium(), boot@, self.findings()) == Err::<
                    SnapshotView,
                    ErrorView,
                >(e@),
            },
    {
        let ghost medium = self.medium();
        let ghost findings = self.findings();
        let geometry: Geometry = self.geometry;
        let kind: ClassicKind = self.kind;
        let fat: Vec<u8> = self.fat;
        let owners: HashMap<u32, String> = self.owners;
        let directories: ClusterSet = self.directories;
        let mut issues: Vec<String> = self.issues;
        let count: u32 = geometry.count_of_clusters;
        let end: u32 = fat_table::end_of_clusters(count);
        let mut free: Vec<u32> = Vec::new();
        let mut bad: ClusterSet = ClusterSet::new(fat.len());
        let mut cluster: u32 = 2;
        let ghost goal = surveyed(medium, findings.owners, end as int);
        assert(findings.issues + Seq::<Seq<char>>::empty() =~= findings.issues);
        while cluster < end
            invariant
                2 <= cluster <= end,
                end == fat_table::cluster_end(count),
                count == geometry.count_of_clusters,
                medium == (Medium { geometry, kind, fat: fat@ }),
                findings.owners == owner_texts(owners@),
                bad.limit() == set_limit(fat@),
                surveyed(medium, findings.owners, cluster as int) matches Ok(survey)
                    && free@ == survey.free && bad@ == survey.bad && views::of(issues@)
                    == findings.issues + survey.issues,
                goal == surveyed(medium, findings.owners, end as int),
                medium == self.medium(),
                findings == self.findings(),
            decreases end - cluster,
        {
            let ghost survey = surveyed(medium, findings.owners, cluster as int)->Ok_0;
            let value: u32 = match fat_table::fat_entry(&fat, kind, cluster) {
                Some(value) => value,
                None => {
                    proof {
                        assert(surveyed(medium, findings.owners, cluster + 1) == Err::<
                            Survey,
                            ErrorView,
                        >(ErrorView::UnsafeFilesystem(fat_table::missing_text(cluster))));
                        lemma_survey_fails(medium, findings.owners, cluster + 1, end as int);
                    }
                    return Err(error::unsafe_fs(fat_table::missing_entry(cluster)));
                },
            };
            let is_bad: bool = fat_table::is_bad(kind, value);
            let ghost listed = views::of(issues@);
            if value == 0 {
                free.push(cluster);
            } else if is_bad {
                bad.insert(cluster);
            } else if !fat_table::is_eoc(kind, value) && (value < 2 || value >= end) {
                let message: String = leads_outside_message(cluster, value);
                issues.push(message);
                assert(views::of(issues@) =~= listed.push(message@));
            }
            let ghost outside = views::of(issues@);
            if value != 0 && !is_bad && !owners.contains_key(&cluster) {
                let message: String = orphan_message(cluster);
                issues.push(message);
                assert(views::of(issues@) =~= outside.push(message@));
            }
            proof {
                let next = surveyed_one(
                    survey,
                    kind,
                    count,
                    findings.owners.contains_key(cluster),
                    cluster,
                    value,
                );
                assert(fat_table::marks_bad(kind, value) ==> value != 0);
                assert(views::of(issues@) =~= findings.issues + next.issues);
                assert(free@ =~= next.free);
                assert(bad@ =~= next.bad);
            }
            cluster = cluster + 1;
        }
        let ranges: Vec<FsMapRange> = allocation_ranges(&geometry, kind, &fat, &directories, &bad);
        let snapshot: ClassicSnapshot = ClassicSnapshot {
            kind,
            geometry,
            boot,
            fat,
            files: self.files,
            directory_clusters: directories,
            free_clusters: free,
            bad_clusters: bad,
            ranges,
            writable_issues: issues,
        };
        proof {
            if boot@.len() == 512 {
                lemma_snapshot_complete(medium, boot@, findings);
            }
        }
        Ok(snapshot)
    }
}

/// A survey that succeeds found the entry of every cluster.
proof fn lemma_survey_has_entries(
    medium: Medium,
    owners: Map<u32, Seq<char>>,
    end: int,
    cluster: u32,
)
    requires
        surveyed(medium, owners, end) is Ok,
        2 <= cluster < end <= u32::MAX,
    ensures
        fat_table::entry_of(medium.fat, medium.kind, cluster) is Some,
    decreases end,
{
    if cluster < end - 1 {
        lemma_survey_has_entries(medium, owners, end - 1, cluster);
    }
}

/// The snapshot of a walked volume is complete.
pub proof fn lemma_snapshot_complete(medium: Medium, boot: Seq<u8>, findings: Findings)
    requires
        boot.len() == 512,
        files_linked(medium, findings),
        files_apart(findings),
    ensures
        snapshot_of(medium, boot, findings) matches Ok(s) ==> s.complete(),
{
    if let Ok(s) = snapshot_of(medium, boot, findings) {
        let end = fat_table::cluster_end(medium.geometry.count_of_clusters);
        assert forall|c: u32| 2 <= c < end implies #[trigger] fat_table::entry_of(
            s.fat,
            s.kind,
            c,
        ) is Some by {
            lemma_survey_has_entries(medium, findings.owners, end as int, c);
        }
        assert forall|f: int, p: int|
            #![trigger s.files[f].chain[p]]
            0 <= f < s.files.len() && 0 <= p < s.files[f].chain.len() implies 2
            <= s.files[f].chain[p] < end by {
            fat_table::lemma_chain_is_linked(
                medium.fat,
                medium.kind,
                s.files[f].first_cluster,
                medium.geometry.count_of_clusters,
            );
            assert(findings.files[f] == s.files[f]);
        }
        lemma_survey_finds_free(medium, findings.owners, end as int);
        assert forall|i: int| 0 <= i < s.free_clusters.len() implies 2
            <= #[trigger] s.free_clusters[i] < end && fat_table::entry_of(
            s.fat,
            s.kind,
            s.free_clusters[i],
        ) == Some(0u32) by {
            assert(s.free_clusters.contains(s.free_clusters[i]));
            assert(fat_table::entry_of(medium.fat, medium.kind, s.free_clusters[i]) == Some(0u32));
        }
    }
}

/// A survey that failed stays failed.
proof fn lemma_survey_fails(medium: Medium, owners: Map<u32, Seq<char>>, at: int, end: int)
    requires
        2 < at <= end,
        surveyed(medium, owners, at) is Err,
    ensures
        surveyed(medium, owners, end) == surveyed(medium, owners, at),
    decreases end - at,
{
    if at < end {
        lemma_survey_fails(medium, owners, at, end - 1);
    }
}

// ---------------------------------------------------------------------
// Laws
// ---------------------------------------------------------------------

/// The free clusters of a survey are exactly those below its end whose
/// entries are zero, in ascending order.
pub proof fn lemma_survey_finds_free(medium: Medium, owners: Map<u32, Seq<char>>, end: int)
    requires
        end <= u32::MAX,
    ensures
        surveyed(medium, owners, end) matches Ok(survey) ==> {
            &&& forall|i: int, j: int|
                0 <= i < j < survey.free.len() ==> #[trigger] survey.free[i]
                    < #[trigger] survey.free[j]
            &&& forall|c: u32|
                survey.free.contains(c) <==> (2 <= c < end && #[trigger] fat_table::entry_of(
                    medium.fat,
                    medium.kind,
                    c,
                ) == Some(0u32))
        },
    decreases end,
{
    if end > 2 && surveyed(medium, owners, end) is Ok {
        lemma_survey_finds_free(medium, owners, end - 1);
        let cluster = (end - 1) as u32;
        let before = surveyed(medium, owners, end - 1)->Ok_0;
        let after = surveyed(medium, owners, end)->Ok_0;
        let value = fat_table::entry_of(medium.fat, medium.kind, cluster)->0;
        assert forall|i: int| 0 <= i < before.free.len() implies #[trigger] before.free[i]
            < cluster by {
            assert(before.free.contains(before.free[i]));
            assert(fat_table::entry_of(medium.fat, medium.kind, before.free[i]) == Some(0u32));
        }
        assert forall|c: u32|
            after.free.contains(c) <==> (2 <= c < end && #[trigger] fat_table::entry_of(
                medium.fat,
                medium.kind,
                c,
            ) == Some(0u32)) by {
            if before.free.contains(c) {
                let i = choose|i: int| 0 <= i < before.free.len() && before.free[i] == c;
                assert(after.free[i] == c);
            }
            if value == 0 {
                assert(after.free[before.free.len() as int] == cluster);
            }
            if after.free.contains(c) {
                let i = choose|i: int| 0 <= i < after.free.len() && after.free[i] == c;
                if i < before.free.len() {
                    assert(before.free[i] == c);
                }
            }
        }
    } else if end <= 2 {
        let survey = surveyed(medium, owners, end)->Ok_0;
        assert(survey.free.len() == 0);
    }
}

/// Whether some range of a list shows a cluster as holding `held`.
pub open spec fn is_shown(
    ranges: Seq<FsMapRange>,
    geometry: Geometry,
    cluster: u32,
    held: FsMapKind,
) -> bool {
    exists|i: int|
        0 <= i < ranges.len() && (#[trigger] ranges[i]).kind == held && ranges[i].physical
            <= geometry.offset_of(cluster)->0 && geometry.offset_of(cluster)->0
            + geometry.cluster_size <= ranges[i].physical + ranges[i].length
}

proof fn lemma_run_shows(
    geometry: Geometry,
    start: u32,
    end: u32,
    kind: FsMapKind,
    cluster: u32,
)
    requires
        2 <= start <= cluster < end <= fat_table::cluster_end(geometry.count_of_clusters),
        geometry.offset_of((end - 1) as u32) is Some,
    ensures
        run_range(geometry, start, end, kind).len() == 1,
        is_shown(run_range(geometry, start, end, kind), geometry, cluster, kind),
{
    let size = geometry.cluster_size as int;
    let a = (start - 2) * size;
    let b = (cluster - 2) * size;
    let c = (end - 1 - 2) * size;
    assert(0 <= a <= b <= c) by (nonlinear_arith)
        requires
            a == (start - 2) * size,
            b == (cluster - 2) * size,
            c == (end - 1 - 2) * size,
            2 <= start <= cluster <= end - 1,
            0 <= size,
    ;
    let length = (end - start) * size;
    assert(a + length == c + size) by (nonlinear_arith)
        requires
            a == (start - 2) * size,
            c == (end - 1 - 2) * size,
            length == (end - start) * size,
    ;
    assert(length <= u32::MAX * u32::MAX) by (nonlinear_arith)
        requires
            length == (end - start) * size,
            0 <= end - start <= u32::MAX,
            0 <= size <= u32::MAX,
    ;
    assert(length >= size) by (nonlinear_arith)
        requires
            length == (end - start) * size,
            1 <= end - start,
            0 <= size,
    ;
    let range = run_range(geometry, start, end, kind)[0];
    assert(range.physical == geometry.data_start + a);
    assert(range.length == length);
    assert(geometry.offset_of(cluster) == Some((geometry.data_start + b) as u64));
    assert(run_range(geometry, start, end, kind)[0].kind == kind);
}

proof fn lemma_shown_in_longer(
    head: Seq<FsMapRange>,
    part: Seq<FsMapRange>,
    tail: Seq<FsMapRange>,
    geometry: Geometry,
    cluster: u32,
    held: FsMapKind,
)
    requires
        is_shown(part, geometry, cluster, held),
    ensures
        is_shown(head + part + tail, geometry, cluster, held),
{
    let i = choose|i: int|
        0 <= i < part.len() && (#[trigger] part[i]).kind == held && part[i].physical
            <= geometry.offset_of(cluster)->0 && geometry.offset_of(cluster)->0
            + geometry.cluster_size <= part[i].physical + part[i].length;
    assert((head + part + tail)[head.len() + i] == part[i]);
}

proof fn lemma_runs_show(
    geometry: Geometry,
    kinds: spec_fn(u32) -> FsMapKind,
    at: int,
    cluster: u32,
)
    requires
        2 <= at <= fat_table::cluster_end(geometry.count_of_clusters),
        2 <= cluster < at,
        geometry.offset_of((fat_table::cluster_end(geometry.count_of_clusters) - 1) as u32)
            is Some,
    ensures
        ({
            let (ranges, start) = runs_below(geometry, kinds, at);
            &&& 2 <= start < at
            &&& start <= cluster ==> kinds(cluster) == kinds(start)
            &&& cluster < start ==> is_shown(ranges, geometry, cluster, kinds(cluster))
        }),
    decreases at,
{
    if at > 3 {
        let last = (at - 1) as u32;
        let (ranges, start) = runs_below(geometry, kinds, at - 1);
        if cluster < last {
            lemma_runs_show(geometry, kinds, at - 1, cluster);
        } else {
            lemma_runs_show(geometry, kinds, at - 1, 2);
        }
        if kinds(last) != kinds(start) {
            if cluster < last {
                lemma_offset_below(geometry, (last - 1) as u32);
                if cluster >= start {
                    lemma_run_shows(geometry, start, last, kinds(start), cluster);
                    lemma_shown_in_longer(
                        ranges,
                        run_range(geometry, start, last, kinds(start)),
                        Seq::empty(),
                        geometry,
                        cluster,
                        kinds(cluster),
                    );
                    assert(ranges + run_range(geometry, start, last, kinds(start)) + Seq::<
                        FsMapRange,
                    >::empty() =~= ranges + run_range(geometry, start, last, kinds(start)));
                } else {
                    lemma_shown_in_longer(
                        Seq::empty(),
                        ranges,
                        run_range(geometry, start, last, kinds(start)),
                        geometry,
                        cluster,
                        kinds(cluster),
                    );
                    assert(Seq::<FsMapRange>::empty() + ranges + run_range(
                        geometry,
                        start,
                        last,
                        kinds(start),
                    ) =~= ranges + run_range(geometry, start, last, kinds(start)));
                }
            }
        }
    }
}

/// Where the last cluster of a volume has a place, every cluster before it
/// has one.
proof fn lemma_offset_below(geometry: Geometry, cluster: u32)
    requires
        2 <= cluster < fat_table::cluster_end(geometry.count_of_clusters),
        geometry.offset_of((fat_table::cluster_end(geometry.count_of_clusters) - 1) as u32)
            is Some,
    ensures
        geometry.offset_of(cluster) is Some,
{
    let last = fat_table::cluster_end(geometry.count_of_clusters) - 1;
    let size = geometry.cluster_size as int;
    assert(0 <= (cluster - 2) * size <= (last - 2) * size) by (nonlinear_arith)
        requires
            2 <= cluster <= last,
            0 <= size,
    ;
}

/// The drive map misses no cluster: the ranges of a volume show each cluster
/// with what it holds.
pub proof fn lemma_ranges_show_every_cluster(
    geometry: Geometry,
    kinds: spec_fn(u32) -> FsMapKind,
    cluster: u32,
)
    requires
        2 <= cluster < fat_table::cluster_end(geometry.count_of_clusters),
        geometry.offset_of((fat_table::cluster_end(geometry.count_of_clusters) - 1) as u32)
            is Some,
    ensures
        is_shown(volume_ranges(geometry, kinds), geometry, cluster, kinds(cluster)),
{
    let end = fat_table::cluster_end(geometry.count_of_clusters);
    lemma_runs_show(geometry, kinds, end as int, cluster);
    let (ranges, start) = runs_below(geometry, kinds, end as int);
    let last = run_range(geometry, start, end, kinds(start));
    if cluster >= start {
        lemma_run_shows(geometry, start, end, kinds(start), cluster);
        lemma_shown_in_longer(ranges, last, Seq::empty(), geometry, cluster, kinds(cluster));
        assert(ranges + last + Seq::<FsMapRange>::empty() =~= ranges + last);
    } else {
        lemma_shown_in_longer(Seq::empty(), ranges, last, geometry, cluster, kinds(cluster));
        assert(Seq::<FsMapRange>::empty() + ranges + last =~= ranges + last);
    }
    let all = volume_ranges(geometry, kinds);
    let own = cluster_ranges(geometry, kinds);
    let head = all.take(all.len() - own.len());
    lemma_shown_in_longer(head, own, Seq::empty(), geometry, cluster, kinds(cluster));
    assert(head + own + Seq::<FsMapRange>::empty() =~= all);
}

} // verus!
