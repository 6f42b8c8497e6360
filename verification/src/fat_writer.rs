//! Moving files on a classic FAT volume: the order of writes that keeps
//! every file readable, whatever interrupts it.

use vstd::prelude::*;

use crate::arith;
use crate::classic_fat;
use crate::classic_fat::{ClassicSnapshot, Geometry, SnapshotView};
use crate::cluster_set;
use crate::cluster_set::ClusterSet;
use crate::error;
use crate::error::{ErrorView, ServiceError};
use crate::fat_safety;
use crate::fat_table;
use crate::fat_table::ClassicKind;
use crate::text;
use crate::views;

verus! {

// ---------------------------------------------------------------------
// Entries in the table
// ---------------------------------------------------------------------

/// The bytes of an entry of FAT16 and FAT32.
pub open spec fn entry_width(kind: ClassicKind) -> nat {
    if kind == ClassicKind::Fat16 {
        2
    } else {
        4
    }
}

/// Where the entry of a cluster begins in the table.
pub open spec fn entry_start(kind: ClassicKind, cluster: u32) -> int {
    cluster * entry_width(kind)
}

/// Whether a table holds the entry of a cluster.
pub open spec fn holds_entry(kind: ClassicKind, fat: Seq<u8>, cluster: u32) -> bool {
    fat_table::entry_of(fat, kind, cluster) is Some
}

/// The bytes that set an entry. The upper four bits of a FAT32 entry are not
/// part of it and stay.
pub open spec fn entry_bytes(kind: ClassicKind, fat: Seq<u8>, cluster: u32, value: u32) -> Seq<u8> {
    if kind == ClassicKind::Fat16 {
        arith::le_bytes(value as nat % 0x1_0000, 2)
    } else {
        let at = entry_start(kind, cluster);
        let current = arith::le_value(fat.subrange(at, at + 4));
        arith::le_bytes(
            (current - current % 0x1000_0000 + value as nat % 0x1000_0000) as nat,
            4,
        )
    }
}

/// The table after an entry was set.
pub open spec fn with_entry(kind: ClassicKind, fat: Seq<u8>, cluster: u32, value: u32) -> Seq<u8> {
    arith::splice(fat, entry_start(kind, cluster), entry_bytes(kind, fat, cluster, value))
}

/// Whether a number can be the value of an entry.
pub open spec fn fits_entry(kind: ClassicKind, value: u32) -> bool {
    if kind == ClassicKind::Fat16 {
        value < 0x1_0000
    } else {
        value < 0x1000_0000
    }
}

proof fn lemma_entry_bytes(kind: ClassicKind, fat: Seq<u8>, cluster: u32, value: u32)
    requires
        kind != ClassicKind::Fat12,
        holds_entry(kind, fat, cluster),
    ensures
        entry_bytes(kind, fat, cluster, value).len() == entry_width(kind),
        with_entry(kind, fat, cluster, value).len() == fat.len(),
{
    let at = entry_start(kind, cluster);
    if kind == ClassicKind::Fat16 {
        arith::lemma_le_bytes_len(value as nat % 0x1_0000, 2);
    } else {
        let current = arith::le_value(fat.subrange(at, at + 4));
        arith::lemma_le_bytes_len(
            (current - current % 0x1000_0000 + value as nat % 0x1000_0000) as nat,
            4,
        );
    }
}

/// The part of a number that an entry holds: the lower sixteen bits on FAT16,
/// the lower twenty-eight on FAT32.
pub open spec fn held_value(kind: ClassicKind, value: u32) -> u32 {
    if kind == ClassicKind::Fat16 {
        value & 0xffff
    } else {
        value & 0x0fff_ffff
    }
}

/// What is written to an entry is read back from it, as far as the entry can
/// hold it, and no other entry changes.
pub proof fn lemma_entry_round_trip(
    kind: ClassicKind,
    fat: Seq<u8>,
    cluster: u32,
    value: u32,
    other: u32,
)
    requires
        kind != ClassicKind::Fat12,
        holds_entry(kind, fat, cluster),
    ensures
        fat_table::entry_of(with_entry(kind, fat, cluster, value), kind, cluster) == Some(
            held_value(kind, value),
        ),
        fits_entry(kind, value) ==> held_value(kind, value) == value,
        other != cluster ==> fat_table::entry_of(
            with_entry(kind, fat, cluster, value),
            kind,
            other,
        ) == fat_table::entry_of(fat, kind, other),
{
    lemma_entry_bytes(kind, fat, cluster, value);
    let after = with_entry(kind, fat, cluster, value);
    let width = entry_width(kind) as int;
    let at = entry_start(kind, cluster);
    let bytes = entry_bytes(kind, fat, cluster, value);
    assert(after.subrange(at, at + width) =~= bytes);
    assert(value & 0xffff == value % 0x1_0000) by (bit_vector);
    assert(value & 0x0fff_ffff == value % 0x1000_0000) by (bit_vector);
    assert(vstd::arithmetic::power::pow(256, 2) == 0x1_0000 && vstd::arithmetic::power::pow(256, 4)
        == 0x1_0000_0000) by {
        reveal_with_fuel(vstd::arithmetic::power::pow, 5);
    }
    if kind == ClassicKind::Fat16 {
        arith::lemma_le_round_trip(value as nat % 0x1_0000, 2);
        assert(value as nat % 0x1_0000 == (value & 0xffff) as nat);
    } else {
        let current = arith::le_value(fat.subrange(at, at + 4));
        let word = (current - current % 0x1000_0000 + value as nat % 0x1000_0000) as nat;
        arith::lemma_le_value_4(fat.subrange(at, at + 4));
        assert(current < 0x1_0000_0000);
        assert(word < 0x1_0000_0000);
        arith::lemma_le_round_trip(word, 4);
        assert(word % 0x1000_0000 == value as nat % 0x1000_0000);
        assert(value as nat % 0x1000_0000 == (value & 0x0fff_ffff) as nat);
    }
    if other != cluster {
        let there = entry_start(kind, other);
        if there + width <= fat.len() {
            assert(after.subrange(there, there + width) =~= fat.subrange(there, there + width));
        }
    }
}

// ---------------------------------------------------------------------
// Steps
// ---------------------------------------------------------------------

/// Bytes to write at a place of the device.
#[derive(Debug)]
pub struct DeviceWrite {
    pub offset: u64,
    pub bytes: Vec<u8>,
}

/// The contents of a [`DeviceWrite`].
#[verifier::ext_equal]
pub struct WriteView {
    pub offset: u64,
    pub bytes: Seq<u8>,
}

impl View for DeviceWrite {
    type V = WriteView;

    open spec fn view(&self) -> WriteView {
        WriteView { offset: self.offset, bytes: self.bytes@ }
    }
}

/// One step on the device. The steps of a list are done in order.
#[derive(Debug)]
pub enum WriterStep {
    /// Copy a cluster and compare the copy with it; the copy is on the
    /// device before the next step begins.
    Copy { from: u32, to: u32, source: u64, destination: u64 },
    /// Set an entry of the table: write its bytes to every copy of the
    /// table, to the first copy last.
    SetEntry { cluster: u32, value: u32, writes: Vec<DeviceWrite> },
    /// Set the first cluster in the directory entry of a file.
    SetFirst { file_index: usize, cluster: u32, offset: u64 },
    /// Refresh the free-space summary in a sector.
    SetInfo { offset: u64, length: u32, free_count: u32, next_free: u32 },
    /// Wait until everything before is on the device.
    Sync,
}

/// The contents of a [`WriterStep`].
#[verifier::ext_equal]
pub enum StepView {
    Copy { from: u32, to: u32, source: u64, destination: u64 },
    SetEntry { cluster: u32, value: u32, writes: Seq<WriteView> },
    SetFirst { file_index: usize, cluster: u32, offset: u64 },
    SetInfo { offset: u64, length: u32, free_count: u32, next_free: u32 },
    Sync,
}

impl View for WriterStep {
    type V = StepView;

    open spec fn view(&self) -> StepView {
        match self {
            WriterStep::Copy { from, to, source, destination } => StepView::Copy {
                from: *from,
                to: *to,
                source: *source,
                destination: *destination,
            },
            WriterStep::SetEntry { cluster, value, writes } => StepView::SetEntry {
                cluster: *cluster,
                value: *value,
                writes: views::of(writes@),
            },
            WriterStep::SetFirst { file_index, cluster, offset } => StepView::SetFirst {
                file_index: *file_index,
                cluster: *cluster,
                offset: *offset,
            },
            WriterStep::SetInfo { offset, length, free_count, next_free } => StepView::SetInfo {
                offset: *offset,
                length: *length,
                free_count: *free_count,
                next_free: *next_free,
            },
            WriterStep::Sync => StepView::Sync,
        }
    }
}

/// What a step does to the volume.
#[verifier::ext_equal]
pub enum Effect {
    Copy { from: u32, to: u32 },
    SetEntry { cluster: u32, value: u32 },
    SetFirst { file_index: usize, cluster: u32 },
    Sync,
}

/// The state of a writer.
#[verifier::ext_equal]
pub struct WriterView {
    pub kind: ClassicKind,
    pub geometry: Geometry,
    pub boot: Seq<u8>,
    pub fat: Seq<u8>,
    /// Where the directory entry of each file lies.
    pub entries: Seq<u64>,
    /// The clusters of each file.
    pub chains: Seq<Seq<u32>>,
    pub free: Set<u32>,
}

/// The writes that set an entry: one for each copy of the table, the first
/// copy last.
pub open spec fn entry_writes(w: WriterView, fat: Seq<u8>, cluster: u32, value: u32) -> Seq<
    WriteView,
> {
    Seq::new(
        w.geometry.num_fats as nat,
        |i: int|
            WriteView {
                offset: arith::sat64(
                    w.geometry.table_start(w.geometry.num_fats - 1 - i) + entry_start(
                        w.kind,
                        cluster,
                    ),
                ) as u64,
                bytes: entry_bytes(w.kind, fat, cluster, value),
            },
    )
}

/// An entry is set in every copy of the table with the same bytes, and in the
/// first copy last.
pub proof fn lemma_first_copy_is_set_last(w: WriterView, fat: Seq<u8>, cluster: u32, value: u32)
    requires
        w.geometry.num_fats > 0,
    ensures
        entry_writes(w, fat, cluster, value).len() == w.geometry.num_fats,
        entry_writes(w, fat, cluster, value).last().offset == arith::sat64(
            w.geometry.table_start(0) + entry_start(w.kind, cluster),
        ),
        forall|i: int|
            0 <= i < w.geometry.num_fats ==> (#[trigger] entry_writes(
                w,
                fat,
                cluster,
                value,
            )[i]).bytes == entry_bytes(w.kind, fat, cluster, value),
{
}

/// The table after some effects.
pub open spec fn table_after(kind: ClassicKind, fat: Seq<u8>, effects: Seq<Effect>) -> Seq<u8>
    decreases effects.len(),
{
    if effects.len() == 0 {
        fat
    } else {
        let before = table_after(kind, fat, effects.drop_last());
        match effects.last() {
            Effect::SetEntry { cluster, value } => with_entry(kind, before, cluster, value),
            _ => before,
        }
    }
}

/// The step that has an effect, when the table stands as given.
pub open spec fn step_for(w: WriterView, fat: Seq<u8>, effect: Effect) -> StepView {
    match effect {
        Effect::Copy { from, to } => StepView::Copy {
            from,
            to,
            source: w.geometry.offset_of(from)->0,
            destination: w.geometry.offset_of(to)->0,
        },
        Effect::SetEntry { cluster, value } => StepView::SetEntry {
            cluster,
            value,
            writes: entry_writes(w, fat, cluster, value),
        },
        Effect::SetFirst { file_index, cluster } => StepView::SetFirst {
            file_index,
            cluster,
            offset: w.entries[file_index as int],
        },
        Effect::Sync => StepView::Sync,
    }
}

/// The steps that have the given effects, one after the other.
pub open spec fn steps_for(w: WriterView, effects: Seq<Effect>) -> Seq<StepView>
    decreases effects.len(),
{
    if effects.len() == 0 {
        Seq::empty()
    } else {
        steps_for(w, effects.drop_last()).push(
            step_for(w, table_after(w.kind, w.fat, effects.drop_last()), effects.last()),
        )
    }
}

// ---------------------------------------------------------------------
// Decisions
// ---------------------------------------------------------------------

/// The cluster that follows a place of a chain, or the mark that ends it.
pub open spec fn following(kind: ClassicKind, chain: Seq<u32>, position: int) -> u32 {
    if position + 1 < chain.len() {
        chain[position + 1]
    } else {
        fat_table::end_mark(kind)
    }
}

/// The effects that move one cluster of a file to a free one. The copy comes
/// first; its entry leads on before anything leads to it; the old cluster is
/// given up last.
pub open spec fn relocation(w: WriterView, file: int, position: int, destination: u32) -> Seq<
    Effect,
> {
    let chain = w.chains[file];
    seq![
        Effect::Copy { from: chain[position], to: destination },
        Effect::SetEntry {
            cluster: destination,
            value: following(w.kind, chain, position),
        },
        Effect::Sync,
    ] + (if position == 0 {
        seq![Effect::SetFirst { file_index: file as usize, cluster: destination }]
    } else {
        seq![
            Effect::SetEntry { cluster: chain[position - 1], value: destination },
            Effect::Sync,
        ]
    }) + seq![
        Effect::Sync,
        Effect::SetEntry { cluster: chain[position], value: 0 },
        Effect::Sync,
    ]
}

/// The writer after one cluster of a file was moved.
pub open spec fn relocated(w: WriterView, file: int, position: int, destination: u32) -> WriterView {
    WriterView {
        fat: table_after(w.kind, w.fat, relocation(w, file, position, destination)),
        chains: w.chains.update(file, w.chains[file].update(position, destination)),
        free: w.free.remove(destination).insert(w.chains[file][position]),
        ..w
    }
}

/// The entries that link `clusters` to a chain.
pub open spec fn linking(kind: ClassicKind, clusters: Seq<u32>) -> Seq<Effect> {
    Seq::new(
        clusters.len(),
        |i: int| Effect::SetEntry { cluster: clusters[i], value: following(kind, clusters, i) },
    )
}

/// The entries that give up `clusters`.
pub open spec fn releasing(clusters: Seq<u32>) -> Seq<Effect> {
    Seq::new(clusters.len(), |i: int| Effect::SetEntry { cluster: clusters[i], value: 0 })
}

/// The effects that make a file's copied clusters its chain: the new chain
/// is linked, the file is led to it, the old chain is given up.
pub open spec fn commitment(w: WriterView, file: int, target: Seq<u32>) -> Seq<Effect> {
    linking(w.kind, target).push(Effect::Sync).push(
        Effect::SetFirst { file_index: file as usize, cluster: target[0] },
    ).push(Effect::Sync) + releasing(w.chains[file]).push(Effect::Sync)
}

/// The writer after a file's copied clusters became its chain.
pub open spec fn committed(w: WriterView, file: int, target: Seq<u32>) -> WriterView {
    WriterView {
        fat: table_after(w.kind, w.fat, commitment(w, file, target)),
        chains: w.chains.update(file, target),
        free: w.free.difference(target.to_set()).union(w.chains[file].to_set()),
        ..w
    }
}

/// Whether a cluster belongs to a file at a place of its chain.
pub open spec fn owns(w: WriterView, cluster: u32, file: int, position: int) -> bool {
    0 <= file < w.chains.len() && 0 <= position < w.chains[file].len() && w.chains[file][position]
        == cluster
}

/// Whether no cluster belongs to files twice.
pub open spec fn unshared(w: WriterView) -> bool {
    forall|f: int, p: int, g: int, q: int|
        #![trigger w.chains[f][p], w.chains[g][q]]
        0 <= f < w.chains.len() && 0 <= p < w.chains[f].len() && 0 <= g < w.chains.len() && 0 <= q
            < w.chains[g].len() && w.chains[f][p] == w.chains[g][q] ==> f == g && p == q
}

// ---------------------------------------------------------------------
// The writer
// ---------------------------------------------------------------------

/// A volume that is being rewritten: its snapshot as the steps given out so
/// far leave it.
pub struct ClassicWriter {
    pub snapshot: ClassicSnapshot,
    chains: Vec<Vec<u32>>,
    free: ClusterSet,
}

/// How the writing of a volume is closed: the steps to do, and whether the
/// volume is marked as clean once they are done.
#[derive(Debug)]
pub struct Closing {
    pub steps: Vec<WriterStep>,
    pub result: Result<(), ServiceError>,
}

pub open spec fn fat12_error() -> ErrorView {
    ErrorView::UnsafeFilesystem("FAT12 writes are unsupported"@)
}

pub open spec fn no_status_error() -> ErrorView {
    ErrorView::UnsafeFilesystem("FAT status entry is missing"@)
}

fn fat12_unsupported() -> (error: ServiceError)
    ensures
        error@ == fat12_error(),
{
    error::unsafe_fs("FAT12 writes are unsupported".to_owned())
}

/// Whether the table of a volume holds the entry of every cluster.
pub open spec fn table_complete(w: WriterView) -> bool {
    forall|c: u32|
        2 <= c < fat_table::cluster_end(w.geometry.count_of_clusters) ==> #[trigger] holds_entry(
            w.kind,
            w.fat,
            c,
        )
}

/// Whether a cluster lies in the data area.
pub open spec fn in_data_area(w: WriterView, cluster: u32) -> bool {
    2 <= cluster < fat_table::cluster_end(w.geometry.count_of_clusters)
}

impl ClassicWriter {
    /// The state of the writer.
    pub closed spec fn view(&self) -> WriterView {
        WriterView {
            kind: self.snapshot.kind,
            geometry: self.snapshot.geometry,
            boot: self.snapshot.boot@,
            fat: self.snapshot.fat@,
            entries: Seq::new(
                self.snapshot.files@.len(),
                |i: int| self.snapshot.files@[i].entry_offset,
            ),
            chains: views::of(self.chains@),
            free: self.free@,
        }
    }

    /// Every cluster that the writer names has an entry in the table.
    pub closed spec fn wf(&self) -> bool {
        &&& self.chains@.len() == self.snapshot.files@.len()
        &&& self.free.limit() >= fat_table::cluster_end(
            self.snapshot.geometry.count_of_clusters,
        )
        &&& self.snapshot.boot@.len() == 512
        &&& table_complete(self@)
        &&& forall|f: int, p: int|
            #![trigger self.chains@[f]@[p]]
            0 <= f < self.chains@.len() && 0 <= p < self.chains@[f]@.len() ==> in_data_area(
                self@,
                self.chains@[f]@[p],
            )
        &&& forall|c: u32| #[trigger] self.free@.contains(c) ==> in_data_area(self@, c)
    }
}

/// The state of a writer that begins with a snapshot.
pub open spec fn writer_of(s: SnapshotView) -> WriterView {
    WriterView {
        kind: s.kind,
        geometry: s.geometry,
        boot: s.boot,
        fat: s.fat,
        entries: Seq::new(s.files.len(), |i: int| s.files[i].entry_offset),
        chains: Seq::new(s.files.len(), |i: int| s.files[i].chain),
        free: s.free_clusters.to_set(),
    }
}

/// Why a volume is not opened for writing: it is a FAT12 volume, something
/// speaks against writing it, or it is not as it was when it was planned for.
pub open spec fn opening_error(planned: SnapshotView, found: SnapshotView) -> Option<ErrorView> {
    if found.kind == ClassicKind::Fat12 {
        Some(fat12_error())
    } else if found.writable_issues.len() > 0 {
        Some(ErrorView::UnsafeFilesystem(found.writable_issues[0]))
    } else if !classic_fat::equivalent(planned, found) {
        Some(ErrorView::UnsafeFilesystem("the volume changed since it was analyzed"@))
    } else {
        None
    }
}

/// A volume is only opened for writing where nothing speaks against it, and
/// where its boot sector, its table, and the chains and entries of its files
/// are those that it was planned for.
pub proof fn lemma_only_sound_volumes_are_opened(planned: SnapshotView, found: SnapshotView)
    requires
        opening_error(planned, found) is None,
    ensures
        found.kind != ClassicKind::Fat12,
        found.writable_issues.len() == 0,
        found.boot == planned.boot,
        found.fat == planned.fat,
        found.files.len() == planned.files.len(),
        forall|f: int|
            0 <= f < found.files.len() ==> {
                &&& (#[trigger] found.files[f]).chain == planned.files[f].chain
                &&& found.files[f].entry_offset == planned.files[f].entry_offset
            },
{
    assert forall|f: int| 0 <= f < found.files.len() implies {
        &&& (#[trigger] found.files[f]).chain == planned.files[f].chain
        &&& found.files[f].entry_offset == planned.files[f].entry_offset
    } by {
        assert(classic_fat::same_file(planned.files[f], found.files[f]));
    }
}

impl ClassicWriter {
    /// Begins to write a volume that was read again, where it may be written
    /// and is as it was when it was planned for.
    pub fn open(planned: &ClassicSnapshot, found: ClassicSnapshot) -> (result: Result<
        ClassicWriter,
        ServiceError,
    >)
        requires
            found@.complete(),
        ensures
            match result {
                Ok(writer) => {
                    &&& opening_error(planned@, found@) is None
                    &&& writer.wf()
                    &&& writer@ == writer_of(found@)
                    &&& fat_safety::numbers_fit(writer@) ==> fat_safety::is_sound(writer@)
                },
                Err(e) => opening_error(planned@, found@) == Some(e@),
            },
    {
        if found.kind == ClassicKind::Fat12 {
            return Err(fat12_unsupported());
        }
        if found.writable_issues.len() > 0 {
            assert(found@.writable_issues[0] == found.writable_issues@[0]@);
            return Err(error::unsafe_fs(found.writable_issues[0].clone()));
        }
        if !planned.equivalent_to(&found) {
            return Err(error::unsafe_fs("the volume changed since it was analyzed".to_owned()));
        }
        proof {
            if fat_safety::numbers_fit(writer_of(found@)) {
                fat_safety::lemma_clean_snapshot_is_sound(
                    found@,
                    fat_safety::Image { fat: found@.fat, first: Seq::empty(), data: Map::empty() },
                );
            }
        }
        Ok(ClassicWriter::new(found))
    }

    /// Begins to write a volume.
    pub fn new(snapshot: ClassicSnapshot) -> (writer: ClassicWriter)
        requires
            snapshot@.complete(),
        ensures
            writer.wf(),
            writer@ == writer_of(snapshot@),
    {
        let ghost s = snapshot@;
        let mut chains: Vec<Vec<u32>> = Vec::new();
        let mut i: usize = 0;
        while i < snapshot.files.len()
            invariant
                i <= snapshot.files@.len(),
                chains@.len() == i,
                forall|k: int|
                    0 <= k < i ==> (#[trigger] chains@[k])@ == snapshot.files@[k].chain@,
            decreases snapshot.files@.len() - i,
        {
            chains.push(views::copy_list(&snapshot.files[i].chain));
            i = i + 1;
        }
        let end: u32 = fat_table::end_of_clusters(snapshot.geometry.count_of_clusters);
        let mut free: ClusterSet = ClusterSet::new(end as usize);
        free.insert_all(&snapshot.free_clusters);
        let writer: ClassicWriter = ClassicWriter { snapshot, chains, free };
        proof {
            assert(writer@.chains =~= writer_of(s).chains) by {
                assert forall|k: int| 0 <= k < chains@.len() implies #[trigger] writer@.chains[k]
                    == writer_of(s).chains[k] by {
                    assert(chains@[k]@ == snapshot.files@[k].chain@);
                }
            }
            assert(writer@.entries =~= writer_of(s).entries);
            assert(writer@.free =~= writer_of(s).free);
            assert forall|f: int, p: int|
                #![trigger writer.chains@[f]@[p]]
                0 <= f < writer.chains@.len() && 0 <= p
                    < writer.chains@[f]@.len() implies in_data_area(
                writer@,
                writer.chains@[f]@[p],
            ) by {
                assert(writer.chains@[f]@ == s.files[f].chain);
                assert(2 <= s.files[f].chain[p] < end);
            }
            assert forall|c: u32| #[trigger] writer.free@.contains(c) implies in_data_area(
                writer@,
                c,
            ) by {
                assert(s.free_clusters.contains(c));
            }
        }
        writer
    }

    /// The chain of a file.
    pub fn current_chain(&self, file_index: usize) -> (chain: Option<Vec<u32>>)
        requires
            self.wf(),
        ensures
            match chain {
                Some(c) => file_index < self@.chains.len() && c@ == self@.chains[file_index as int],
                None => file_index >= self@.chains.len(),
            },
    {
        if file_index < self.chains.len() {
            Some(views::copy_list(&self.chains[file_index]))
        } else {
            None
        }
    }

    /// Sets an entry of the table: the step that writes it.
    fn set_entry(&mut self, cluster: u32, value: u32) -> (step: WriterStep)
        requires
            old(self).wf(),
            old(self)@.kind != ClassicKind::Fat12,
            holds_entry(old(self)@.kind, old(self)@.fat, cluster),
        ensures
            final(self).wf(),
            final(self)@ == (WriterView {
                fat: with_entry(old(self)@.kind, old(self)@.fat, cluster, value),
                ..old(self)@
            }),
            step@ == step_for(
                old(self)@,
                old(self)@.fat,
                Effect::SetEntry { cluster, value },
            ),
    {
        let ghost w = self@;
        let kind: ClassicKind = self.snapshot.kind;
        let len: usize = self.snapshot.fat.len();
        let width: usize = if kind == ClassicKind::Fat16 {
            2
        } else {
            4
        };
        proof {
            assert(cluster * width <= len) by {
                assert(entry_start(kind, cluster) == cluster * width);
            }
            lemma_entry_bytes(kind, w.fat, cluster, value);
        }
        let offset: u64 = cluster as u64 * width as u64;
        let at: usize = offset as usize;
        let word: u64 = if kind == ClassicKind::Fat16 {
            (value % 0x1_0000) as u64
        } else {
            let current: u32 = arith::read_u32(&self.snapshot.fat, at);
            (current - current % 0x1000_0000) as u64 + (value % 0x1000_0000) as u64
        };
        let mut encoded: Vec<u8> = Vec::new();
        arith::push_le(&mut encoded, word, width);
        assert(encoded@ =~= entry_bytes(kind, w.fat, cluster, value));
        let mut writes: Vec<DeviceWrite> = Vec::new();
        let ghost goal = entry_writes(w, w.fat, cluster, value);
        let mut copy: u8 = self.snapshot.geometry.num_fats;
        while copy > 0
            invariant
                copy <= self.snapshot.geometry.num_fats,
                self@ == w,
                encoded@ == entry_bytes(w.kind, w.fat, cluster, value),
                offset == entry_start(w.kind, cluster),
                goal == entry_writes(w, w.fat, cluster, value),
                views::of(writes@) == goal.take(self.snapshot.geometry.num_fats - copy),
            decreases copy,
        {
            copy = copy - 1;
            let physical: u64 = self.snapshot.geometry.fat_copy_start(copy).saturating_add(offset);
            let write: DeviceWrite = DeviceWrite {
                offset: physical,
                bytes: views::copy_list(&encoded),
            };
            let ghost before = views::of(writes@);
            writes.push(write);
            proof {
                let n = self.snapshot.geometry.num_fats - copy;
                assert(goal[n - 1] =~= write@);
                assert(views::of(writes@) =~= before.push(write@));
                assert(goal.take(n) =~= goal.take(n - 1).push(goal[n - 1]));
            }
        }
        assert(views::of(writes@) =~= goal);
        arith::write_le(&mut self.snapshot.fat, at, word, width);
        proof {
            assert(self.snapshot.fat@ =~= with_entry(kind, w.fat, cluster, value));
            assert(self@.entries =~= w.entries);
            assert(self@.chains =~= w.chains);
            assert(table_complete(self@)) by {
                assert forall|c: u32|
                    2 <= c < fat_table::cluster_end(
                        self@.geometry.count_of_clusters,
                    ) implies #[trigger] holds_entry(self@.kind, self@.fat, c) by {
                    assert(holds_entry(w.kind, w.fat, c));
                }
            }
        }
        WriterStep::SetEntry { cluster, value, writes }
    }

    /// Clears the bit that a clean shutdown leaves set.
    pub fn mark_dirty(&mut self) -> (result: Result<Vec<WriterStep>, ServiceError>)
        requires
            old(self).wf(),
        ensures
            final(self).wf(),
            match result {
                Ok(steps) => status_value(old(self)@) matches Some(status) && old(self)@.kind
                    != ClassicKind::Fat12 && ({
                    let effects = seq![
                        Effect::SetEntry { cluster: 1, value: dirty_status(old(self)@.kind, status)
                        },
                        Effect::Sync,
                    ];
                    &&& views::of(steps@) == steps_for(old(self)@, effects)
                    &&& final(self)@ == (WriterView {
                        fat: table_after(old(self)@.kind, old(self)@.fat, effects),
                        ..old(self)@
                    })
                }),
                Err(e) => final(self)@ == old(self)@ && (if status_value(old(self)@) is None {
                    e@ == no_status_error()
                } else {
                    old(self)@.kind == ClassicKind::Fat12 && e@ == fat12_error()
                }),
            },
    {
        let ghost w = self@;
        let value: u32 = match fat_table::fat_entry(&self.snapshot.fat, self.snapshot.kind, 1) {
            Some(value) => value,
            None => {
                return Err(error::unsafe_fs("FAT status entry is missing".to_owned()));
            },
        };
        let marked: u32 = match self.snapshot.kind {
            ClassicKind::Fat12 => {
                return Err(fat12_unsupported());
            },
            ClassicKind::Fat16 => value & !0x8000u32,
            ClassicKind::Fat32 => value & !0x0800_0000u32,
        };
        Ok(self.set_status(marked))
    }

    fn set_status(&mut self, value: u32) -> (steps: Vec<WriterStep>)
        requires
            old(self).wf(),
            old(self)@.kind != ClassicKind::Fat12,
            status_value(old(self)@) is Some,
        ensures
            final(self).wf(),
            ({
                let effects = seq![Effect::SetEntry { cluster: 1, value }, Effect::Sync];
                &&& views::of(steps@) == steps_for(old(self)@, effects)
                &&& final(self)@ == (WriterView {
                    fat: table_after(old(self)@.kind, old(self)@.fat, effects),
                    ..old(self)@
                })
            }),
    {
        let ghost w = self@;
        let ghost effects = seq![Effect::SetEntry { cluster: 1, value }, Effect::Sync];
        let step: WriterStep = self.set_entry(1, value);
        let mut steps: Vec<WriterStep> = Vec::new();
        steps.push(step);
        steps.push(WriterStep::Sync);
        proof {
            reveal_with_fuel(steps_for, 3);
            reveal_with_fuel(table_after, 3);
            assert(effects.drop_last() =~= seq![Effect::SetEntry { cluster: 1, value }]);
            assert(effects.drop_last().drop_last() =~= Seq::<Effect>::empty());
            assert(views::of(steps@) =~= steps_for(w, effects));
        }
        steps
    }

    /// Refreshes the free-space summaries and sets the bits of a clean
    /// shutdown. The summaries are refreshed even where the bits cannot be
    /// set.
    pub fn finish_clean(&mut self) -> (closing: Closing)
        requires
            old(self).wf(),
        ensures
            final(self).wf(),
            match closing.result {
                Ok(_) => status_value(old(self)@) matches Some(status) && old(self)@.kind
                    != ClassicKind::Fat12 && ({
                    let effects = seq![
                        Effect::SetEntry { cluster: 1, value: clean_status(old(self)@.kind, status)
                        },
                        Effect::Sync,
                    ];
                    &&& views::of(closing.steps@) == info_steps(old(self)@) + steps_for(
                        old(self)@,
                        effects,
                    )
                    &&& final(self)@ == (WriterView {
                        fat: table_after(old(self)@.kind, old(self)@.fat, effects),
                        ..old(self)@
                    })
                }),
                Err(e) => {
                    &&& views::of(closing.steps@) == info_steps(old(self)@)
                    &&& final(self)@ == old(self)@
                    &&& if status_value(old(self)@) is None {
                        e@ == no_status_error()
                    } else {
                        old(self)@.kind == ClassicKind::Fat12 && e@ == fat12_error()
                    }
                },
            },
    {
        let ghost w = self@;
        let mut steps: Vec<WriterStep> = self.update_fsinfo();
        let ghost info = views::of(steps@);
        let value: u32 = match fat_table::fat_entry(&self.snapshot.fat, self.snapshot.kind, 1) {
            Some(value) => value,
            None => {
                return Closing {
                    steps,
                    result: Err(error::unsafe_fs("FAT status entry is missing".to_owned())),
                };
            },
        };
        let marked: u32 = match self.snapshot.kind {
            ClassicKind::Fat12 => {
                return Closing { steps, result: Err(fat12_unsupported()) };
            },
            ClassicKind::Fat16 => value | 0xc000u32,
            ClassicKind::Fat32 => value | 0x0c00_0000u32,
        };
        let mut tail: Vec<WriterStep> = self.set_status(marked);
        let ghost added = views::of(tail@);
        steps.append(&mut tail);
        assert(views::of(steps@) =~= info + added);
        Closing { steps, result: Ok(()) }
    }

    /// The steps that refresh the free-space summaries.
    fn update_fsinfo(&self) -> (steps: Vec<WriterStep>)
        requires
            self.wf(),
        ensures
            views::of(steps@) == info_steps(self@),
    {
        let mut steps: Vec<WriterStep> = Vec::new();
        if self.snapshot.kind != ClassicKind::Fat32 {
            steps.push(WriterStep::Sync);
            assert(views::of(steps@) =~= info_steps(self@));
            return steps;
        }
        let sector: u16 = arith::read_u16(&self.snapshot.boot, 48);
        if sector == 0 || sector == 0xffff {
            assert(views::of(steps@) =~= info_steps(self@));
            return steps;
        }
        let length: u32 = self.snapshot.geometry.bytes_per_sector;
        let count: u64 = self.free.len();
        let free_count: u32 = if count <= u32::MAX as u64 {
            count as u32
        } else {
            u32::MAX
        };
        let next_free: u32 = match self.free.first() {
            Some(cluster) => cluster,
            None => 0xffff_ffff,
        };
        assert(is_next_free(self@.free, next_free));
        proof {
            lemma_next_free_unique(self@.free, next_free, next_free_of(self@.free));
            assert(sector * length >= 0) by (nonlinear_arith);
        }
        let offset: u64 = arith::saturating_mul(sector as u64, length as u64);
        steps.push(WriterStep::SetInfo { offset, length, free_count, next_free });
        let backup: u16 = arith::read_u16(&self.snapshot.boot, 50);
        if backup != 0 && backup != 0xffff {
            let backup_sector: u64 = backup as u64 + sector as u64;
            assert(backup_sector * length >= 0) by (nonlinear_arith);
            let backup_offset: u64 = arith::saturating_mul(backup_sector, length as u64);
            steps.push(
                WriterStep::SetInfo { offset: backup_offset, length, free_count, next_free },
            );
        }
        steps.push(WriterStep::Sync);
        assert(views::of(steps@) =~= info_steps(self@));
        steps
    }
}

/// The status entry of a volume.
pub open spec fn status_value(w: WriterView) -> Option<u32> {
    fat_table::entry_of(w.fat, w.kind, 1)
}

/// A status without the mark of a clean shutdown.
pub open spec fn dirty_status(kind: ClassicKind, status: u32) -> u32 {
    status & !classic_fat::clean_bit(kind)
}

/// A status with the marks of a clean shutdown and a sound disk.
pub open spec fn clean_status(kind: ClassicKind, status: u32) -> u32 {
    if kind == ClassicKind::Fat16 {
        status | 0xc000u32
    } else {
        status | 0x0c00_0000u32
    }
}

/// Whether a number is what the summary names as the next free cluster: the
/// lowest free one, or all ones where none is free.
pub open spec fn is_next_free(free: Set<u32>, next: u32) -> bool {
    if free == Set::<u32>::empty() {
        next == 0xffff_ffff
    } else {
        free.contains(next) && forall|c: u32| #[trigger] free.contains(c) ==> next <= c
    }
}

/// What the summary names as the next free cluster.
pub open spec fn next_free_of(free: Set<u32>) -> u32 {
    choose|next: u32| is_next_free(free, next)
}

proof fn lemma_next_free_unique(free: Set<u32>, a: u32, b: u32)
    requires
        is_next_free(free, a),
    ensures
        is_next_free(free, b) ==> a == b,
        is_next_free(free, next_free_of(free)),
{
}

/// The number of free clusters that a summary can hold.
pub open spec fn free_count_of(free: Set<u32>) -> u32 {
    arith::min_int(cluster_set::size(free) as int, u32::MAX as int) as u32
}

/// The step that refreshes the summary in a sector.
pub open spec fn info_step(w: WriterView, sector: int) -> StepView {
    StepView::SetInfo {
        offset: arith::sat64(sector * w.geometry.bytes_per_sector) as u64,
        length: w.geometry.bytes_per_sector,
        free_count: free_count_of(w.free),
        next_free: next_free_of(w.free),
    }
}

/// The steps that refresh the free-space summaries of a FAT32 volume; other
/// volumes have none.
pub open spec fn info_steps(w: WriterView) -> Seq<StepView> {
    let sector = arith::le_value(w.boot.subrange(48, 50)) as int;
    let backup = arith::le_value(w.boot.subrange(50, 52)) as int;
    if w.kind != ClassicKind::Fat32 {
        seq![StepView::Sync]
    } else if sector == 0 || sector == 0xffff {
        Seq::empty()
    } else if backup == 0 || backup == 0xffff {
        seq![info_step(w, sector), StepView::Sync]
    } else {
        seq![info_step(w, sector), info_step(w, backup + sector), StepView::Sync]
    }
}

// ---------------------------------------------------------------------
// Placing a file
// ---------------------------------------------------------------------

/// The writer when some of the effects of a change were given out.
pub open spec fn midway(w: WriterView, done: Seq<Effect>) -> WriterView {
    WriterView { fat: table_after(w.kind, w.fat, done), ..w }
}

proof fn lemma_push_effect(w: WriterView, done: Seq<Effect>, effect: Effect)
    ensures
        steps_for(w, done.push(effect)) == steps_for(w, done).push(
            step_for(w, table_after(w.kind, w.fat, done), effect),
        ),
        !(effect is SetEntry) ==> table_after(w.kind, w.fat, done.push(effect)) == table_after(
            w.kind,
            w.fat,
            done,
        ),
        effect matches Effect::SetEntry { cluster, value } ==> table_after(
            w.kind,
            w.fat,
            done.push(effect),
        ) == with_entry(w.kind, table_after(w.kind, w.fat, done), cluster, value),
{
    assert(done.push(effect).drop_last() =~= done);
}

/// Whether a cluster belongs to a file.
pub open spec fn is_owned(w: WriterView, cluster: u32) -> bool {
    exists|f: int, p: int| #[trigger] owns(w, cluster, f, p)
}

/// Whether the cluster at a place of a chain occurs at an earlier place.
pub open spec fn occurs_before(w: WriterView, file: int, position: int) -> bool {
    exists|f: int, p: int|
        #[trigger] owns(w, w.chains[file][position], f, p) && (f < file || (f == file && p
            < position))
}

/// Whether a place of a chain is the first whose cluster occurred before.
pub open spec fn is_first_repeat(w: WriterView, file: int, position: int) -> bool {
    &&& 0 <= file < w.chains.len()
    &&& 0 <= position < w.chains[file].len()
    &&& occurs_before(w, file, position)
    &&& forall|f: int, p: int|
        0 <= f < w.chains.len() && 0 <= p < w.chains[f].len() && (f < file || (f == file && p
            < position)) ==> !#[trigger] occurs_before(w, f, p)
}

pub open spec fn cross_link_error(cluster: u32) -> ErrorView {
    ErrorView::UnsafeFilesystem(
        "cluster "@ + text::decimal(cluster as nat) + " became cross-linked during execution"@,
    )
}

/// Whether a cluster of a target is the first that belongs to a file.
pub open spec fn is_first_blocker(w: WriterView, target: Seq<u32>, i: int) -> bool {
    &&& 0 <= i < target.len()
    &&& is_owned(w, target[i])
    &&& forall|k: int| 0 <= k < i ==> !is_owned(w, #[trigger] target[k])
}

/// Why a cluster of a file cannot be moved to `destination`, where it
/// cannot.
pub open spec fn relocation_error(w: WriterView, file: int, position: int, destination: u32) -> Option<
    ErrorView,
> {
    if !(file < w.chains.len() && position < w.chains[file].len()) {
        Some(ErrorView::UnsafeFilesystem("blocker chain changed during compaction"@))
    } else if !w.free.contains(destination) {
        Some(ErrorView::UnsafeFilesystem("scratch destination is not free"@))
    } else if w.geometry.offset_of(w.chains[file][position]) is None {
        Some(
            ErrorView::UnsafeFilesystem(
                classic_fat::no_offset_text(w.chains[file][position]),
            ),
        )
    } else if w.geometry.offset_of(destination) is None {
        Some(ErrorView::UnsafeFilesystem(classic_fat::no_offset_text(destination)))
    } else if w.kind == ClassicKind::Fat12 {
        Some(fat12_error())
    } else {
        None
    }
}

/// A move of data that is about to happen, and the steps that do it.
#[derive(Debug)]
pub struct DataMove {
    pub source: u64,
    pub destination: u64,
    pub length: u64,
    pub steps: Vec<WriterStep>,
}

/// The contents of a [`DataMove`].
#[verifier::ext_equal]
pub struct MoveView {
    pub source: u64,
    pub destination: u64,
    pub length: u64,
    pub steps: Seq<StepView>,
}

impl View for DataMove {
    type V = MoveView;

    open spec fn view(&self) -> MoveView {
        MoveView {
            source: self.source,
            destination: self.destination,
            length: self.length,
            steps: views::of(self.steps@),
        }
    }
}

impl ClassicWriter {
    /// Adds a step that sets an entry.
    fn emit_entry(
        &mut self,
        steps: &mut Vec<WriterStep>,
        cluster: u32,
        value: u32,
        Ghost(w): Ghost<WriterView>,
        Ghost(done): Ghost<Seq<Effect>>,
    )
        requires
            old(self).wf(),
            old(self)@ == midway(w, done),
            w.kind != ClassicKind::Fat12,
            in_data_area(w, cluster),
            views::of(old(steps)@) == steps_for(w, done),
        ensures
            final(self).wf(),
            final(self)@ == midway(w, done.push(Effect::SetEntry { cluster, value })),
            views::of(final(steps)@) == steps_for(
                w,
                done.push(Effect::SetEntry { cluster, value }),
            ),
    {
        let ghost before = views::of(steps@);
        let ghost current = self@;
        assert(holds_entry(current.kind, current.fat, cluster));
        let step: WriterStep = self.set_entry(cluster, value);
        proof {
            lemma_push_effect(w, done, Effect::SetEntry { cluster, value });
            assert(entry_writes(current, current.fat, cluster, value) =~= entry_writes(
                w,
                current.fat,
                cluster,
                value,
            ));
        }
        steps.push(step);
        assert(views::of(steps@) =~= before.push(step@));
    }

    /// Adds a step that leaves the table alone.
    fn emit(
        &self,
        steps: &mut Vec<WriterStep>,
        step: WriterStep,
        Ghost(w): Ghost<WriterView>,
        Ghost(done): Ghost<Seq<Effect>>,
        Ghost(effect): Ghost<Effect>,
    )
        requires
            self@ == midway(w, done),
            !(effect is SetEntry),
            step@ == step_for(w, w.fat, effect),
            views::of(old(steps)@) == steps_for(w, done),
        ensures
            self@ == midway(w, done.push(effect)),
            views::of(final(steps)@) == steps_for(w, done.push(effect)),
    {
        let ghost before = views::of(steps@);
        proof {
            lemma_push_effect(w, done, effect);
        }
        steps.push(step);
        assert(views::of(steps@) =~= before.push(step@));
    }

    /// Finds the owner of every cluster; fails where a cluster has two.
    fn owners(&self) -> (result: Result<
        std::collections::HashMap<u32, (usize, usize)>,
        ServiceError,
    >)
        requires
            self.wf(),
        ensures
            match result {
                Ok(map) => {
                    &&& unshared(self@)
                    &&& forall|c: u32| #[trigger] map@.contains_key(c) <==> is_owned(self@, c)
                    &&& forall|c: u32| #[trigger]
                        map@.contains_key(c) ==> owns(
                            self@,
                            c,
                            map@[c].0 as int,
                            map@[c].1 as int,
                        )
                },
                Err(e) => exists|f: int, p: int| #[trigger]
                    is_first_repeat(self@, f, p) && e@ == cross_link_error(self@.chains[f][p]),
            },
    {
        let ghost w = self@;
        let mut map: std::collections::HashMap<u32, (usize, usize)> =
            std::collections::HashMap::new();
        let mut f: usize = 0;
        while f < self.chains.len()
            invariant
                f <= self.chains@.len(),
                self@ == w,
                w.chains == views::of(self.chains@),
                forall|c: u32| #[trigger]
                    map@.contains_key(c) ==> owns(w, c, map@[c].0 as int, map@[c].1 as int),
                forall|g: int, q: int|
                    #![trigger w.chains[g][q]]
                    0 <= g < f && 0 <= q < w.chains[g].len() ==> map@.contains_key(w.chains[g][q])
                        && map@[w.chains[g][q]] == (g as usize, q as usize),
                forall|c: u32| #[trigger] map@.contains_key(c) ==> map@[c].0 < f,
                forall|g: int, q: int|
                    0 <= g < f && 0 <= q < w.chains[g].len() ==> !#[trigger] occurs_before(w, g, q),
            decreases self.chains@.len() - f,
        {
            let chain: &Vec<u32> = &self.chains[f];
            assert(w.chains[f as int] == chain@);
            let mut p: usize = 0;
            while p < chain.len()
                invariant
                    f < self.chains@.len(),
                    p <= chain@.len(),
                    self@ == w,
                    w.chains == views::of(self.chains@),
                    w.chains[f as int] == chain@,
                    forall|c: u32| #[trigger]
                        map@.contains_key(c) ==> owns(w, c, map@[c].0 as int, map@[c].1 as int),
                    forall|g: int, q: int|
                        #![trigger w.chains[g][q]]
                        0 <= g <= f && 0 <= q < w.chains[g].len() && (g < f || q < p)
                            ==> map@.contains_key(w.chains[g][q]) && map@[w.chains[g][q]] == (
                            g as usize,
                            q as usize,
                        ),
                    forall|c: u32| #[trigger]
                        map@.contains_key(c) ==> map@[c].0 < f || (map@[c].0 == f && map@[c].1 < p),
                    forall|g: int, q: int|
                        0 <= g <= f && 0 <= q < w.chains[g].len() && (g < f || q < p)
                            ==> !#[trigger] occurs_before(w, g, q),
                decreases chain@.len() - p,
            {
                let cluster: u32 = chain[p];
                let ghost before = map@;
                assert(w.chains[f as int][p as int] == cluster);
                let previous: Option<(usize, usize)> = map.insert(cluster, (f, p));
                match previous {
                    Some(_) => {
                        proof {
                            let (g, q) = before[cluster];
                            assert(owns(w, cluster, g as int, q as int));
                            assert(occurs_before(w, f as int, p as int));
                            assert(is_first_repeat(w, f as int, p as int));
                        }
                        let mut message: String = "cluster ".to_owned();
                        text::push_decimal(&mut message, cluster as u64);
                        text::push_text(&mut message, " became cross-linked during execution");
                        return Err(error::unsafe_fs(message));
                    },
                    None => {
                        proof {
                            assert(owns(w, cluster, f as int, p as int));
                            assert(!occurs_before(w, f as int, p as int)) by {
                                if occurs_before(w, f as int, p as int) {
                                    let (g, q) = choose|g: int, q: int|
                                        #[trigger] owns(w, w.chains[f as int][p as int], g, q) && (
                                        g < f || (g == f && q < p));
                                    assert(before.contains_key(w.chains[g][q]));
                                }
                            }
                            assert forall|g: int, q: int|
                                #![trigger w.chains[g][q]]
                                0 <= g <= f && 0 <= q < w.chains[g].len() && (g < f || q < p
                                    + 1) implies map@.contains_key(w.chains[g][q])
                                && map@[w.chains[g][q]] == (g as usize, q as usize) by {
                                if g < f || q < p {
                                    assert(before.contains_key(w.chains[g][q]));
                                }
                            }
                        }
                    },
                }
                p = p + 1;
            }
            f = f + 1;
        }
        proof {
            assert(unshared(w)) by {
                assert forall|f1: int, p1: int, g: int, q: int|
                    #![trigger w.chains[f1][p1], w.chains[g][q]]
                    0 <= f1 < w.chains.len() && 0 <= p1 < w.chains[f1].len() && 0 <= g
                        < w.chains.len() && 0 <= q < w.chains[g].len() && w.chains[f1][p1]
                        == w.chains[g][q] implies f1 == g && p1 == q by {
                    assert(map@[w.chains[f1][p1]] == (f1 as usize, p1 as usize));
                    assert(map@[w.chains[g][q]] == (g as usize, q as usize));
                    lemma_places_fit(self, f1, p1);
                    lemma_places_fit(self, g, q);
                }
            }
            assert forall|c: u32| #[trigger] map@.contains_key(c) <==> is_owned(w, c) by {
                if is_owned(w, c) {
                    let (g, q) = choose|g: int, q: int| #[trigger] owns(w, c, g, q);
                    assert(map@.contains_key(w.chains[g][q]));
                }
            }
        }
        Ok(map)
    }

    /// Finds the first cluster of a target that belongs to a file: the
    /// cluster, the file and the place in its chain.
    pub fn blocker(&self, target: &Vec<u32>) -> (result: Result<
        Option<(u32, usize, usize)>,
        ServiceError,
    >)
        requires
            self.wf(),
        ensures
            match result {
                Ok(Some((cluster, file, position))) => unshared(self@) && owns(
                    self@,
                    cluster,
                    file as int,
                    position as int,
                ) && exists|i: int| #[trigger]
                    is_first_blocker(self@, target@, i) && target@[i] == cluster,
                Ok(None) => unshared(self@) && forall|i: int|
                    0 <= i < target@.len() ==> !is_owned(self@, #[trigger] target@[i]),
                Err(e) => exists|f: int, p: int| #[trigger]
                    is_first_repeat(self@, f, p) && e@ == cross_link_error(self@.chains[f][p]),
            },
    {
        let owners: std::collections::HashMap<u32, (usize, usize)> = match self.owners() {
            Ok(owners) => owners,
            Err(error) => {
                return Err(error);
            },
        };
        let mut i: usize = 0;
        while i < target.len()
            invariant
                i <= target@.len(),
                unshared(self@),
                forall|c: u32| #[trigger] owners@.contains_key(c) <==> is_owned(self@, c),
                forall|c: u32| #[trigger]
                    owners@.contains_key(c) ==> owns(
                        self@,
                        c,
                        owners@[c].0 as int,
                        owners@[c].1 as int,
                    ),
                forall|k: int| 0 <= k < i ==> !is_owned(self@, #[trigger] target@[k]),
            decreases target@.len() - i,
        {
            let cluster: u32 = target[i];
            match owners.get(&cluster) {
                Some(place) => {
                    let (file, position) = *place;
                    assert(owners@.contains_key(cluster));
                    assert(is_first_blocker(self@, target@, i as int));
                    return Ok(Some((cluster, file, position)));
                },
                None => {
                    assert(!owners@.contains_key(cluster));
                },
            }
            i = i + 1;
        }
        Ok(None)
    }

    /// Moves one cluster of a file to a free one.
    pub fn relocate_cluster(
        &mut self,
        file_index: usize,
        position: usize,
        destination: u32,
    ) -> (result: Result<DataMove, ServiceError>)
        requires
            old(self).wf(),
        ensures
            final(self).wf(),
            match result {
                Ok(moved) => relocation_error(
                    old(self)@,
                    file_index as int,
                    position as int,
                    destination,
                ) is None && final(self)@ == relocated(
                    old(self)@,
                    file_index as int,
                    position as int,
                    destination,
                ) && moved@ == relocation_move(
                    old(self)@,
                    file_index as int,
                    position as int,
                    destination,
                ),
                Err(e) => final(self)@ == old(self)@ && relocation_error(
                    old(self)@,
                    file_index as int,
                    position as int,
                    destination,
                ) == Some(e@),
            },
    {
        let ghost w = self@;
        if file_index >= self.chains.len() || position >= self.chains[file_index].len() {
            return Err(error::unsafe_fs("blocker chain changed during compaction".to_owned()));
        }
        let source: u32 = self.chains[file_index][position];
        assert(w.chains[file_index as int] == self.chains@[file_index as int]@);
        if !self.free.contains(destination) {
            return Err(error::unsafe_fs("scratch destination is not free".to_owned()));
        }
        let source_offset: u64 = match self.snapshot.cluster_offset(source) {
            Ok(offset) => offset,
            Err(error) => {
                return Err(error);
            },
        };
        let destination_offset: u64 = match self.snapshot.cluster_offset(destination) {
            Ok(offset) => offset,
            Err(error) => {
                return Err(error);
            },
        };
        if self.snapshot.kind == ClassicKind::Fat12 {
            return Err(fat12_unsupported());
        }
        let steps: Vec<WriterStep> = self.relocation_steps(
            file_index,
            position,
            destination,
            source_offset,
            destination_offset,
        );
        self.settle_relocation(file_index, position, destination);
        Ok(
            DataMove {
                source: source_offset,
                destination: destination_offset,
                length: self.snapshot.cluster_size(),
                steps,
            },
        )
    }

    /// The steps that move one cluster of a file to a free one.
    fn relocation_steps(
        &mut self,
        file_index: usize,
        position: usize,
        destination: u32,
        source_offset: u64,
        destination_offset: u64,
    ) -> (steps: Vec<WriterStep>)
        requires
            old(self).wf(),
            relocation_error(
                old(self)@,
                file_index as int,
                position as int,
                destination,
            ) is None,
            old(self)@.geometry.offset_of(old(self)@.chains[file_index as int][position as int])
                == Some(source_offset),
            old(self)@.geometry.offset_of(destination) == Some(destination_offset),
        ensures
            final(self).wf(),
            final(self)@ == midway(
                old(self)@,
                relocation(old(self)@, file_index as int, position as int, destination),
            ),
            views::of(steps@) == steps_for(
                old(self)@,
                relocation(old(self)@, file_index as int, position as int, destination),
            ),
    {
        let ghost w = self@;
        let ghost chain = w.chains[file_index as int];
        let length: usize = self.chains[file_index].len();
        let source: u32 = self.chains[file_index][position];
        assert(chain == self.chains@[file_index as int]@);
        let next: u32 = if position + 1 < length {
            self.chains[file_index][position + 1]
        } else {
            fat_table::eoc(self.snapshot.kind)
        };
        let mut steps: Vec<WriterStep> = Vec::new();
        let ghost none = Seq::<Effect>::empty();
        assert(views::of(steps@) =~= steps_for(w, none));
        let ghost copy = Effect::Copy { from: source, to: destination };
        self.emit(
            &mut steps,
            WriterStep::Copy {
                from: source,
                to: destination,
                source: source_offset,
                destination: destination_offset,
            },
            Ghost(w),
            Ghost(none),
            Ghost(copy),
        );
        let ghost e1 = none.push(copy);
        self.emit_entry(&mut steps, destination, next, Ghost(w), Ghost(e1));
        let ghost e2 = e1.push(Effect::SetEntry { cluster: destination, value: next });
        self.emit(&mut steps, WriterStep::Sync, Ghost(w), Ghost(e2), Ghost(Effect::Sync));
        let ghost e3 = e2.push(Effect::Sync);
        let ghost mut e4 = e3;
        if position == 0 {
            let offset: u64 = self.snapshot.files[file_index].entry_offset;
            let ghost first = Effect::SetFirst { file_index, cluster: destination };
            assert(w.entries[file_index as int] == offset);
            self.emit(
                &mut steps,
                WriterStep::SetFirst { file_index, cluster: destination, offset },
                Ghost(w),
                Ghost(e3),
                Ghost(first),
            );
            proof {
                e4 = e3.push(first);
            }
        } else {
            let predecessor: u32 = self.chains[file_index][position - 1];
            assert(predecessor == chain[position - 1]);
            assert(in_data_area(self@, self.chains@[file_index as int]@[position - 1]));
            self.emit_entry(&mut steps, predecessor, destination, Ghost(w), Ghost(e3));
            let ghost linked = e3.push(
                Effect::SetEntry { cluster: predecessor, value: destination },
            );
            self.emit(&mut steps, WriterStep::Sync, Ghost(w), Ghost(linked), Ghost(Effect::Sync));
            proof {
                e4 = linked.push(Effect::Sync);
            }
        }
        self.emit(&mut steps, WriterStep::Sync, Ghost(w), Ghost(e4), Ghost(Effect::Sync));
        let ghost e5 = e4.push(Effect::Sync);
        self.emit_entry(&mut steps, source, 0, Ghost(w), Ghost(e5));
        let ghost e6 = e5.push(Effect::SetEntry { cluster: source, value: 0 });
        self.emit(&mut steps, WriterStep::Sync, Ghost(w), Ghost(e6), Ghost(Effect::Sync));
        proof {
            assert(e6.push(Effect::Sync) =~= relocation(
                w,
                file_index as int,
                position as int,
                destination,
            ));
        }
        steps
    }

    /// Takes note that one cluster of a file was moved.
    fn settle_relocation(&mut self, file_index: usize, position: usize, destination: u32)
        requires
            old(self).wf(),
            file_index < old(self)@.chains.len(),
            position < old(self)@.chains[file_index as int].len(),
            old(self)@.free.contains(destination),
        ensures
            final(self).wf(),
            final(self)@ == (WriterView {
                chains: old(self)@.chains.update(
                    file_index as int,
                    old(self)@.chains[file_index as int].update(position as int, destination),
                ),
                free: old(self)@.free.remove(destination).insert(
                    old(self)@.chains[file_index as int][position as int],
                ),
                ..old(self)@
            }),
    {
        let source: u32 = self.chains[file_index][position];
        let ghost before = self@;
        let ghost lists = self.chains@;
        assert(in_data_area(before, lists[file_index as int]@[position as int]));
        self.set_chain_cluster(file_index, position, destination);
        self.free.remove(destination);
        self.free.insert(source);
        proof {
            assert(self@.entries =~= before.entries);
            assert(self@.kind == before.kind && self@.geometry == before.geometry && self@.fat
                == before.fat);
            assert(table_complete(self@)) by {
                assert forall|c: u32|
                    2 <= c < fat_table::cluster_end(
                        self@.geometry.count_of_clusters,
                    ) implies #[trigger] holds_entry(self@.kind, self@.fat, c) by {
                    assert(holds_entry(before.kind, before.fat, c));
                }
            }
            assert forall|f: int, p: int|
                #![trigger self.chains@[f]@[p]]
                0 <= f < self.chains@.len() && 0 <= p < self.chains@[f]@.len() implies in_data_area(
                self@,
                self.chains@[f]@[p],
            ) by {
                if !(f == file_index && p == position) {
                    assert(in_data_area(before, lists[f]@[p]));
                }
            }
        }
    }

    fn set_chain_cluster(&mut self, file_index: usize, position: usize, cluster: u32)
        requires
            file_index < old(self).chains@.len(),
            position < old(self).chains@[file_index as int]@.len(),
        ensures
            final(self).snapshot == old(self).snapshot,
            final(self).free == old(self).free,
            final(self).chains@.len() == old(self).chains@.len(),
            forall|f: int|
                0 <= f < final(self).chains@.len() ==> (#[trigger] final(self).chains@[f])@ == if f
                    == file_index {
                    old(self).chains@[f]@.update(position as int, cluster)
                } else {
                    old(self).chains@[f]@
                },
            views::of(final(self).chains@) == views::of(old(self).chains@).update(
                file_index as int,
                old(self).chains@[file_index as int]@.update(position as int, cluster),
            ),
    {
        let ghost lists = self.chains@;
        self.chains[file_index][position] = cluster;
        assert(views::of(self.chains@) =~= views::of(lists).update(
            file_index as int,
            lists[file_index as int]@.update(position as int, cluster),
        ));
    }
}

/// The move of one cluster of a file to a free one.
pub open spec fn relocation_move(w: WriterView, file: int, position: int, destination: u32) -> MoveView {
    MoveView {
        source: w.geometry.offset_of(w.chains[file][position])->0,
        destination: w.geometry.offset_of(destination)->0,
        length: w.geometry.cluster_size as u64,
        steps: steps_for(w, relocation(w, file, position, destination)),
    }
}

/// The places in the chains of a writer are small enough to be counted.
proof fn lemma_places_fit(writer: &ClassicWriter, file: int, position: int)
    requires
        0 <= file < writer@.chains.len(),
        0 <= position < writer@.chains[file].len(),
    ensures
        file <= usize::MAX,
        position <= usize::MAX,
{
    assert(writer@.chains[file] == writer.chains@[file]@);
    assert(writer.chains.len() == writer.chains@.len());
    assert(writer.chains[file].len() == writer.chains@[file]@.len());
}

impl ClassicWriter {
    /// Makes the copied clusters of a file its chain.
    fn commit(&mut self, file_index: usize, target: &Vec<u32>) -> (steps: Vec<WriterStep>)
        requires
            old(self).wf(),
            old(self)@.kind != ClassicKind::Fat12,
            file_index < old(self)@.chains.len(),
            target@.len() > 0,
            forall|i: int|
                0 <= i < target@.len() ==> in_data_area(old(self)@, #[trigger] target@[i]),
        ensures
            final(self).wf(),
            final(self)@ == committed(old(self)@, file_index as int, target@),
            views::of(steps@) == steps_for(
                old(self)@,
                commitment(old(self)@, file_index as int, target@),
            ),
    {
        let ghost w = self@;
        let ghost links = linking(w.kind, target@);
        let ghost source = w.chains[file_index as int];
        let mut steps: Vec<WriterStep> = Vec::new();
        assert(views::of(steps@) =~= steps_for(w, Seq::empty()));
        assert(links.take(0) =~= Seq::<Effect>::empty());
        let mut i: usize = 0;
        while i < target.len()
            invariant
                i <= target@.len(),
                self.wf(),
                w.kind != ClassicKind::Fat12,
                links == linking(w.kind, target@),
                self@ == midway(w, links.take(i as int)),
                views::of(steps@) == steps_for(w, links.take(i as int)),
                forall|k: int| 0 <= k < target@.len() ==> in_data_area(w, #[trigger] target@[k]),
            decreases target@.len() - i,
        {
            let next: u32 = if i + 1 < target.len() {
                target[i + 1]
            } else {
                fat_table::eoc(self.snapshot.kind)
            };
            assert(links[i as int] == (Effect::SetEntry { cluster: target@[i as int], value: next }));
            self.emit_entry(&mut steps, target[i], next, Ghost(w), Ghost(links.take(i as int)));
            assert(links.take(i + 1) =~= links.take(i as int).push(links[i as int]));
            i = i + 1;
        }
        assert(links.take(i as int) =~= links);
        self.emit(&mut steps, WriterStep::Sync, Ghost(w), Ghost(links), Ghost(Effect::Sync));
        let ghost e1 = links.push(Effect::Sync);
        let offset: u64 = self.snapshot.files[file_index].entry_offset;
        let ghost first = Effect::SetFirst { file_index, cluster: target@[0] };
        assert(w.entries[file_index as int] == offset);
        self.emit(
            &mut steps,
            WriterStep::SetFirst { file_index, cluster: target[0], offset },
            Ghost(w),
            Ghost(e1),
            Ghost(first),
        );
        let ghost e2 = e1.push(first);
        self.emit(&mut steps, WriterStep::Sync, Ghost(w), Ghost(e2), Ghost(Effect::Sync));
        let ghost e3 = e2.push(Effect::Sync);
        let ghost releases = releasing(source);
        let mut k: usize = 0;
        assert(source == self.chains@[file_index as int]@);
        assert(e3 + releases.take(0) =~= e3);
        while k < self.chains[file_index].len()
            invariant
                k <= source.len(),
                file_index < self.chains@.len(),
                file_index < w.chains.len(),
                self.wf(),
                w.kind != ClassicKind::Fat12,
                source == w.chains[file_index as int],
                source == self.chains@[file_index as int]@,
                releases == releasing(source),
                self@ == midway(w, e3 + releases.take(k as int)),
                views::of(steps@) == steps_for(w, e3 + releases.take(k as int)),
            decreases source.len() - k,
        {
            let cluster: u32 = self.chains[file_index][k];
            assert(in_data_area(self@, self.chains@[file_index as int]@[k as int]));
            self.emit_entry(
                &mut steps,
                cluster,
                0,
                Ghost(w),
                Ghost(e3 + releases.take(k as int)),
            );
            assert(releases[k as int] == (Effect::SetEntry { cluster, value: 0 }));
            assert(e3 + releases.take(k + 1) =~= (e3 + releases.take(k as int)).push(
                releases[k as int],
            ));
            k = k + 1;
            proof {
                assert(self@.chains == w.chains);
                assert(self.chains@.len() == self@.chains.len());
                assert(self.chains@[file_index as int]@ == self@.chains[file_index as int]);
            }
        }
        assert(releases.take(k as int) =~= releases);
        let ghost e4 = e3 + releases;
        self.emit(&mut steps, WriterStep::Sync, Ghost(w), Ghost(e4), Ghost(Effect::Sync));
        assert(e4.push(Effect::Sync) =~= commitment(w, file_index as int, target@));
        self.settle_commit(file_index, target);
        steps
    }

    /// Takes note that the copied clusters of a file became its chain.
    fn settle_commit(&mut self, file_index: usize, target: &Vec<u32>)
        requires
            old(self).wf(),
            file_index < old(self)@.chains.len(),
            forall|i: int|
                0 <= i < target@.len() ==> in_data_area(old(self)@, #[trigger] target@[i]),
        ensures
            final(self).wf(),
            final(self)@ == (WriterView {
                chains: old(self)@.chains.update(file_index as int, target@),
                free: old(self)@.free.difference(target@.to_set()).union(
                    old(self)@.chains[file_index as int].to_set(),
                ),
                ..old(self)@
            }),
    {
        let ghost w = self@;
        let ghost lists = self.chains@;
        let ghost limit = self.free.limit();
        let mut i: usize = 0;
        assert(w.free.difference(target@.take(0).to_set()) =~= w.free);
        while i < target.len()
            invariant
                i <= target@.len(),
                self.chains@ == lists,
                self.snapshot == old(self).snapshot,
                self.free.limit() == limit,
                self.free@ == w.free.difference(target@.take(i as int).to_set()),
            decreases target@.len() - i,
        {
            let cluster: u32 = target[i];
            self.free.remove(cluster);
            proof {
                let taken = target@.take(i + 1);
                assert(taken =~= target@.take(i as int).push(cluster));
                assert forall|x: u32|
                    taken.to_set().contains(x) <==> (target@.take(i as int).to_set().contains(x)
                        || x == cluster) by {
                    if target@.take(i as int).contains(x) {
                        let k = choose|k: int|
                            0 <= k < target@.take(i as int).len() && target@.take(i as int)[k] == x;
                        assert(taken[k] == x);
                    }
                    assert(taken[i as int] == cluster);
                    if taken.contains(x) && x != cluster {
                        let k = choose|k: int| 0 <= k < taken.len() && taken[k] == x;
                        assert(target@.take(i as int)[k] == x);
                    }
                }
                assert(self.free@ =~= w.free.difference(taken.to_set()));
            }
            i = i + 1;
        }
        assert(target@.take(i as int) =~= target@);
        proof {
            assert forall|k: int|
                0 <= k < self.chains@[file_index as int]@.len() implies #[trigger] self.chains@[file_index as int]@[k]
                < limit by {
                assert(in_data_area(w, lists[file_index as int]@[k]));
            }
        }
        self.free.insert_all(&self.chains[file_index]);
        self.chains.set(file_index, views::copy_list(target));
        proof {
            assert(self@.chains =~= w.chains.update(file_index as int, target@)) by {
                assert forall|f: int| 0 <= f < self@.chains.len() implies #[trigger] self@.chains[f]
                    == w.chains.update(file_index as int, target@)[f] by {
                    if f != file_index {
                        assert(self.chains@[f] == lists[f]);
                    }
                }
            }
            assert(table_complete(self@)) by {
                assert forall|c: u32|
                    2 <= c < fat_table::cluster_end(
                        self@.geometry.count_of_clusters,
                    ) implies #[trigger] holds_entry(self@.kind, self@.fat, c) by {
                    assert(holds_entry(w.kind, w.fat, c));
                }
            }
            assert forall|f: int, p: int|
                #![trigger self.chains@[f]@[p]]
                0 <= f < self.chains@.len() && 0 <= p < self.chains@[f]@.len() implies in_data_area(
                self@,
                self.chains@[f]@[p],
            ) by {
                if f == file_index {
                    assert(in_data_area(w, target@[p]));
                } else {
                    assert(in_data_area(w, lists[f]@[p]));
                }
            }
            assert forall|c: u32| #[trigger] self.free@.contains(c) implies in_data_area(
                self@,
                c,
            ) by {
                if !w.free.contains(c) {
                    let old_chain = lists[file_index as int]@;
                    assert(old_chain.contains(c));
                    let k = choose|k: int| 0 <= k < old_chain.len() && old_chain[k] == c;
                    assert(in_data_area(w, lists[file_index as int]@[k]));
                }
            }
        }
    }
}

// ---------------------------------------------------------------------
// The course of a placement
// ---------------------------------------------------------------------

/// How far the placement of a file has come.
#[derive(Clone, Copy, Debug, PartialEq, Eq, Structural)]
pub enum PlaceStage {
    /// Look for a cluster of the target that belongs to a file.
    Look,
    /// Move that cluster out of the way.
    Evacuate { cluster: u32, file: usize, position: usize },
    /// The target is clear.
    Ready,
    /// Ask before the next cluster is copied.
    Pause { at: usize },
    /// Copy a cluster of the file.
    Copy { at: usize },
    /// Everything was copied.
    Commit,
    /// The file lies in its target.
    Finished,
}

/// The placement of a file in target clusters.
pub struct Placement {
    file_index: usize,
    target: Vec<u32>,
    stage: PlaceStage,
    moved: u64,
}

/// The contents of a [`Placement`].
#[verifier::ext_equal]
pub struct PlacementView {
    pub file: int,
    pub target: Seq<u32>,
    pub stage: PlaceStage,
    pub moved: u64,
}

/// What a placement asks for.
#[derive(Debug)]
pub enum PlaceAction {
    /// Ask whether the job may go on.
    Checkpoint,
    /// Announce the move as pending, do its steps, announce it as done.
    Move(DataMove),
    /// Do these steps.
    Commit(Vec<WriterStep>),
    /// Nothing more; this many bytes were moved.
    Done(u64),
}

/// The contents of a [`PlaceAction`].
#[verifier::ext_equal]
pub enum ActionView {
    Checkpoint,
    Move(MoveView),
    Commit(Seq<StepView>),
    Done(u64),
}

impl View for PlaceAction {
    type V = ActionView;

    open spec fn view(&self) -> ActionView {
        match self {
            PlaceAction::Checkpoint => ActionView::Checkpoint,
            PlaceAction::Move(data) => ActionView::Move(data@),
            PlaceAction::Commit(steps) => ActionView::Commit(views::of(steps@)),
            PlaceAction::Done(moved) => ActionView::Done(*moved),
        }
    }
}

/// Whether no cluster of a target belongs to a file.
pub open spec fn is_clear(w: WriterView, target: Seq<u32>) -> bool {
    forall|i: int| 0 <= i < target.len() ==> !is_owned(w, #[trigger] target[i])
}

impl PlacementView {
    /// What holds between two steps of a placement.
    pub open spec fn valid(self, w: WriterView) -> bool {
        match self.stage {
            PlaceStage::Look => self.target.len() > 0 && 0 <= self.file < w.chains.len(),
            PlaceStage::Evacuate { cluster, file, position } => {
                &&& self.target.len() > 0 && 0 <= self.file < w.chains.len()
                &&& unshared(w)
                &&& owns(w, cluster, file as int, position as int)
                &&& self.target.contains(cluster)
            },
            PlaceStage::Ready => {
                &&& self.target.len() > 0 && 0 <= self.file < w.chains.len()
                &&& unshared(w) && is_clear(w, self.target)
            },
            PlaceStage::Pause { at } | PlaceStage::Copy { at } => {
                &&& self.target.len() > 0 && 0 <= self.file < w.chains.len()
                &&& unshared(w) && is_clear(w, self.target)
                &&& w.chains[self.file].len() == self.target.len()
                &&& at < self.target.len()
                &&& forall|i: int|
                    0 <= i < at ==> w.geometry.offset_of(#[trigger] self.target[i]) is Some
            },
            PlaceStage::Commit => {
                &&& self.target.len() > 0 && 0 <= self.file < w.chains.len()
                &&& unshared(w) && is_clear(w, self.target)
                &&& w.chains[self.file].len() == self.target.len()
                &&& forall|i: int|
                    0 <= i < self.target.len() ==> w.geometry.offset_of(
                        #[trigger] self.target[i],
                    ) is Some
            },
            PlaceStage::Finished => true,
        }
    }

    /// The placement with another stage.
    pub open spec fn at_stage(self, stage: PlaceStage) -> PlacementView {
        PlacementView { stage, ..self }
    }

    /// The placement after another cluster was moved.
    pub open spec fn moving(self, size: u32, stage: PlaceStage) -> PlacementView {
        PlacementView { stage, moved: arith::sat64(self.moved + size) as u64, ..self }
    }
}

/// The move of one cluster of a file to its place in the target.
pub open spec fn copy_move(w: WriterView, from: u32, to: u32) -> MoveView {
    MoveView {
        source: w.geometry.offset_of(from)->0,
        destination: w.geometry.offset_of(to)->0,
        length: w.geometry.cluster_size as u64,
        steps: steps_for(w, seq![Effect::Copy { from, to }]),
    }
}

/// Whether a placement may go from one state to another with an outcome.
pub open spec fn may_advance(
    w: WriterView,
    p: PlacementView,
    w2: WriterView,
    p2: PlacementView,
    outcome: Result<ActionView, ErrorView>,
) -> bool {
    match p.stage {
        PlaceStage::Look => w2 == w && match outcome {
            Err(error) => p2 == p && exists|f: int, q: int| #[trigger]
                is_first_repeat(w, f, q) && error == cross_link_error(w.chains[f][q]),
            Ok(action) => action == ActionView::Checkpoint && match p2.stage {
                PlaceStage::Evacuate { cluster, file, position } => p2 == p.at_stage(p2.stage)
                    && owns(w, cluster, file as int, position as int) && exists|i: int| #[trigger]
                    is_first_blocker(w, p.target, i) && p.target[i] == cluster,
                _ => p2 == p.at_stage(PlaceStage::Ready) && is_clear(w, p.target),
            },
        },
        PlaceStage::Evacuate { cluster, file, position } => {
            let target = p.target.to_set();
            if forall|c: u32| #[trigger] w.free.contains(c) ==> target.contains(c) {
                w2 == w && p2 == p && outcome == Err::<ActionView, ErrorView>(
                    ErrorView::UnsafeFilesystem(
                        "no scratch cluster exists outside the compact target"@,
                    ),
                )
            } else {
                exists|scratch: u32| #[trigger]
                    cluster_set::is_lowest_outside(w.free, target, scratch) && match relocation_error(
                        w,
                        file as int,
                        position as int,
                        scratch,
                    ) {
                        Some(error) => w2 == w && p2 == p && outcome == Err::<ActionView, ErrorView>(
                            error,
                        ),
                        None => w2 == relocated(w, file as int, position as int, scratch) && p2
                            == p.moving(w.geometry.cluster_size, PlaceStage::Look) && outcome
                            == Ok::<ActionView, ErrorView>(
                            ActionView::Move(
                                relocation_move(w, file as int, position as int, scratch),
                            ),
                        ),
                    }
            }
        },
        PlaceStage::Ready => w2 == w && (if w.chains[p.file].len() != p.target.len() {
            p2 == p && outcome == Err::<ActionView, ErrorView>(
                ErrorView::UnsafeFilesystem(
                    "planned target length no longer matches the file chain"@,
                ),
            )
        } else {
            p2 == p.at_stage(PlaceStage::Copy { at: 0 }) && outcome == Ok::<ActionView, ErrorView>(
                ActionView::Checkpoint,
            )
        }),
        PlaceStage::Pause { at } => w2 == w && p2 == p.at_stage(PlaceStage::Copy { at }) && outcome
            == Ok::<ActionView, ErrorView>(ActionView::Checkpoint),
        PlaceStage::Copy { at } => {
            let from = w.chains[p.file][at as int];
            let to = p.target[at as int];
            w2 == w && (if w.geometry.offset_of(from) is None {
                p2 == p && outcome == Err::<ActionView, ErrorView>(
                    ErrorView::UnsafeFilesystem(classic_fat::no_offset_text(from)),
                )
            } else if w.geometry.offset_of(to) is None {
                p2 == p && outcome == Err::<ActionView, ErrorView>(
                    ErrorView::UnsafeFilesystem(classic_fat::no_offset_text(to)),
                )
            } else {
                p2 == p.moving(
                    w.geometry.cluster_size,
                    if at + 1 < p.target.len() {
                        PlaceStage::Pause { at: (at + 1) as usize }
                    } else {
                        PlaceStage::Commit
                    },
                ) && outcome == Ok::<ActionView, ErrorView>(
                    ActionView::Move(copy_move(w, from, to)),
                )
            })
        },
        PlaceStage::Commit => if w.kind == ClassicKind::Fat12 {
            w2 == w && p2 == p && outcome == Err::<ActionView, ErrorView>(fat12_error())
        } else {
            w2 == committed(w, p.file, p.target) && p2 == p.at_stage(PlaceStage::Finished)
                && outcome == Ok::<ActionView, ErrorView>(
                ActionView::Commit(steps_for(w, commitment(w, p.file, p.target))),
            )
        },
        PlaceStage::Finished => w2 == w && p2 == p && outcome == Ok::<ActionView, ErrorView>(
            ActionView::Done(p.moved),
        ),
    }
}

/// What an advance gave, over views.
pub open spec fn action_outcome(result: Result<PlaceAction, ServiceError>) -> Result<
    ActionView,
    ErrorView,
> {
    match result {
        Ok(action) => Ok(action@),
        Err(error) => Err(error@),
    }
}

impl Placement {
    pub closed spec fn view(&self) -> PlacementView {
        PlacementView {
            file: self.file_index as int,
            target: self.target@,
            stage: self.stage,
            moved: self.moved,
        }
    }

    /// Begins to place a file. There is nothing to do for an empty target or
    /// a file that does not exist.
    pub fn start(writer: &ClassicWriter, file_index: usize, target: Vec<u32>) -> (placement: Self)
        requires
            writer.wf(),
        ensures
            placement@.valid(writer@),
            placement@ == (PlacementView {
                file: file_index as int,
                target: target@,
                stage: if target@.len() == 0 || file_index >= writer@.chains.len() {
                    PlaceStage::Finished
                } else {
                    PlaceStage::Look
                },
                moved: 0,
            }),
    {
        let stage: PlaceStage = if target.len() == 0 || file_index >= writer.chains.len() {
            PlaceStage::Finished
        } else {
            PlaceStage::Look
        };
        Placement { file_index, target, stage, moved: 0 }
    }

    /// Takes the next step of the placement.
    pub fn advance(&mut self, writer: &mut ClassicWriter) -> (result: Result<
        PlaceAction,
        ServiceError,
    >)
        requires
            old(writer).wf(),
            old(self)@.valid(old(writer)@),
        ensures
            final(writer).wf(),
            final(self)@.valid(final(writer)@),
            may_advance(
                old(writer)@,
                old(self)@,
                final(writer)@,
                final(self)@,
                action_outcome(result),
            ),
    {
        match self.stage {
            PlaceStage::Look => self.look(writer),
            PlaceStage::Evacuate { cluster, file, position } => self.evacuate(
                writer,
                cluster,
                file,
                position,
            ),
            PlaceStage::Ready => {
                assert(writer@.chains[self.file_index as int]
                    == writer.chains@[self.file_index as int]@);
                if writer.chains[self.file_index].len() != self.target.len() {
                    return Err(
                        error::unsafe_fs(
                            "planned target length no longer matches the file chain".to_owned(),
                        ),
                    );
                }
                self.stage = PlaceStage::Copy { at: 0 };
                Ok(PlaceAction::Checkpoint)
            },
            PlaceStage::Pause { at } => {
                self.stage = PlaceStage::Copy { at };
                Ok(PlaceAction::Checkpoint)
            },
            PlaceStage::Copy { at } => self.copy(writer, at),
            PlaceStage::Commit => {
                if writer.snapshot.kind == ClassicKind::Fat12 {
                    return Err(fat12_unsupported());
                }
                proof {
                    assert forall|i: int| 0 <= i < self.target@.len() implies in_data_area(
                        writer@,
                        #[trigger] self.target@[i],
                    ) by {
                        assert(writer@.geometry.offset_of(self@.target[i]) is Some);
                    }
                }
                let steps: Vec<WriterStep> = writer.commit(self.file_index, &self.target);
                self.stage = PlaceStage::Finished;
                Ok(PlaceAction::Commit(steps))
            },
            PlaceStage::Finished => Ok(PlaceAction::Done(self.moved)),
        }
    }

    fn look(&mut self, writer: &ClassicWriter) -> (result: Result<PlaceAction, ServiceError>)
        requires
            writer.wf(),
            old(self)@.valid(writer@),
            old(self)@.stage == PlaceStage::Look,
        ensures
            final(self)@.valid(writer@),
            may_advance(writer@, old(self)@, writer@, final(self)@, action_outcome(result)),
    {
        match writer.blocker(&self.target) {
            Err(error) => Err(error),
            Ok(Some((cluster, file, position))) => {
                self.stage = PlaceStage::Evacuate { cluster, file, position };
                proof {
                    let i = choose|i: int| #[trigger]
                        is_first_blocker(writer@, self.target@, i) && self.target@[i] == cluster;
                    assert(self@.target.contains(cluster));
                }
                Ok(PlaceAction::Checkpoint)
            },
            Ok(None) => {
                self.stage = PlaceStage::Ready;
                Ok(PlaceAction::Checkpoint)
            },
        }
    }

    fn evacuate(
        &mut self,
        writer: &mut ClassicWriter,
        cluster: u32,
        file: usize,
        position: usize,
    ) -> (result: Result<PlaceAction, ServiceError>)
        requires
            old(writer).wf(),
            old(self)@.valid(old(writer)@),
            old(self)@.stage == (PlaceStage::Evacuate { cluster, file, position }),
        ensures
            final(writer).wf(),
            final(self)@.valid(final(writer)@),
            may_advance(
                old(writer)@,
                old(self)@,
                final(writer)@,
                final(self)@,
                action_outcome(result),
            ),
    {
        let ghost w = writer@;
        let end: u32 = fat_table::end_of_clusters(writer.snapshot.geometry.count_of_clusters);
        let mut avoid: ClusterSet = ClusterSet::new(end as usize);
        let mut i: usize = 0;
        while i < self.target.len()
            invariant
                i <= self.target@.len(),
                self@ == old(self)@,
                avoid.limit() == end,
                forall|c: u32| #[trigger]
                    avoid@.contains(c) ==> self.target@.contains(c),
                forall|k: int|
                    0 <= k < i && #[trigger] self.target@[k] < end ==> avoid@.contains(
                        self.target@[k],
                    ),
            decreases self.target@.len() - i,
        {
            let c: u32 = self.target[i];
            if c < end {
                avoid.insert(c);
            }
            i = i + 1;
        }
        proof {
            let target = self.target@.to_set();
            assert forall|c: u32| w.free.contains(c) implies (#[trigger] avoid@.contains(c)
                <==> target.contains(c)) by {
                assert(in_data_area(w, c));
                if target.contains(c) {
                    let k = choose|k: int| 0 <= k < self.target@.len() && self.target@[k] == c;
                    assert(self.target@[k] < end);
                }
            }
        }
        let scratch: u32 = match writer.free.lowest_outside(&avoid) {
            Some(scratch) => scratch,
            None => {
                assert forall|c: u32| #[trigger]
                    w.free.contains(c) implies self.target@.to_set().contains(c) by {
                    assert(avoid@.contains(c));
                }
                return Err(
                    error::unsafe_fs(
                        "no scratch cluster exists outside the compact target".to_owned(),
                    ),
                );
            },
        };
        proof {
            let target = self.target@.to_set();
            assert(!avoid@.contains(scratch));
            assert(cluster_set::is_lowest_outside(w.free, target, scratch)) by {
                assert forall|x: u32| #[trigger]
                    w.free.contains(x) && x < scratch implies target.contains(x) by {
                    assert(avoid@.contains(x));
                }
            }
        }
        match writer.relocate_cluster(file, position, scratch) {
            Ok(data) => {
                self.moved = self.moved.saturating_add(writer.snapshot.cluster_size());
                self.stage = PlaceStage::Look;
                Ok(PlaceAction::Move(data))
            },
            Err(error) => Err(error),
        }
    }

    fn copy(&mut self, writer: &ClassicWriter, at: usize) -> (result: Result<
        PlaceAction,
        ServiceError,
    >)
        requires
            writer.wf(),
            old(self)@.valid(writer@),
            old(self)@.stage == (PlaceStage::Copy { at }),
        ensures
            final(self)@.valid(writer@),
            may_advance(writer@, old(self)@, writer@, final(self)@, action_outcome(result)),
    {
        let ghost w = writer@;
        assert(w.chains[self.file_index as int] == writer.chains@[self.file_index as int]@);
        let from: u32 = writer.chains[self.file_index][at];
        let to: u32 = self.target[at];
        let source: u64 = match writer.snapshot.cluster_offset(from) {
            Ok(offset) => offset,
            Err(error) => {
                return Err(error);
            },
        };
        let destination: u64 = match writer.snapshot.cluster_offset(to) {
            Ok(offset) => offset,
            Err(error) => {
                return Err(error);
            },
        };
        let mut steps: Vec<WriterStep> = Vec::new();
        steps.push(WriterStep::Copy { from, to, source, destination });
        proof {
            let effects = seq![Effect::Copy { from, to }];
            reveal_with_fuel(steps_for, 2);
            assert(effects.drop_last() =~= Seq::<Effect>::empty());
            assert(views::of(steps@) =~= steps_for(w, effects));
        }
        let length: u64 = writer.snapshot.cluster_size();
        self.moved = self.moved.saturating_add(length);
        let count: usize = self.target.len();
        self.stage = if at + 1 < count {
            PlaceStage::Pause { at: at + 1 }
        } else {
            PlaceStage::Commit
        };
        Ok(PlaceAction::Move(DataMove { source, destination, length, steps }))
    }
}

} // verus!
