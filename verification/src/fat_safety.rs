//! What the order of writes on a FAT volume is worth: at every moment, and
//! whatever part of the writes since the last synchronisation reached the
//! device, each file reads as before.

use vstd::prelude::*;

use crate::classic_fat::SnapshotView;
use crate::fat_table;
use crate::fat_table::ClassicKind;
use crate::fat_writer;
use crate::fat_writer::{Effect, WriterView};

verus! {

// ---------------------------------------------------------------------
// What is on the device
// ---------------------------------------------------------------------

/// What is on the device: the first copy of the table, the first cluster in
/// each file's directory entry, and the data of each cluster.
#[verifier::ext_equal]
pub struct Image {
    pub fat: Seq<u8>,
    pub first: Seq<u32>,
    pub data: Map<u32, Seq<u8>>,
}

/// The device after an effect.
pub open spec fn after(kind: ClassicKind, image: Image, effect: Effect) -> Image {
    match effect {
        Effect::Copy { from, to } => Image {
            data: image.data.insert(to, image.data[from]),
            ..image
        },
        Effect::SetEntry { cluster, value } => Image {
            fat: fat_writer::with_entry(kind, image.fat, cluster, value),
            ..image
        },
        Effect::SetFirst { file_index, cluster } => Image {
            first: image.first.update(file_index as int, cluster),
            ..image
        },
        Effect::Sync => image,
    }
}

/// The device after those of the first `n` effects that reached it.
pub open spec fn reached(
    kind: ClassicKind,
    image: Image,
    effects: Seq<Effect>,
    kept: Set<int>,
    n: int,
) -> Image
    decreases n,
{
    if n <= 0 {
        image
    } else {
        let before = reached(kind, image, effects, kept, n - 1);
        if kept.contains(n - 1) {
            after(kind, before, effects[n - 1])
        } else {
            before
        }
    }
}

/// Whether nothing behind an effect can reach the device unless the effect
/// itself and everything before it has.
pub open spec fn is_barrier(effect: Effect) -> bool {
    effect is Sync || effect is Copy
}

/// Whether a selection of effects can be what reached the device when the
/// writing was interrupted.
pub open spec fn can_have_reached(effects: Seq<Effect>, kept: Set<int>) -> bool {
    forall|i: int, s: int, j: int|
        #![trigger kept.contains(i), effects[s], kept.contains(j)]
        0 <= i <= s < j < effects.len() && is_barrier(effects[s]) && kept.contains(j)
            ==> kept.contains(i)
}

/// Whether a file leads to a chain of clusters.
pub open spec fn leads_to(kind: ClassicKind, image: Image, file: int, chain: Seq<u32>) -> bool {
    &&& chain.len() > 0
    &&& image.first[file] == chain[0]
    &&& forall|i: int|
        0 <= i < chain.len() - 1 ==> fat_table::entry_of(
            image.fat,
            kind,
            #[trigger] chain[i],
        ) == Some(chain[i + 1]) && !fat_table::ends_chain(kind, chain[i + 1])
    &&& match fat_table::entry_of(image.fat, kind, chain.last()) {
        Some(value) => fat_table::ends_chain(kind, value),
        None => false,
    }
}

/// The data of a chain of clusters.
pub open spec fn contents(image: Image, chain: Seq<u32>) -> Seq<Seq<u8>> {
    Seq::new(chain.len(), |i: int| image.data[chain[i]])
}

/// Whether following a file's chain gives the given data.
pub open spec fn reads(kind: ClassicKind, image: Image, file: int, blocks: Seq<Seq<u8>>) -> bool {
    exists|chain: Seq<u32>| #[trigger]
        leads_to(kind, image, file, chain) && contents(image, chain) == blocks
}

/// A file leads to one chain only, so it reads as one thing only.
pub proof fn lemma_reads_one_thing(
    kind: ClassicKind,
    image: Image,
    file: int,
    a: Seq<Seq<u8>>,
    b: Seq<Seq<u8>>,
)
    requires
        reads(kind, image, file, a),
        reads(kind, image, file, b),
    ensures
        a == b,
{
    let p = choose|chain: Seq<u32>| #[trigger]
        leads_to(kind, image, file, chain) && contents(image, chain) == a;
    let q = choose|chain: Seq<u32>| #[trigger]
        leads_to(kind, image, file, chain) && contents(image, chain) == b;
    lemma_chains_agree(kind, image, file, p, q, p.len() as int);
    lemma_chains_agree(kind, image, file, q, p, q.len() as int);
    assert(p =~= q);
}

proof fn lemma_chains_agree(
    kind: ClassicKind,
    image: Image,
    file: int,
    p: Seq<u32>,
    q: Seq<u32>,
    n: int,
)
    requires
        leads_to(kind, image, file, p),
        leads_to(kind, image, file, q),
        1 <= n <= p.len(),
    ensures
        n <= q.len(),
        forall|i: int| 0 <= i < n ==> p[i] == q[i],
    decreases n,
{
    if n > 1 {
        lemma_chains_agree(kind, image, file, p, q, n - 1);
        assert(fat_table::entry_of(image.fat, kind, p[n - 2]) == Some(p[n - 1]));
        if q.len() == n - 1 {
            assert(q.last() == p[n - 2]);
        } else {
            assert(fat_table::entry_of(image.fat, kind, q[n - 2]) == Some(q[n - 1]));
        }
    }
}

// ---------------------------------------------------------------------
// When it may be written
// ---------------------------------------------------------------------

/// Whether every cluster number of a volume is distinct from the values that
/// mark bad clusters and ends of chains.
pub open spec fn numbers_fit(w: WriterView) -> bool {
    w.kind != ClassicKind::Fat12 && fat_table::count_fits(w.kind, w.geometry.count_of_clusters)
}

/// Whether a writer's files are sound: every cluster has its entry, the
/// files share none, and the free ones belong to no file.
pub open spec fn is_sound(w: WriterView) -> bool {
    &&& numbers_fit(w)
    &&& fat_writer::table_complete(w)
    &&& fat_writer::unshared(w)
    &&& forall|f: int, p: int|
        #![trigger w.chains[f][p]]
        0 <= f < w.chains.len() && 0 <= p < w.chains[f].len() ==> fat_writer::in_data_area(
            w,
            w.chains[f][p],
        )
    &&& forall|c: u32| #[trigger]
        w.free.contains(c) ==> fat_writer::in_data_area(w, c) && !fat_writer::is_owned(w, c)
}

/// Whether the device holds what the writer knows.
pub open spec fn represents(w: WriterView, image: Image) -> bool {
    &&& image.fat == w.fat
    &&& image.first.len() == w.chains.len()
    &&& forall|f: int|
        0 <= f < w.chains.len() && (#[trigger] w.chains[f]).len() > 0 ==> leads_to(
            w.kind,
            image,
            f,
            w.chains[f],
        )
}

/// Whether the device holds what a snapshot was read from: its table, and the
/// first clusters of its files.
pub open spec fn holds_snapshot(s: SnapshotView, image: Image) -> bool {
    &&& image.fat == s.fat
    &&& image.first.len() == s.files.len()
    &&& forall|f: int|
        0 <= f < s.files.len() ==> #[trigger] image.first[f] == s.files[f].first_cluster
}

/// Where nothing speaks against a volume, its files are sound, and the device
/// that it was read from holds what the writer knows.
pub proof fn lemma_clean_snapshot_is_sound(s: SnapshotView, image: Image)
    requires
        s.complete(),
        s.writable_issues.len() == 0,
        numbers_fit(fat_writer::writer_of(s)),
    ensures
        is_sound(fat_writer::writer_of(s)),
        holds_snapshot(s, image) ==> represents(fat_writer::writer_of(s), image),
{
    let w = fat_writer::writer_of(s);
    let count = s.geometry.count_of_clusters;
    assert forall|f: int| 0 <= f < s.files.len() implies #[trigger] w.chains[f]
        == s.files[f].chain && fat_table::is_chain(s.fat, s.kind, count, s.files[f].chain) && (
    s.files[f].chain.len() > 0 ==> s.files[f].chain[0] == s.files[f].first_cluster) by {
        fat_table::lemma_chain_is_linked(s.fat, s.kind, s.files[f].first_cluster, count);
    }
    assert(fat_writer::table_complete(w)) by {
        assert forall|c: u32|
            2 <= c < fat_table::cluster_end(count) implies #[trigger] fat_writer::holds_entry(
            w.kind,
            w.fat,
            c,
        ) by {
            assert(fat_table::entry_of(s.fat, s.kind, c) is Some);
        }
    }
    assert(fat_writer::unshared(w)) by {
        assert forall|f: int, p: int, g: int, q: int|
            #![trigger w.chains[f][p], w.chains[g][q]]
            0 <= f < w.chains.len() && 0 <= p < w.chains[f].len() && 0 <= g < w.chains.len() && 0
                <= q < w.chains[g].len() && w.chains[f][p] == w.chains[g][q] implies f == g && p
            == q by {
            assert(s.files[f].chain[p] == s.files[g].chain[q]);
        }
    }
    assert forall|f: int, p: int|
        #![trigger w.chains[f][p]]
        0 <= f < w.chains.len() && 0 <= p < w.chains[f].len() implies fat_writer::in_data_area(
        w,
        w.chains[f][p],
    ) && fat_table::entry_of(s.fat, s.kind, w.chains[f][p]) != Some(0u32) by {
        let chain = s.files[f].chain;
        assert(w.chains[f] == chain);
        assert(2 <= chain[p] < fat_table::cluster_end(count));
        if p == chain.len() - 1 {
            assert(chain[p] == chain.last());
        } else {
            assert(fat_table::entry_of(s.fat, s.kind, chain[p]) == Some(chain[p + 1]));
            assert(2 <= chain[p + 1]);
        }
    }
    assert forall|c: u32| #[trigger] w.free.contains(c) implies fat_writer::in_data_area(w, c)
        && !fat_writer::is_owned(w, c) by {
        let i = choose|i: int| 0 <= i < s.free_clusters.len() && s.free_clusters[i] == c;
        assert(2 <= s.free_clusters[i] < fat_table::cluster_end(count));
        if fat_writer::is_owned(w, c) {
            let (f, p) = choose|f: int, p: int| #[trigger] fat_writer::owns(w, c, f, p);
            assert(w.chains[f][p] == c);
        }
    }
    if holds_snapshot(s, image) {
        assert forall|f: int|
            0 <= f < w.chains.len() && (#[trigger] w.chains[f]).len() > 0 implies leads_to(
            w.kind,
            image,
            f,
            w.chains[f],
        ) by {
            assert(image.first[f] == s.files[f].first_cluster);
        }
    }
}

/// A volume is only opened for writing where its files are sound, as long as
/// every cluster has a number that means nothing else.
pub proof fn lemma_opened_volume_is_sound(planned: SnapshotView, found: SnapshotView, image: Image)
    requires
        found.complete(),
        fat_writer::opening_error(planned, found) is None,
        numbers_fit(fat_writer::writer_of(found)),
    ensures
        is_sound(fat_writer::writer_of(found)),
        holds_snapshot(found, image) ==> represents(fat_writer::writer_of(found), image),
{
    lemma_clean_snapshot_is_sound(found, image);
}

/// Whether every file reads on `now` as it did on `then`.
pub open spec fn all_read_as_before(w: WriterView, then: Image, now: Image) -> bool {
    forall|f: int|
        0 <= f < w.chains.len() && (#[trigger] w.chains[f]).len() > 0 ==> reads(
            w.kind,
            now,
            f,
            contents(then, w.chains[f]),
        )
}

proof fn lemma_untouched(kind: ClassicKind, a: Image, b: Image, file: int, chain: Seq<u32>)
    requires
        leads_to(kind, a, file, chain),
        a.first[file] == b.first[file],
        forall|i: int|
            0 <= i < chain.len() ==> fat_table::entry_of(b.fat, kind, #[trigger] chain[i])
                == fat_table::entry_of(a.fat, kind, chain[i]),
        forall|i: int| 0 <= i < chain.len() ==> b.data[#[trigger] chain[i]] == a.data[chain[i]],
    ensures
        leads_to(kind, b, file, chain),
        contents(b, chain) == contents(a, chain),
        reads(kind, b, file, contents(a, chain)),
{
    assert(chain.last() == chain[chain.len() - 1]);
    assert(contents(b, chain) =~= contents(a, chain));
}

/// Whether an effect sets the entry of a cluster.
pub open spec fn sets_entry(effect: Effect, cluster: u32) -> bool {
    effect matches Effect::SetEntry { cluster: c, value } && c == cluster
}

/// Whether everything that effects set exists.
spec fn well_aimed(kind: ClassicKind, image: Image, effects: Seq<Effect>) -> bool {
    &&& kind != ClassicKind::Fat12
    &&& forall|i: int|
        0 <= i < effects.len() ==> (#[trigger] effects[i] matches Effect::SetEntry {
            cluster,
            value,
        } ==> fat_writer::holds_entry(kind, image.fat, cluster))
    &&& forall|i: int|
        0 <= i < effects.len() ==> (#[trigger] effects[i] matches Effect::SetFirst {
            file_index,
            cluster,
        } ==> file_index < image.first.len())
}

proof fn lemma_same_length_holds(kind: ClassicKind, a: Seq<u8>, b: Seq<u8>, cluster: u32)
    requires
        a.len() == b.len(),
        fat_writer::holds_entry(kind, a, cluster),
    ensures
        fat_writer::holds_entry(kind, b, cluster),
{
}

proof fn lemma_reached_length(
    kind: ClassicKind,
    image: Image,
    effects: Seq<Effect>,
    kept: Set<int>,
    n: int,
)
    requires
        0 <= n <= effects.len(),
        well_aimed(kind, image, effects),
    ensures
        reached(kind, image, effects, kept, n).fat.len() == image.fat.len(),
        reached(kind, image, effects, kept, n).first.len() == image.first.len(),
    decreases n,
{
    if n > 0 {
        lemma_reached_length(kind, image, effects, kept, n - 1);
        let before = reached(kind, image, effects, kept, n - 1);
        if let Effect::SetFirst { file_index, cluster } = effects[n - 1] {
            assert(file_index < image.first.len());
        }
    }
}

/// An entry that no effect sets stays.
proof fn lemma_entry_stays(
    kind: ClassicKind,
    image: Image,
    effects: Seq<Effect>,
    kept: Set<int>,
    from: int,
    n: int,
    cluster: u32,
)
    requires
        0 <= from <= n <= effects.len(),
        well_aimed(kind, image, effects),
        forall|i: int|
            from <= i < n && kept.contains(i) ==> !sets_entry(#[trigger] effects[i], cluster),
    ensures
        fat_table::entry_of(reached(kind, image, effects, kept, n).fat, kind, cluster)
            == fat_table::entry_of(reached(kind, image, effects, kept, from).fat, kind, cluster),
    decreases n,
{
    if from < n {
        lemma_entry_stays(kind, image, effects, kept, from, n - 1, cluster);
        let before = reached(kind, image, effects, kept, n - 1);
        if kept.contains(n - 1) {
            if let Effect::SetEntry { cluster: c, value } = effects[n - 1] {
                assert(!sets_entry(effects[n - 1], cluster));
                lemma_reached_length(kind, image, effects, kept, n - 1);
                lemma_same_length_holds(kind, image.fat, before.fat, c);
                fat_writer::lemma_entry_round_trip(kind, before.fat, c, value, cluster);
            }
        }
    }
}

/// An entry that an effect set, and no later one set again, holds its value.
proof fn lemma_entry_set(
    kind: ClassicKind,
    image: Image,
    effects: Seq<Effect>,
    kept: Set<int>,
    at: int,
    n: int,
    cluster: u32,
    value: u32,
)
    requires
        0 <= at < n <= effects.len(),
        well_aimed(kind, image, effects),
        effects[at] == (Effect::SetEntry { cluster, value }),
        kept.contains(at),
        fat_writer::fits_entry(kind, value),
        forall|i: int|
            at < i < n && kept.contains(i) ==> !sets_entry(#[trigger] effects[i], cluster),
    ensures
        fat_table::entry_of(reached(kind, image, effects, kept, n).fat, kind, cluster) == Some(
            value,
        ),
{
    let before = reached(kind, image, effects, kept, at);
    lemma_reached_length(kind, image, effects, kept, at);
    lemma_same_length_holds(kind, image.fat, before.fat, cluster);
    fat_writer::lemma_entry_round_trip(kind, before.fat, cluster, value, cluster);
    assert(reached(kind, image, effects, kept, at + 1) == after(kind, before, effects[at]));
    lemma_entry_stays(kind, image, effects, kept, at + 1, n, cluster);
}

/// Data that no effect copies to stays.
proof fn lemma_data_stays(
    kind: ClassicKind,
    image: Image,
    effects: Seq<Effect>,
    kept: Set<int>,
    n: int,
    cluster: u32,
)
    requires
        0 <= n <= effects.len(),
        forall|i: int|
            0 <= i < n && kept.contains(i) ==> !(#[trigger] effects[i] matches Effect::Copy {
                from,
                to,
            } && to == cluster),
    ensures
        reached(kind, image, effects, kept, n).data[cluster] == image.data[cluster],
    decreases n,
{
    if n > 0 {
        lemma_data_stays(kind, image, effects, kept, n - 1, cluster);
    }
}

/// A first cluster that no effect sets stays.
proof fn lemma_first_stays(
    kind: ClassicKind,
    image: Image,
    effects: Seq<Effect>,
    kept: Set<int>,
    from: int,
    n: int,
    file: int,
)
    requires
        0 <= from <= n <= effects.len(),
        0 <= file < image.first.len(),
        well_aimed(kind, image, effects),
        forall|i: int|
            from <= i < n && kept.contains(i) ==> !(#[trigger] effects[i] matches Effect::SetFirst {
                file_index,
                cluster,
            } && file_index == file),
    ensures
        reached(kind, image, effects, kept, n).first[file] == reached(
            kind,
            image,
            effects,
            kept,
            from,
        ).first[file],
    decreases n,
{
    if from < n {
        lemma_first_stays(kind, image, effects, kept, from, n - 1, file);
        lemma_reached_length(kind, image, effects, kept, n - 1);
        if let Effect::SetFirst { file_index, cluster } = effects[n - 1] {
            assert(file_index < image.first.len());
        }
    }
}

/// Without interruption the table is what the writer keeps of it.
proof fn lemma_all_reached(
    kind: ClassicKind,
    image: Image,
    effects: Seq<Effect>,
    kept: Set<int>,
    n: int,
)
    requires
        0 <= n <= effects.len(),
        forall|i: int| 0 <= i < effects.len() ==> kept.contains(i),
    ensures
        reached(kind, image, effects, kept, n).fat == fat_writer::table_after(
            kind,
            image.fat,
            effects.take(n),
        ),
    decreases n,
{
    if n > 0 {
        lemma_all_reached(kind, image, effects, kept, n - 1);
        assert(effects.take(n).drop_last() =~= effects.take(n - 1));
    } else {
        assert(effects.take(0) =~= Seq::<Effect>::empty());
    }
}

/// Cluster numbers and the end mark are values that an entry can hold, and
/// only the end mark ends a chain.
proof fn lemma_values(w: WriterView, cluster: u32)
    requires
        numbers_fit(w),
    ensures
        fat_writer::fits_entry(w.kind, fat_table::end_mark(w.kind)),
        fat_table::ends_chain(w.kind, fat_table::end_mark(w.kind)),
        fat_writer::in_data_area(w, cluster) ==> fat_writer::fits_entry(w.kind, cluster)
            && !fat_table::ends_chain(w.kind, cluster),
{
}

// ---------------------------------------------------------------------
// Moving one cluster
// ---------------------------------------------------------------------

/// The facts that every relocation rests on.
#[verifier::opaque]
spec fn may_relocate(
    w: WriterView,
    image: Image,
    file: int,
    position: int,
    destination: u32,
) -> bool {
    &&& is_sound(w)
    &&& represents(w, image)
    &&& 0 <= file < w.chains.len() <= usize::MAX
    &&& 0 <= position < w.chains[file].len()
    &&& w.free.contains(destination)
}

/// What is known of the effects of a relocation.
spec fn is_relocation(
    e: Seq<Effect>,
    w: WriterView,
    file: int,
    position: int,
    destination: u32,
) -> bool {
    let chain = w.chains[file];
    &&& e.len() == (if position == 0 {
        7int
    } else {
        8
    })
    &&& e[0] == (Effect::Copy { from: chain[position], to: destination })
    &&& e[1] == (Effect::SetEntry {
        cluster: destination,
        value: fat_writer::following(w.kind, chain, position),
    })
    &&& e[2] == Effect::Sync
    &&& position == 0 ==> e[3] == (Effect::SetFirst {
        file_index: file as usize,
        cluster: destination,
    })
    &&& position > 0 ==> e[3] == (Effect::SetEntry {
        cluster: chain[position - 1],
        value: destination,
    })
    &&& e[4] == Effect::Sync
    &&& position == 0 ==> e[5] == (Effect::SetEntry { cluster: chain[position], value: 0 })
    &&& position == 0 ==> e[6] == Effect::Sync
    &&& position > 0 ==> e[5] == Effect::Sync
    &&& position > 0 ==> e[6] == (Effect::SetEntry { cluster: chain[position], value: 0 })
    &&& position > 0 ==> e[7] == Effect::Sync
}

proof fn lemma_relocation_shape(w: WriterView, file: int, position: int, destination: u32)
    requires
        0 <= position < w.chains[file].len(),
        0 <= file <= usize::MAX,
    ensures
        is_relocation(
            fat_writer::relocation(w, file, position, destination),
            w,
            file,
            position,
            destination,
        ),
{
}

/// What a selection of effects rules out, used one fact at a time.
#[verifier::opaque]
spec fn orderly(e: Seq<Effect>, kept: Set<int>) -> bool {
    can_have_reached(e, kept)
}

proof fn lemma_kept_before(e: Seq<Effect>, kept: Set<int>, i: int, s: int, j: int)
    requires
        orderly(e, kept),
        0 <= i <= s < j < e.len(),
        is_barrier(e[s]),
        kept.contains(j),
    ensures
        kept.contains(i),
{
    reveal(orderly);
}

/// A free cluster is no cluster of any file.
proof fn lemma_apart_from_files(
    w: WriterView,
    image: Image,
    file: int,
    position: int,
    destination: u32,
    f: int,
    p: int,
)
    requires
        may_relocate(w, image, file, position, destination),
        0 <= f < w.chains.len(),
        0 <= p < w.chains[f].len(),
    ensures
        w.chains[f][p] != destination,
{
    reveal(may_relocate);
    if w.chains[f][p] == destination {
        assert(fat_writer::owns(w, destination, f, p));
        assert(fat_writer::is_owned(w, destination));
    }
}

/// Two places of chains hold two clusters.
proof fn lemma_places_differ(
    w: WriterView,
    image: Image,
    file: int,
    position: int,
    destination: u32,
    f: int,
    p: int,
    q: int,
)
    requires
        may_relocate(w, image, file, position, destination),
        0 <= f < w.chains.len(),
        0 <= p < w.chains[f].len(),
        0 <= q < w.chains[file].len(),
        f != file || p != q,
    ensures
        w.chains[f][p] != w.chains[file][q],
{
    reveal(may_relocate);
}

/// Simple facts about a volume on which a cluster can be moved.
proof fn lemma_relocation_facts(
    w: WriterView,
    image: Image,
    file: int,
    position: int,
    destination: u32,
    f: int,
)
    requires
        may_relocate(w, image, file, position, destination),
        0 <= f < w.chains.len(),
    ensures
        0 <= file < w.chains.len() <= usize::MAX,
        image.first.len() == w.chains.len(),
        0 <= position < w.chains[file].len(),
        numbers_fit(w),
        w.kind != ClassicKind::Fat12,
        fat_writer::in_data_area(w, destination),
        w.chains[f].len() > 0 ==> leads_to(w.kind, image, f, w.chains[f]),
{
    reveal(may_relocate);
}

proof fn lemma_chain_in_area(
    w: WriterView,
    image: Image,
    file: int,
    position: int,
    destination: u32,
    f: int,
    p: int,
)
    requires
        may_relocate(w, image, file, position, destination),
        0 <= f < w.chains.len(),
        0 <= p < w.chains[f].len(),
    ensures
        fat_writer::in_data_area(w, w.chains[f][p]),
{
    reveal(may_relocate);
}

proof fn lemma_area_has_entries(
    w: WriterView,
    image: Image,
    file: int,
    position: int,
    destination: u32,
    cluster: u32,
)
    requires
        may_relocate(w, image, file, position, destination),
        fat_writer::in_data_area(w, cluster),
    ensures
        fat_writer::holds_entry(w.kind, image.fat, cluster),
{
    reveal(may_relocate);
    assert(fat_writer::holds_entry(w.kind, w.fat, cluster));
}

proof fn lemma_relocation_aimed(
    e: Seq<Effect>,
    w: WriterView,
    image: Image,
    file: int,
    position: int,
    destination: u32,
)
    requires
        may_relocate(w, image, file, position, destination),
        is_relocation(e, w, file, position, destination),
        w.chains.len() > 0,
    ensures
        well_aimed(w.kind, image, e),
{
    lemma_relocation_facts(w, image, file, position, destination, 0);
    lemma_chain_in_area(w, image, file, position, destination, file, position);
    if position > 0 {
        lemma_chain_in_area(w, image, file, position, destination, file, position - 1);
    }
    assert forall|i: int| 0 <= i < e.len() implies (#[trigger] e[i] matches Effect::SetEntry {
        cluster,
        value,
    } ==> fat_writer::holds_entry(w.kind, image.fat, cluster)) by {
        if let Effect::SetEntry { cluster, value } = e[i] {
            assert(i == 1 || i == 3 || i == 5 || i == 6);
            lemma_area_has_entries(w, image, file, position, destination, cluster);
        }
    }
}

/// Until the switch, every file leads where it led; the other files always
/// do.
proof fn lemma_relocation_elsewhere(
    e: Seq<Effect>,
    w: WriterView,
    image: Image,
    file: int,
    position: int,
    destination: u32,
    kept: Set<int>,
    g: int,
)
    requires
        may_relocate(w, image, file, position, destination),
        is_relocation(e, w, file, position, destination),
        orderly(e, kept),
        0 <= g < w.chains.len(),
        w.chains[g].len() > 0,
        g != file || !kept.contains(3),
    ensures
        leads_to(w.kind, reached(w.kind, image, e, kept, e.len() as int), g, w.chains[g]),
        contents(reached(w.kind, image, e, kept, e.len() as int), w.chains[g]) == contents(
            image,
            w.chains[g],
        ),
{
    let n = e.len() as int;
    let now = reached(w.kind, image, e, kept, n);
    let chain = w.chains[g];
    let last = n - 2;
    lemma_relocation_aimed(e, w, image, file, position, destination);
    lemma_relocation_facts(w, image, file, position, destination, g);
    if g == file && kept.contains(last) {
        lemma_kept_before(e, kept, 3, 4, last);
    }
    lemma_first_stays(w.kind, image, e, kept, 0, n, g);
    assert forall|i: int| 0 <= i < chain.len() implies fat_table::entry_of(
        now.fat,
        w.kind,
        #[trigger] chain[i],
    ) == fat_table::entry_of(image.fat, w.kind, chain[i]) by {
        lemma_apart_from_files(w, image, file, position, destination, g, i);
        if g != file {
            lemma_places_differ(w, image, file, position, destination, g, i, position);
            if position > 0 {
                lemma_places_differ(w, image, file, position, destination, g, i, position - 1);
            }
        }
        assert forall|k: int| 0 <= k < n && kept.contains(k) implies !sets_entry(
            #[trigger] e[k],
            chain[i],
        ) by {
            assert(k == 0 || k == 1 || k == 2 || k == 3 || k == 4 || k == 5 || k == 6 || k == 7);
        }
        lemma_entry_stays(w.kind, image, e, kept, 0, n, chain[i]);
    }
    assert forall|i: int| 0 <= i < chain.len() implies now.data[#[trigger] chain[i]]
        == image.data[chain[i]] by {
        lemma_apart_from_files(w, image, file, position, destination, g, i);
        lemma_data_stays(w.kind, image, e, kept, n, chain[i]);
    }
    lemma_untouched(w.kind, image, now, g, chain);
}

/// After the switch, the entries of the moved file's new chain.
proof fn lemma_relocation_entry(
    e: Seq<Effect>,
    w: WriterView,
    image: Image,
    file: int,
    position: int,
    destination: u32,
    kept: Set<int>,
    i: int,
)
    requires
        may_relocate(w, image, file, position, destination),
        is_relocation(e, w, file, position, destination),
        kept.contains(1),
        kept.contains(3),
        0 <= file < w.chains.len(),
        0 <= i < w.chains[file].len(),
    ensures
        ({
            let old_chain = w.chains[file];
            let chain = old_chain.update(position, destination);
            fat_table::entry_of(
                reached(w.kind, image, e, kept, e.len() as int).fat,
                w.kind,
                chain[i],
            ) == (if i + 1 < chain.len() {
                Some(chain[i + 1])
            } else if i == position {
                Some(fat_table::end_mark(w.kind))
            } else {
                fat_table::entry_of(image.fat, w.kind, old_chain[i])
            })
        }),
{
    let n = e.len() as int;
    let old_chain = w.chains[file];
    lemma_relocation_aimed(e, w, image, file, position, destination);
    lemma_relocation_facts(w, image, file, position, destination, file);
    lemma_apart_from_files(w, image, file, position, destination, file, position);
    lemma_apart_from_files(w, image, file, position, destination, file, i);
    if position > 0 {
        lemma_apart_from_files(w, image, file, position, destination, file, position - 1);
        lemma_places_differ(w, image, file, position, destination, file, position - 1, position);
    }
    if i == position {
        let value = fat_writer::following(w.kind, old_chain, position);
        if position + 1 < old_chain.len() {
            lemma_chain_in_area(w, image, file, position, destination, file, position + 1);
            lemma_values(w, old_chain[position + 1]);
        } else {
            lemma_values(w, destination);
        }
        assert forall|k: int| 1 < k < n && kept.contains(k) implies !sets_entry(
            #[trigger] e[k],
            destination,
        ) by {
            assert(k == 2 || k == 3 || k == 4 || k == 5 || k == 6 || k == 7);
        }
        lemma_entry_set(w.kind, image, e, kept, 1, n, destination, value);
    } else if i == position - 1 {
        lemma_values(w, destination);
        assert forall|k: int| 3 < k < n && kept.contains(k) implies !sets_entry(
            #[trigger] e[k],
            old_chain[i],
        ) by {
            assert(k == 4 || k == 5 || k == 6 || k == 7);
        }
        lemma_entry_set(w.kind, image, e, kept, 3, n, old_chain[i], destination);
    } else {
        lemma_places_differ(w, image, file, position, destination, file, i, position);
        if position > 0 {
            lemma_places_differ(w, image, file, position, destination, file, i, position - 1);
        }
        assert forall|k: int| 0 <= k < n && kept.contains(k) implies !sets_entry(
            #[trigger] e[k],
            old_chain[i],
        ) by {
            assert(k == 0 || k == 1 || k == 2 || k == 3 || k == 4 || k == 5 || k == 6 || k == 7);
        }
        lemma_entry_stays(w.kind, image, e, kept, 0, n, old_chain[i]);
        if i + 1 < old_chain.len() {
            assert(fat_table::entry_of(image.fat, w.kind, old_chain[i]) == Some(old_chain[i + 1]));
        }
    }
}

/// After the switch, the moved file leads to its new chain and reads the
/// same.
proof fn lemma_relocation_switched(
    e: Seq<Effect>,
    w: WriterView,
    image: Image,
    file: int,
    position: int,
    destination: u32,
    kept: Set<int>,
)
    requires
        may_relocate(w, image, file, position, destination),
        is_relocation(e, w, file, position, destination),
        orderly(e, kept),
        kept.contains(3),
        0 <= file < w.chains.len(),
    ensures
        ({
            let now = reached(w.kind, image, e, kept, e.len() as int);
            let chain = w.chains[file].update(position, destination);
            &&& leads_to(w.kind, now, file, chain)
            &&& contents(now, chain) == contents(image, w.chains[file])
        }),
{
    let n = e.len() as int;
    let now = reached(w.kind, image, e, kept, n);
    let old_chain = w.chains[file];
    let source = old_chain[position];
    let chain = old_chain.update(position, destination);
    lemma_relocation_aimed(e, w, image, file, position, destination);
    lemma_relocation_facts(w, image, file, position, destination, file);
    lemma_kept_before(e, kept, 0, 2, 3);
    lemma_kept_before(e, kept, 1, 2, 3);
    assert forall|i: int| 0 < i < e.len() implies !(#[trigger] e[i] is Copy) by {
        assert(i == 1 || i == 2 || i == 3 || i == 4 || i == 5 || i == 6 || i == 7);
    }
    lemma_copied(w, image, e, kept, destination, source);
    assert forall|i: int| 0 <= i < chain.len() implies now.data[#[trigger] chain[i]]
        == image.data[old_chain[i]] by {
        if i != position {
            lemma_apart_from_files(w, image, file, position, destination, file, i);
            lemma_data_stays(w.kind, image, e, kept, n, old_chain[i]);
        }
    }
    assert(contents(now, chain) =~= contents(image, old_chain));
    assert forall|i: int| 0 <= i < chain.len() - 1 implies fat_table::entry_of(
        now.fat,
        w.kind,
        #[trigger] chain[i],
    ) == Some(chain[i + 1]) && !fat_table::ends_chain(w.kind, chain[i + 1]) by {
        lemma_relocation_entry(e, w, image, file, position, destination, kept, i);
        if i + 1 == position {
            lemma_values(w, destination);
        } else {
            lemma_chain_in_area(w, image, file, position, destination, file, i + 1);
            lemma_values(w, old_chain[i + 1]);
        }
    }
    lemma_relocation_entry(e, w, image, file, position, destination, kept, chain.len() - 1);
    lemma_values(w, destination);
    assert(chain.last() == chain[chain.len() - 1]);
    assert(old_chain.last() == old_chain[chain.len() - 1]);
    if position == 0 {
        lemma_reached_length(w.kind, image, e, kept, 3);
        assert(reached(w.kind, image, e, kept, 4) == after(
            w.kind,
            reached(w.kind, image, e, kept, 3),
            e[3],
        ));
        lemma_first_stays(w.kind, image, e, kept, 4, n, file);
    } else {
        lemma_first_stays(w.kind, image, e, kept, 0, n, file);
    }
}

/// What reached the device of a relocation, whatever did.
proof fn lemma_relocation_reached(
    w: WriterView,
    image: Image,
    file: int,
    position: int,
    destination: u32,
    kept: Set<int>,
    g: int,
)
    requires
        may_relocate(w, image, file, position, destination),
        can_have_reached(fat_writer::relocation(w, file, position, destination), kept),
        0 <= g < w.chains.len(),
        w.chains[g].len() > 0,
    ensures
        ({
            let e = fat_writer::relocation(w, file, position, destination);
            let now = reached(w.kind, image, e, kept, e.len() as int);
            let chain = if g == file && kept.contains(3) {
                w.chains[g].update(position, destination)
            } else {
                w.chains[g]
            };
            &&& leads_to(w.kind, now, g, chain)
            &&& contents(now, chain) == contents(image, w.chains[g])
        }),
{
    let e = fat_writer::relocation(w, file, position, destination);
    lemma_relocation_facts(w, image, file, position, destination, g);
    lemma_relocation_shape(w, file, position, destination);
    reveal(orderly);
    if g == file && kept.contains(3) {
        lemma_relocation_switched(e, w, image, file, position, destination, kept);
    } else {
        lemma_relocation_elsewhere(e, w, image, file, position, destination, kept, g);
    }
}

proof fn lemma_copied(
    w: WriterView,
    image: Image,
    e: Seq<Effect>,
    kept: Set<int>,
    destination: u32,
    source: u32,
)
    requires
        e.len() > 0,
        e[0] == (Effect::Copy { from: source, to: destination }),
        kept.contains(0),
        forall|i: int| 0 < i < e.len() ==> !(#[trigger] e[i] is Copy),
    ensures
        reached(w.kind, image, e, kept, e.len() as int).data[destination] == image.data[source],
{
    lemma_copied_until(w, image, e, kept, destination, source, e.len() as int);
}

proof fn lemma_copied_until(
    w: WriterView,
    image: Image,
    e: Seq<Effect>,
    kept: Set<int>,
    destination: u32,
    source: u32,
    n: int,
)
    requires
        0 < n <= e.len(),
        e[0] == (Effect::Copy { from: source, to: destination }),
        kept.contains(0),
        forall|i: int| 0 < i < e.len() ==> !(#[trigger] e[i] is Copy),
    ensures
        reached(w.kind, image, e, kept, n).data[destination] == image.data[source],
    decreases n,
{
    if n > 1 {
        lemma_copied_until(w, image, e, kept, destination, source, n - 1);
        assert(!(e[n - 1] is Copy));
    } else {
        assert(reached(w.kind, image, e, kept, 0) == image);
    }
}

/// However the move of a cluster is interrupted, every file reads as before.
pub proof fn lemma_relocation_is_safe(
    w: WriterView,
    image: Image,
    file: int,
    position: int,
    destination: u32,
    kept: Set<int>,
)
    requires
        is_sound(w),
        represents(w, image),
        0 <= file < w.chains.len() <= usize::MAX,
        0 <= position < w.chains[file].len(),
        w.free.contains(destination),
        can_have_reached(fat_writer::relocation(w, file, position, destination), kept),
    ensures
        ({
            let effects = fat_writer::relocation(w, file, position, destination);
            all_read_as_before(
                w,
                image,
                reached(w.kind, image, effects, kept, effects.len() as int),
            )
        }),
{
    assert forall|g: int|
        0 <= g < w.chains.len() && (#[trigger] w.chains[g]).len() > 0 implies reads(
        w.kind,
        reached(
            w.kind,
            image,
            fat_writer::relocation(w, file, position, destination),
            kept,
            fat_writer::relocation(w, file, position, destination).len() as int,
        ),
        g,
        contents(image, w.chains[g]),
    ) by {
        reveal(may_relocate);
        lemma_relocation_reached(w, image, file, position, destination, kept, g);
    }
}

/// The device after everything.
pub open spec fn done(kind: ClassicKind, image: Image, effects: Seq<Effect>) -> Image {
    reached(kind, image, effects, Set::full(), effects.len() as int)
}

/// A move of a cluster that was not interrupted leaves the device as the
/// writer knows it then, with every file's data unchanged, and the volume
/// sound.
pub proof fn lemma_relocation_completes(
    w: WriterView,
    image: Image,
    file: int,
    position: int,
    destination: u32,
)
    requires
        is_sound(w),
        represents(w, image),
        0 <= file < w.chains.len() <= usize::MAX,
        0 <= position < w.chains[file].len(),
        w.free.contains(destination),
    ensures
        ({
            let w2 = fat_writer::relocated(w, file, position, destination);
            let now = done(
                w.kind,
                image,
                fat_writer::relocation(w, file, position, destination),
            );
            &&& represents(w2, now)
            &&& is_sound(w2)
            &&& forall|g: int|
                0 <= g < w.chains.len() ==> contents(now, #[trigger] w2.chains[g]) == contents(
                    image,
                    w.chains[g],
                )
        }),
{
    let e = fat_writer::relocation(w, file, position, destination);
    let w2 = fat_writer::relocated(w, file, position, destination);
    let now = done(w.kind, image, e);
    let all = Set::<int>::full();
    assert(may_relocate(w, image, file, position, destination)) by {
        reveal(may_relocate);
    }
    lemma_all_reached(w.kind, image, e, all, e.len() as int);
    assert(e.take(e.len() as int) =~= e);
    lemma_relocation_shape(w, file, position, destination);
    lemma_relocation_aimed(e, w, image, file, position, destination);
    lemma_reached_length(w.kind, image, e, all, e.len() as int);
    assert forall|g: int| 0 <= g < w.chains.len() implies contents(now, #[trigger] w2.chains[g])
        == contents(image, w.chains[g]) && (w2.chains[g].len() > 0 ==> leads_to(
        w.kind,
        now,
        g,
        w2.chains[g],
    )) by {
        if w.chains[g].len() > 0 {
            lemma_relocation_reached(w, image, file, position, destination, all, g);
        } else {
            assert(contents(now, w2.chains[g]) =~= contents(image, w.chains[g]));
        }
    }
    assert(!fat_writer::is_owned(w, destination));
    assert(fat_writer::table_complete(w2)) by {
        assert forall|c: u32|
            2 <= c < fat_table::cluster_end(
                w2.geometry.count_of_clusters,
            ) implies #[trigger] fat_writer::holds_entry(w2.kind, w2.fat, c) by {
            assert(fat_writer::holds_entry(w.kind, w.fat, c));
            lemma_same_length_holds(w.kind, w.fat, w2.fat, c);
        }
    }
    assert forall|f: int, p: int|
        #![trigger w2.chains[f][p]]
        0 <= f < w2.chains.len() && 0 <= p < w2.chains[f].len() implies w2.chains[f][p] == (if f
        == file && p == position {
        destination
    } else {
        w.chains[f][p]
    }) by {}
    assert(fat_writer::unshared(w2)) by {
        assert forall|f: int, p: int, g: int, q: int|
            #![trigger w2.chains[f][p], w2.chains[g][q]]
            0 <= f < w2.chains.len() && 0 <= p < w2.chains[f].len() && 0 <= g < w2.chains.len()
                && 0 <= q < w2.chains[g].len() && w2.chains[f][p] == w2.chains[g][q] implies f == g
            && p == q by {
            if f == file && p == position {
                if !(g == file && q == position) {
                    assert(fat_writer::owns(w, w.chains[g][q], g, q));
                }
            } else if g == file && q == position {
                assert(fat_writer::owns(w, w.chains[f][p], f, p));
            } else {
                assert(w.chains[f][p] == w.chains[g][q]);
            }
        }
    }
    assert forall|f: int, p: int|
        #![trigger w2.chains[f][p]]
        0 <= f < w2.chains.len() && 0 <= p < w2.chains[f].len() implies fat_writer::in_data_area(
        w2,
        w2.chains[f][p],
    ) by {
        if !(f == file && p == position) {
            assert(fat_writer::in_data_area(w, w.chains[f][p]));
        }
    }
    assert forall|c: u32| #[trigger] w2.free.contains(c) implies fat_writer::in_data_area(w2, c)
        && !fat_writer::is_owned(w2, c) by {
        assert(fat_writer::in_data_area(w, w.chains[file][position]));
        if fat_writer::is_owned(w2, c) {
            let (f, p) = choose|f: int, p: int| #[trigger] fat_writer::owns(w2, c, f, p);
            if f == file && p == position {
                assert(c == destination);
                assert(fat_writer::owns(w, w.chains[file][position], file, position));
            } else {
                assert(fat_writer::owns(w, c, f, p));
                assert(w.chains[f][p] == c);
                if c == w.chains[file][position] {
                    assert(f == file && p == position);
                } else {
                    assert(w.free.contains(c));
                }
            }
        }
    }
}

// ---------------------------------------------------------------------
// Leading a file to its copied clusters
// ---------------------------------------------------------------------

/// Copying to a cluster that belongs to no file changes no file.
pub proof fn lemma_copy_is_harmless(w: WriterView, image: Image, from: u32, to: u32)
    requires
        represents(w, image),
        !fat_writer::is_owned(w, to),
    ensures
        represents(w, after(w.kind, image, Effect::Copy { from, to })),
        forall|f: int|
            0 <= f < w.chains.len() ==> contents(
                after(w.kind, image, Effect::Copy { from, to }),
                #[trigger] w.chains[f],
            ) == contents(image, w.chains[f]),
{
    let now = after(w.kind, image, Effect::Copy { from, to });
    assert forall|f: int| 0 <= f < w.chains.len() implies contents(now, #[trigger] w.chains[f])
        == contents(image, w.chains[f]) && (w.chains[f].len() > 0 ==> leads_to(
        w.kind,
        now,
        f,
        w.chains[f],
    )) by {
        assert forall|i: int| 0 <= i < w.chains[f].len() implies w.chains[f][i] != to by {
            if w.chains[f][i] == to {
                assert(fat_writer::owns(w, to, f, i));
            }
        }
        assert(contents(now, w.chains[f]) =~= contents(image, w.chains[f]));
    }
}

/// Whether the clusters of a target can take a file: they lie in the data
/// area, none occurs twice, none belongs to a file.
pub open spec fn is_usable(w: WriterView, target: Seq<u32>) -> bool {
    &&& target.len() > 0
    &&& target.no_duplicates()
    &&& forall|i: int|
        0 <= i < target.len() ==> fat_writer::in_data_area(w, #[trigger] target[i])
    &&& fat_writer::is_clear(w, target)
}

/// Whether the clusters of a file were copied to a target.
pub open spec fn is_copied(image: Image, chain: Seq<u32>, target: Seq<u32>) -> bool {
    chain.len() == target.len() && forall|i: int|
        0 <= i < chain.len() ==> image.data[#[trigger] target[i]] == image.data[chain[i]]
}

/// The facts that every commitment rests on.
#[verifier::opaque]
spec fn may_commit(w: WriterView, image: Image, file: int, target: Seq<u32>) -> bool {
    &&& is_sound(w)
    &&& represents(w, image)
    &&& 0 <= file < w.chains.len() <= usize::MAX
    &&& is_usable(w, target)
    &&& is_copied(image, w.chains[file], target)
}

/// What is known of the effects of a commitment.
spec fn is_commitment(e: Seq<Effect>, w: WriterView, file: int, target: Seq<u32>) -> bool {
    let n = target.len() as int;
    let m = w.chains[file].len() as int;
    &&& e.len() == n + m + 4
    &&& forall|i: int|
        0 <= i < n ==> #[trigger] e[i] == (Effect::SetEntry {
            cluster: target[i],
            value: fat_writer::following(w.kind, target, i),
        })
    &&& e[n] == Effect::Sync
    &&& e[n + 1] == (Effect::SetFirst { file_index: file as usize, cluster: target[0] })
    &&& e[n + 2] == Effect::Sync
    &&& forall|i: int|
        n + 3 <= i < n + 3 + m ==> #[trigger] e[i] == (Effect::SetEntry {
            cluster: w.chains[file][i - n - 3],
            value: 0,
        })
    &&& e[n + 3 + m] == Effect::Sync
}

proof fn lemma_commitment_shape(w: WriterView, file: int, target: Seq<u32>)
    requires
        target.len() > 0,
    ensures
        is_commitment(fat_writer::commitment(w, file, target), w, file, target),
{
}

proof fn lemma_commit_facts(w: WriterView, image: Image, file: int, target: Seq<u32>, f: int)
    requires
        may_commit(w, image, file, target),
        0 <= f < w.chains.len(),
    ensures
        0 <= file < w.chains.len() <= usize::MAX,
        image.first.len() == w.chains.len(),
        target.len() > 0,
        target.len() == w.chains[file].len(),
        numbers_fit(w),
        w.kind != ClassicKind::Fat12,
        w.chains[f].len() > 0 ==> leads_to(w.kind, image, f, w.chains[f]),
{
    reveal(may_commit);
}

proof fn lemma_target_apart(
    w: WriterView,
    image: Image,
    file: int,
    target: Seq<u32>,
    i: int,
    f: int,
    p: int,
)
    requires
        may_commit(w, image, file, target),
        0 <= i < target.len(),
        0 <= f < w.chains.len(),
        0 <= p < w.chains[f].len(),
    ensures
        target[i] != w.chains[f][p],
{
    reveal(may_commit);
    if target[i] == w.chains[f][p] {
        assert(fat_writer::owns(w, target[i], f, p));
        assert(fat_writer::is_owned(w, target[i]));
    }
}

proof fn lemma_target_cluster(
    w: WriterView,
    image: Image,
    file: int,
    target: Seq<u32>,
    i: int,
    k: int,
)
    requires
        may_commit(w, image, file, target),
        0 <= i < target.len(),
        0 <= k < target.len(),
    ensures
        fat_writer::in_data_area(w, target[i]),
        fat_writer::holds_entry(w.kind, image.fat, target[i]),
        i != k ==> target[i] != target[k],
        image.data[target[i]] == image.data[w.chains[file][i]],
{
    reveal(may_commit);
    assert(fat_writer::in_data_area(w, target[i]));
    assert(fat_writer::holds_entry(w.kind, w.fat, target[i]));
}

proof fn lemma_commit_chain(
    w: WriterView,
    image: Image,
    file: int,
    target: Seq<u32>,
    f: int,
    p: int,
    q: int,
)
    requires
        may_commit(w, image, file, target),
        0 <= f < w.chains.len(),
        0 <= p < w.chains[f].len(),
        0 <= q < w.chains[file].len(),
    ensures
        fat_writer::holds_entry(w.kind, image.fat, w.chains[f][p]),
        f != file ==> w.chains[f][p] != w.chains[file][q],
{
    reveal(may_commit);
    assert(fat_writer::in_data_area(w, w.chains[f][p]));
    assert(fat_writer::holds_entry(w.kind, w.fat, w.chains[f][p]));
}

proof fn lemma_commit_aimed(
    e: Seq<Effect>,
    w: WriterView,
    image: Image,
    file: int,
    target: Seq<u32>,
)
    requires
        may_commit(w, image, file, target),
        is_commitment(e, w, file, target),
        0 <= file < w.chains.len(),
    ensures
        well_aimed(w.kind, image, e),
{
    lemma_commit_facts(w, image, file, target, file);
    let n = target.len() as int;
    assert forall|i: int| 0 <= i < e.len() implies (#[trigger] e[i] matches Effect::SetEntry {
        cluster,
        value,
    } ==> fat_writer::holds_entry(w.kind, image.fat, cluster)) by {
        if i < n {
            lemma_target_cluster(w, image, file, target, i, i);
        } else if n + 3 <= i < e.len() - 1 {
            lemma_commit_chain(w, image, file, target, file, i - n - 3, i - n - 3);
        }
    }
    assert forall|i: int| 0 <= i < e.len() implies (#[trigger] e[i] matches Effect::SetFirst {
        file_index,
        cluster,
    } ==> file_index < image.first.len()) by {
        assert(i < n || i == n || i == n + 1 || i == n + 2 || i >= n + 3);
    }
}

/// Until the switch, every file leads where it led; the other files always
/// do.
proof fn lemma_commit_elsewhere(
    e: Seq<Effect>,
    w: WriterView,
    image: Image,
    file: int,
    target: Seq<u32>,
    kept: Set<int>,
    g: int,
)
    requires
        may_commit(w, image, file, target),
        is_commitment(e, w, file, target),
        orderly(e, kept),
        0 <= file < w.chains.len(),
        0 <= g < w.chains.len(),
        w.chains[g].len() > 0,
        g != file || !kept.contains(target.len() as int + 1),
    ensures
        leads_to(w.kind, reached(w.kind, image, e, kept, e.len() as int), g, w.chains[g]),
        contents(reached(w.kind, image, e, kept, e.len() as int), w.chains[g]) == contents(
            image,
            w.chains[g],
        ),
{
    let n = target.len() as int;
    let len = e.len() as int;
    let now = reached(w.kind, image, e, kept, len);
    let chain = w.chains[g];
    lemma_commit_facts(w, image, file, target, g);
    lemma_commit_aimed(e, w, image, file, target);
    lemma_first_stays(w.kind, image, e, kept, 0, len, g);
    assert forall|i: int| 0 <= i < chain.len() implies fat_table::entry_of(
        now.fat,
        w.kind,
        #[trigger] chain[i],
    ) == fat_table::entry_of(image.fat, w.kind, chain[i]) by {
        assert forall|k: int| 0 <= k < len && kept.contains(k) implies !sets_entry(
            #[trigger] e[k],
            chain[i],
        ) by {
            if k < n {
                lemma_target_apart(w, image, file, target, k, g, i);
            } else if n + 3 <= k < len - 1 {
                if g == file {
                    lemma_kept_before(e, kept, n + 1, n + 2, k);
                } else {
                    lemma_commit_chain(w, image, file, target, g, i, k - n - 3);
                }
            }
        }
        lemma_entry_stays(w.kind, image, e, kept, 0, len, chain[i]);
    }
    assert forall|i: int| 0 <= i < chain.len() implies now.data[#[trigger] chain[i]]
        == image.data[chain[i]] by {
        assert forall|k: int| 0 <= k < len && kept.contains(k) implies !(
        #[trigger] e[k] matches Effect::Copy { from, to } && to == chain[i]) by {
            assert(k < n || k == n || k == n + 1 || k == n + 2 || k >= n + 3);
        }
        lemma_data_stays(w.kind, image, e, kept, len, chain[i]);
    }
    lemma_untouched(w.kind, image, now, g, chain);
}

/// After the switch, the file leads to its target and reads the same.
proof fn lemma_commit_switched(
    e: Seq<Effect>,
    w: WriterView,
    image: Image,
    file: int,
    target: Seq<u32>,
    kept: Set<int>,
)
    requires
        may_commit(w, image, file, target),
        is_commitment(e, w, file, target),
        orderly(e, kept),
        0 <= file < w.chains.len(),
        kept.contains(target.len() as int + 1),
    ensures
        ({
            let now = reached(w.kind, image, e, kept, e.len() as int);
            &&& leads_to(w.kind, now, file, target)
            &&& contents(now, target) == contents(image, w.chains[file])
        }),
{
    let n = target.len() as int;
    let len = e.len() as int;
    let now = reached(w.kind, image, e, kept, len);
    lemma_commit_facts(w, image, file, target, file);
    lemma_commit_aimed(e, w, image, file, target);
    assert forall|i: int| 0 <= i < n implies now.data[#[trigger] target[i]]
        == image.data[w.chains[file][i]] by {
        lemma_target_cluster(w, image, file, target, i, i);
        assert forall|k: int| 0 <= k < len && kept.contains(k) implies !(
        #[trigger] e[k] matches Effect::Copy { from, to } && to == target[i]) by {
            assert(k < n || k == n || k == n + 1 || k == n + 2 || k >= n + 3);
        }
        lemma_data_stays(w.kind, image, e, kept, len, target[i]);
    }
    assert(contents(now, target) =~= contents(image, w.chains[file]));
    assert forall|i: int| 0 <= i < n implies fat_table::entry_of(
        now.fat,
        w.kind,
        #[trigger] target[i],
    ) == Some(fat_writer::following(w.kind, target, i)) by {
        let value = fat_writer::following(w.kind, target, i);
        lemma_kept_before(e, kept, i, n, n + 1);
        if i + 1 < n {
            lemma_target_cluster(w, image, file, target, i + 1, i);
            lemma_values(w, target[i + 1]);
        } else {
            lemma_values(w, target[i]);
        }
        assert forall|k: int| i < k < len && kept.contains(k) implies !sets_entry(
            #[trigger] e[k],
            target[i],
        ) by {
            if k < n {
                lemma_target_cluster(w, image, file, target, i, k);
            } else if n + 3 <= k < len - 1 {
                lemma_target_apart(w, image, file, target, i, file, k - n - 3);
            }
        }
        lemma_entry_set(w.kind, image, e, kept, i, len, target[i], value);
    }
    assert forall|i: int| 0 <= i < n - 1 implies fat_table::entry_of(
        now.fat,
        w.kind,
        #[trigger] target[i],
    ) == Some(target[i + 1]) && !fat_table::ends_chain(w.kind, target[i + 1]) by {
        lemma_target_cluster(w, image, file, target, i + 1, i);
        lemma_values(w, target[i + 1]);
    }
    lemma_values(w, target[0]);
    assert(target.last() == target[n - 1]);
    lemma_reached_length(w.kind, image, e, kept, n + 1);
    assert(reached(w.kind, image, e, kept, n + 2) == after(
        w.kind,
        reached(w.kind, image, e, kept, n + 1),
        e[n + 1],
    ));
    assert forall|k: int| n + 2 <= k < len && kept.contains(k) implies !(
    #[trigger] e[k] matches Effect::SetFirst { file_index, cluster } && file_index == file) by {
        assert(k == n + 2 || k >= n + 3);
    }
    lemma_first_stays(w.kind, image, e, kept, n + 2, len, file);
}

/// However the commitment of a file is interrupted, every file reads as
/// before.
pub proof fn lemma_commitment_is_safe(
    w: WriterView,
    image: Image,
    file: int,
    target: Seq<u32>,
    kept: Set<int>,
)
    requires
        is_sound(w),
        represents(w, image),
        0 <= file < w.chains.len() <= usize::MAX,
        is_usable(w, target),
        is_copied(image, w.chains[file], target),
        can_have_reached(fat_writer::commitment(w, file, target), kept),
    ensures
        ({
            let effects = fat_writer::commitment(w, file, target);
            all_read_as_before(
                w,
                image,
                reached(w.kind, image, effects, kept, effects.len() as int),
            )
        }),
{
    let e = fat_writer::commitment(w, file, target);
    let now = reached(w.kind, image, e, kept, e.len() as int);
    assert(may_commit(w, image, file, target)) by {
        reveal(may_commit);
    }
    assert(orderly(e, kept)) by {
        reveal(orderly);
    }
    lemma_commitment_shape(w, file, target);
    assert forall|g: int|
        0 <= g < w.chains.len() && (#[trigger] w.chains[g]).len() > 0 implies reads(
        w.kind,
        now,
        g,
        contents(image, w.chains[g]),
    ) by {
        if g == file && kept.contains(target.len() as int + 1) {
            lemma_commit_switched(e, w, image, file, target, kept);
            assert(leads_to(w.kind, now, g, target));
        } else {
            lemma_commit_elsewhere(e, w, image, file, target, kept, g);
            assert(leads_to(w.kind, now, g, w.chains[g]));
        }
    }
}

/// A commitment that was not interrupted leaves the device as the writer
/// knows it then, with every file's data unchanged, and the volume sound.
pub proof fn lemma_commitment_completes(w: WriterView, image: Image, file: int, target: Seq<u32>)
    requires
        is_sound(w),
        represents(w, image),
        0 <= file < w.chains.len() <= usize::MAX,
        is_usable(w, target),
        is_copied(image, w.chains[file], target),
    ensures
        ({
            let w2 = fat_writer::committed(w, file, target);
            let now = done(w.kind, image, fat_writer::commitment(w, file, target));
            &&& represents(w2, now)
            &&& is_sound(w2)
            &&& forall|g: int|
                0 <= g < w.chains.len() ==> contents(now, #[trigger] w2.chains[g]) == contents(
                    image,
                    w.chains[g],
                )
        }),
{
    let e = fat_writer::commitment(w, file, target);
    let w2 = fat_writer::committed(w, file, target);
    let now = done(w.kind, image, e);
    let all = Set::<int>::full();
    assert(may_commit(w, image, file, target)) by {
        reveal(may_commit);
    }
    assert(orderly(e, all)) by {
        reveal(orderly);
    }
    lemma_commitment_shape(w, file, target);
    lemma_commit_aimed(e, w, image, file, target);
    lemma_all_reached(w.kind, image, e, all, e.len() as int);
    assert(e.take(e.len() as int) =~= e);
    lemma_reached_length(w.kind, image, e, all, e.len() as int);
    assert forall|g: int| 0 <= g < w.chains.len() implies contents(now, #[trigger] w2.chains[g])
        == contents(image, w.chains[g]) && (w2.chains[g].len() > 0 ==> leads_to(
        w.kind,
        now,
        g,
        w2.chains[g],
    )) by {
        if g == file {
            lemma_commit_switched(e, w, image, file, target, all);
        } else if w.chains[g].len() > 0 {
            lemma_commit_elsewhere(e, w, image, file, target, all, g);
        } else {
            assert(contents(now, w2.chains[g]) =~= contents(image, w.chains[g]));
        }
    }
    lemma_committed_is_sound(w, image, file, target);
}

proof fn lemma_committed_is_sound(w: WriterView, image: Image, file: int, target: Seq<u32>)
    requires
        is_sound(w),
        represents(w, image),
        0 <= file < w.chains.len() <= usize::MAX,
        is_usable(w, target),
        fat_writer::committed(w, file, target).fat.len() == w.fat.len(),
    ensures
        is_sound(fat_writer::committed(w, file, target)),
{
    let w2 = fat_writer::committed(w, file, target);
    assert(fat_writer::table_complete(w2)) by {
        assert forall|c: u32|
            2 <= c < fat_table::cluster_end(
                w2.geometry.count_of_clusters,
            ) implies #[trigger] fat_writer::holds_entry(w2.kind, w2.fat, c) by {
            assert(fat_writer::holds_entry(w.kind, w.fat, c));
            lemma_same_length_holds(w.kind, w.fat, w2.fat, c);
        }
    }
    assert forall|f: int, p: int|
        #![trigger w2.chains[f][p]]
        0 <= f < w2.chains.len() && 0 <= p < w2.chains[f].len() implies w2.chains[f][p] == (if f
        == file {
        target[p]
    } else {
        w.chains[f][p]
    }) by {}
    assert(fat_writer::unshared(w2)) by {
        assert forall|f: int, p: int, g: int, q: int|
            #![trigger w2.chains[f][p], w2.chains[g][q]]
            0 <= f < w2.chains.len() && 0 <= p < w2.chains[f].len() && 0 <= g < w2.chains.len()
                && 0 <= q < w2.chains[g].len() && w2.chains[f][p] == w2.chains[g][q] implies f == g
            && p == q by {
            if f == file && g == file {
                assert(target[p] == target[q]);
            } else if f == file {
                assert(fat_writer::owns(w, target[p], g, q));
            } else if g == file {
                assert(fat_writer::owns(w, target[q], f, p));
            } else {
                assert(w.chains[f][p] == w.chains[g][q]);
            }
        }
    }
    assert forall|f: int, p: int|
        #![trigger w2.chains[f][p]]
        0 <= f < w2.chains.len() && 0 <= p < w2.chains[f].len() implies fat_writer::in_data_area(
        w2,
        w2.chains[f][p],
    ) by {
        if f == file {
            assert(fat_writer::in_data_area(w, target[p]));
        } else {
            assert(fat_writer::in_data_area(w, w.chains[f][p]));
        }
    }
    assert forall|c: u32| #[trigger] w2.free.contains(c) implies fat_writer::in_data_area(w2, c)
        && !fat_writer::is_owned(w2, c) by {
        let old_chain = w.chains[file];
        if old_chain.contains(c) {
            let k = choose|k: int| 0 <= k < old_chain.len() && old_chain[k] == c;
            assert(fat_writer::in_data_area(w, w.chains[file][k]));
            assert(fat_writer::owns(w, c, file, k));
            assert(fat_writer::is_owned(w, c));
            if fat_writer::is_owned(w2, c) {
                let (f, p) = choose|f: int, p: int| #[trigger] fat_writer::owns(w2, c, f, p);
                if f == file {
                    assert(target[p] == c);
                } else {
                    assert(w.chains[f][p] == w.chains[file][k]);
                }
            }
        } else {
            assert(w.free.contains(c));
            if fat_writer::is_owned(w2, c) {
                let (f, p) = choose|f: int, p: int| #[trigger] fat_writer::owns(w2, c, f, p);
                if f == file {
                    assert(target.contains(target[p]));
                } else {
                    assert(fat_writer::owns(w, c, f, p));
                }
            }
        }
    }
}

} // verus!
