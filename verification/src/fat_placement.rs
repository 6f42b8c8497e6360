//! What the placement of a file comes to as a whole: the file lies in its
//! target, every file reads as before, and at no moment does a crash change
//! that.

use vstd::prelude::*;

use crate::cluster_set;
use crate::error::ErrorView;
use crate::fat_safety;
use crate::fat_safety::Image;
use crate::fat_table::ClassicKind;
use crate::fat_writer;
use crate::fat_writer::{ActionView, Effect, PlaceStage, PlacementView, StepView, WriterView};

verus! {

// ---------------------------------------------------------------------
// What an action asks of the device
// ---------------------------------------------------------------------

/// What a step does to the files. The summary of free space is no part of
/// them.
pub open spec fn effect_of(step: StepView) -> Effect {
    match step {
        StepView::Copy { from, to, source, destination } => Effect::Copy { from, to },
        StepView::SetEntry { cluster, value, writes } => Effect::SetEntry { cluster, value },
        StepView::SetFirst { file_index, cluster, offset } => Effect::SetFirst {
            file_index,
            cluster,
        },
        StepView::SetInfo { offset, length, free_count, next_free } => Effect::Sync,
        StepView::Sync => Effect::Sync,
    }
}

/// What steps do to the files, one after the other.
pub open spec fn effects_of(steps: Seq<StepView>) -> Seq<Effect> {
    Seq::new(steps.len(), |i: int| effect_of(steps[i]))
}

/// What the outcome of an advance asks of the device.
pub open spec fn asked_for(outcome: Result<ActionView, ErrorView>) -> Seq<Effect> {
    match outcome {
        Ok(ActionView::Move(data)) => effects_of(data.steps),
        Ok(ActionView::Commit(steps)) => effects_of(steps),
        _ => Seq::empty(),
    }
}

proof fn lemma_effects_of(w: WriterView, effects: Seq<Effect>)
    ensures
        effects_of(fat_writer::steps_for(w, effects)) == effects,
    decreases effects.len(),
{
    let steps = fat_writer::steps_for(w, effects);
    if effects.len() > 0 {
        let rest = effects.drop_last();
        lemma_effects_of(w, rest);
        assert(steps.drop_last() =~= fat_writer::steps_for(w, rest));
        assert(effects_of(steps).drop_last() =~= effects_of(steps.drop_last()));
        assert(effect_of(steps.last()) == effects.last());
        assert(effects_of(steps) =~= rest.push(effects.last()));
    }
    assert(effects_of(steps) =~= effects);
}

// ---------------------------------------------------------------------
// Numbers of clusters
// ---------------------------------------------------------------------

proof fn lemma_members_insert(set: Set<u32>, c: u32, n: int)
    requires
        0 <= n <= 0x1_0000_0000,
        !set.contains(c),
    ensures
        cluster_set::members_below(set.insert(c), n) == cluster_set::members_below(set, n) + (if c
            < n {
            1nat
        } else {
            0nat
        }),
    decreases n,
{
    if n > 0 {
        lemma_members_insert(set, c, n - 1);
    }
}

proof fn lemma_size_insert(set: Set<u32>, c: u32)
    ensures
        !set.contains(c) ==> cluster_set::size(set.insert(c)) == cluster_set::size(set) + 1,
        set.contains(c) ==> cluster_set::size(set.remove(c)) + 1 == cluster_set::size(set),
{
    if set.contains(c) {
        lemma_members_insert(set.remove(c), c, 0x1_0000_0000);
        assert(set.remove(c).insert(c) =~= set);
    } else {
        lemma_members_insert(set, c, 0x1_0000_0000);
    }
}

proof fn lemma_size_with(set: Set<u32>, list: Seq<u32>)
    requires
        list.no_duplicates(),
        forall|i: int| 0 <= i < list.len() ==> !set.contains(#[trigger] list[i]),
    ensures
        cluster_set::size(set.union(list.to_set())) == cluster_set::size(set) + list.len(),
    decreases list.len(),
{
    if list.len() == 0 {
        assert(set.union(list.to_set()) =~= set);
    } else {
        let rest = list.drop_last();
        let last = list.last();
        lemma_size_with(set, rest);
        assert(!rest.contains(last)) by {
            if rest.contains(last) {
                let i = choose|i: int| 0 <= i < rest.len() && rest[i] == last;
                assert(list[i] == list[list.len() - 1]);
            }
        }
        assert(!set.contains(list[list.len() - 1]));
        assert(!set.union(rest.to_set()).contains(last));
        assert(set.union(list.to_set()) =~= set.union(rest.to_set()).insert(last)) by {
            assert forall|c: u32| list.contains(c) <==> (#[trigger] rest.contains(c) || c == last) by {
                lemma_last_or_rest(list, c);
            }
            assert forall|c: u32| #[trigger] set.union(list.to_set()).contains(c) == set.union(
                rest.to_set(),
            ).insert(last).contains(c) by {
                assert(list.contains(c) <==> (rest.contains(c) || c == last));
            }
        }
        lemma_size_insert(set.union(rest.to_set()), last);
    }
}

proof fn lemma_last_or_rest(list: Seq<u32>, c: u32)
    requires
        list.len() > 0,
    ensures
        list.contains(c) <==> (list.drop_last().contains(c) || c == list.last()),
{
    let rest = list.drop_last();
    if list.contains(c) {
        let i = choose|i: int| 0 <= i < list.len() && list[i] == c;
        if i < rest.len() {
            assert(rest[i] == c);
        }
    }
    if rest.contains(c) {
        let i = choose|i: int| 0 <= i < rest.len() && rest[i] == c;
        assert(list[i] == c);
    }
    if c == list.last() {
        assert(list[list.len() - 1] == c);
    }
}

proof fn lemma_size_without(set: Set<u32>, list: Seq<u32>)
    requires
        list.no_duplicates(),
        forall|i: int| 0 <= i < list.len() ==> set.contains(#[trigger] list[i]),
    ensures
        cluster_set::size(set.difference(list.to_set())) + list.len() == cluster_set::size(set),
{
    let less = set.difference(list.to_set());
    assert forall|i: int| 0 <= i < list.len() implies !less.contains(#[trigger] list[i]) by {
        assert(list.contains(list[i]));
    }
    lemma_size_with(less, list);
    assert(less.union(list.to_set()) =~= set) by {
        assert forall|c: u32| #[trigger] less.union(list.to_set()).contains(c) implies set.contains(
            c,
        ) by {
            if list.contains(c) {
                let i = choose|i: int| 0 <= i < list.len() && list[i] == c;
                assert(set.contains(list[i]));
            }
        }
    }
}

// ---------------------------------------------------------------------
// The course of a placement
// ---------------------------------------------------------------------

/// Whether a number of bytes is that of whole clusters, as far as a `u64` can
/// say.
pub open spec fn is_whole(bytes: u64, size: u32) -> bool {
    bytes == u64::MAX || bytes == 0 || (size > 0 && bytes as int % size as int == 0)
}

/// The bytes of so many clusters, as far as a `u64` can say.
pub open spec fn clusters_bytes(count: int, size: u32) -> int {
    crate::arith::sat64(count * size)
}

/// Whether every cluster of a target is free or belongs to a file, and none
/// occurs twice: directories and bad clusters are no targets.
pub open spec fn can_take(w: WriterView, target: Seq<u32>) -> bool {
    &&& target.no_duplicates()
    &&& forall|i: int|
        0 <= i < target.len() ==> w.free.contains(#[trigger] target[i]) || fat_writer::is_owned(
            w,
            target[i],
        )
}

/// Whether the clusters of a file before a place were copied to the target.
pub open spec fn copied_before(image: Image, chain: Seq<u32>, target: Seq<u32>, at: int) -> bool {
    forall|i: int|
        0 <= i < at ==> image.data[#[trigger] target[i]] == image.data[chain[i]]
}

/// What holds at every moment of a placement that began with `w0` on `image0`:
/// the volume is sound, the device holds what the writer knows, every file has
/// the data that it had, as many clusters are free, and what was moved are
/// whole clusters, at least as many as were copied to the target. At the end
/// the file lies in its target.
pub open spec fn agrees(
    w0: WriterView,
    image0: Image,
    w: WriterView,
    p: PlacementView,
    image: Image,
) -> bool {
    &&& fat_safety::is_sound(w)
    &&& fat_safety::represents(w, image)
    &&& w.kind == w0.kind
    &&& w.geometry == w0.geometry
    &&& w.chains.len() == w0.chains.len() <= usize::MAX
    &&& p.target.len() <= usize::MAX
    &&& forall|g: int|
        0 <= g < w.chains.len() ==> fat_safety::contents(image, #[trigger] w.chains[g])
            == fat_safety::contents(image0, w0.chains[g])
    &&& cluster_set::size(w.free) == cluster_set::size(w0.free)
    &&& is_whole(p.moved, w.geometry.cluster_size)
    &&& match p.stage {
        PlaceStage::Finished => p.target.len() > 0 && 0 <= p.file < w.chains.len() ==> {
            &&& w.chains[p.file] == p.target
            &&& p.moved >= clusters_bytes(p.target.len() as int, w.geometry.cluster_size)
        },
        PlaceStage::Pause { at } | PlaceStage::Copy { at } => {
            &&& can_take(w, p.target)
            &&& copied_before(image, w.chains[p.file], p.target, at as int)
            &&& p.moved >= clusters_bytes(at as int, w.geometry.cluster_size)
        },
        PlaceStage::Commit => {
            &&& can_take(w, p.target)
            &&& copied_before(image, w.chains[p.file], p.target, p.target.len() as int)
            &&& p.moved >= clusters_bytes(p.target.len() as int, w.geometry.cluster_size)
        },
        _ => can_take(w, p.target),
    }
}

/// A placement begins so where the volume is sound, the device holds what the
/// writer knows, and the target can take the file.
pub proof fn lemma_placement_begins(w: WriterView, image: Image, file: usize, target: Seq<u32>)
    requires
        fat_safety::is_sound(w),
        fat_safety::represents(w, image),
        w.chains.len() <= usize::MAX,
        target.len() <= usize::MAX,
        can_take(w, target),
    ensures
        agrees(
            w,
            image,
            w,
            PlacementView {
                file: file as int,
                target,
                stage: if target.len() == 0 || file >= w.chains.len() {
                    PlaceStage::Finished
                } else {
                    PlaceStage::Look
                },
                moved: 0,
            },
            image,
        ),
{
}

proof fn lemma_whole_grows(moved: u64, size: u32)
    requires
        is_whole(moved, size),
    ensures
        is_whole(crate::arith::sat64(moved + size) as u64, size),
{
    if size > 0 && moved != u64::MAX {
        vstd::arithmetic::div_mod::lemma_mod_add_multiples_vanish(moved as int, size as int);
        if moved == 0 {
            vstd::arithmetic::div_mod::lemma_mod_self_0(size as int);
        }
        assert((moved + size) % size as int == 0);
    }
}

proof fn lemma_copied_bytes(moved: u64, at: int, size: u32)
    requires
        moved >= clusters_bytes(at, size),
        at >= 0,
    ensures
        crate::arith::sat64(moved + size) >= clusters_bytes(at + 1, size),
{
    assert((at + 1) * size == at * size + size) by (nonlinear_arith);
    assert(at * size >= 0) by (nonlinear_arith)
        requires
            at >= 0,
    ;
}

/// A clear target that can take a file is free and usable.
proof fn lemma_clear_is_usable(w: WriterView, target: Seq<u32>)
    requires
        fat_safety::is_sound(w),
        can_take(w, target),
        fat_writer::is_clear(w, target),
        target.len() > 0,
    ensures
        fat_safety::is_usable(w, target),
        forall|i: int| 0 <= i < target.len() ==> w.free.contains(#[trigger] target[i]),
{
    assert forall|i: int| 0 <= i < target.len() implies w.free.contains(#[trigger] target[i])
        && fat_writer::in_data_area(w, target[i]) by {
        assert(!fat_writer::is_owned(w, target[i]));
    }
}

/// The free clusters are as many after a file was led to its target.
proof fn lemma_committed_size(w: WriterView, file: int, target: Seq<u32>)
    requires
        fat_safety::is_sound(w),
        0 <= file < w.chains.len(),
        target.no_duplicates(),
        target.len() == w.chains[file].len(),
        forall|i: int| 0 <= i < target.len() ==> w.free.contains(#[trigger] target[i]),
    ensures
        cluster_set::size(fat_writer::committed(w, file, target).free) == cluster_set::size(w.free),
{
    let chain = w.chains[file];
    let less = w.free.difference(target.to_set());
    lemma_size_without(w.free, target);
    assert(chain.no_duplicates()) by {
        assert forall|i: int, j: int|
            0 <= i < chain.len() && 0 <= j < chain.len() && i != j implies chain[i] != chain[j] by {
            assert(w.chains[file][i] == chain[i] && w.chains[file][j] == chain[j]);
        }
    }
    assert forall|i: int| 0 <= i < chain.len() implies !less.contains(#[trigger] chain[i]) by {
        assert(fat_writer::owns(w, chain[i], file, i));
        assert(fat_writer::is_owned(w, chain[i]));
    }
    lemma_size_with(less, chain);
}

proof fn lemma_evacuation_agrees(
    w0: WriterView,
    image0: Image,
    w: WriterView,
    p: PlacementView,
    image: Image,
    cluster: u32,
    file: int,
    position: int,
    scratch: u32,
)
    requires
        agrees(w0, image0, w, p, image),
        p.stage is Evacuate,
        fat_writer::owns(w, cluster, file, position),
        w.free.contains(scratch),
        !p.target.contains(scratch),
    ensures
        agrees(
            w0,
            image0,
            fat_writer::relocated(w, file, position, scratch),
            p.moving(w.geometry.cluster_size, PlaceStage::Look),
            fat_safety::done(
                w.kind,
                image,
                fat_writer::relocation(w, file, position, scratch),
            ),
        ),
{
    fat_safety::lemma_relocation_completes(w, image, file, position, scratch);
    lemma_whole_grows(p.moved, w.geometry.cluster_size);
    let w2 = fat_writer::relocated(w, file, position, scratch);
    let now = fat_safety::done(
        w.kind,
        image,
        fat_writer::relocation(w, file, position, scratch),
    );
    assert forall|g: int| 0 <= g < w2.chains.len() implies fat_safety::contents(
        now,
        #[trigger] w2.chains[g],
    ) == fat_safety::contents(image0, w0.chains[g]) by {
        assert(fat_safety::contents(image, w.chains[g]) == fat_safety::contents(
            image0,
            w0.chains[g],
        ));
    }
    assert(fat_writer::is_owned(w, cluster));
    assert(!w.free.contains(cluster));
    lemma_size_insert(w.free, scratch);
    lemma_size_insert(w.free.remove(scratch), cluster);
    assert forall|i: int| 0 <= i < p.target.len() implies w2.free.contains(#[trigger] p.target[i])
        || fat_writer::is_owned(w2, p.target[i]) by {
        let c = p.target[i];
        assert(p.target.contains(c));
        if !w.free.contains(c) {
            let (f, q) = choose|f: int, q: int| #[trigger] fat_writer::owns(w, c, f, q);
            if !(f == file && q == position) {
                assert(fat_writer::owns(w2, c, f, q));
            }
        }
    }
}

proof fn lemma_one_effect(kind: ClassicKind, image: Image, effect: Effect)
    ensures
        fat_safety::done(kind, image, seq![effect]) == fat_safety::after(kind, image, effect),
{
    reveal_with_fuel(fat_safety::reached, 2);
}

proof fn lemma_copy_agrees(
    w0: WriterView,
    image0: Image,
    w: WriterView,
    p: PlacementView,
    image: Image,
    at: usize,
    stage: PlaceStage,
)
    requires
        agrees(w0, image0, w, p, image),
        p.valid(w),
        p.stage == (PlaceStage::Copy { at }),
        stage == (if at + 1 < p.target.len() {
            PlaceStage::Pause { at: (at + 1) as usize }
        } else {
            PlaceStage::Commit
        }),
    ensures
        agrees(
            w0,
            image0,
            w,
            p.moving(w.geometry.cluster_size, stage),
            fat_safety::done(
                w.kind,
                image,
                seq![Effect::Copy { from: w.chains[p.file][at as int], to: p.target[at as int] }],
            ),
        ),
{
    let from = w.chains[p.file][at as int];
    let to = p.target[at as int];
    let effect = Effect::Copy { from, to };
    lemma_one_effect(w.kind, image, effect);
    lemma_whole_grows(p.moved, w.geometry.cluster_size);
    lemma_copied_bytes(p.moved, at as int, w.geometry.cluster_size);
    fat_safety::lemma_copy_is_harmless(w, image, from, to);
    let now = fat_safety::after(w.kind, image, effect);
    assert forall|g: int| 0 <= g < w.chains.len() implies fat_safety::contents(
        now,
        #[trigger] w.chains[g],
    ) == fat_safety::contents(image0, w0.chains[g]) by {
        assert(fat_safety::contents(image, w.chains[g]) == fat_safety::contents(
            image0,
            w0.chains[g],
        ));
    }
    assert forall|i: int| 0 <= i < at + 1 implies now.data[#[trigger] p.target[i]]
        == now.data[w.chains[p.file][i]] by {
        assert(fat_writer::owns(w, w.chains[p.file][i], p.file, i));
        assert(fat_writer::is_owned(w, w.chains[p.file][i]));
        assert(!fat_writer::is_owned(w, to));
        if i < at {
            assert(p.target[i] != to);
            assert(image.data[p.target[i]] == image.data[w.chains[p.file][i]]);
        }
    }
}

proof fn lemma_commit_agrees(
    w0: WriterView,
    image0: Image,
    w: WriterView,
    p: PlacementView,
    image: Image,
)
    requires
        agrees(w0, image0, w, p, image),
        p.valid(w),
        p.stage == PlaceStage::Commit,
    ensures
        agrees(
            w0,
            image0,
            fat_writer::committed(w, p.file, p.target),
            p.at_stage(PlaceStage::Finished),
            fat_safety::done(w.kind, image, fat_writer::commitment(w, p.file, p.target)),
        ),
{
    lemma_clear_is_usable(w, p.target);
    lemma_commit_is_copied(w, p, image);
    fat_safety::lemma_commitment_completes(w, image, p.file, p.target);
    lemma_committed_size(w, p.file, p.target);
    let w2 = fat_writer::committed(w, p.file, p.target);
    let now = fat_safety::done(w.kind, image, fat_writer::commitment(w, p.file, p.target));
    assert forall|g: int| 0 <= g < w2.chains.len() implies fat_safety::contents(
        now,
        #[trigger] w2.chains[g],
    ) == fat_safety::contents(image0, w0.chains[g]) by {
        assert(fat_safety::contents(image, w.chains[g]) == fat_safety::contents(
            image0,
            w0.chains[g],
        ));
    }
}

proof fn lemma_commit_is_copied(w: WriterView, p: PlacementView, image: Image)
    requires
        w.chains[p.file].len() == p.target.len(),
        copied_before(image, w.chains[p.file], p.target, p.target.len() as int),
    ensures
        fat_safety::is_copied(image, w.chains[p.file], p.target),
{
}

/// Whatever step a placement takes, and once the device has done what it asks
/// for, the placement is where it should be.
pub proof fn lemma_placement_goes_on(
    w0: WriterView,
    image0: Image,
    w: WriterView,
    p: PlacementView,
    image: Image,
    w2: WriterView,
    p2: PlacementView,
    outcome: Result<ActionView, ErrorView>,
)
    requires
        agrees(w0, image0, w, p, image),
        p.valid(w),
        fat_writer::may_advance(w, p, w2, p2, outcome),
    ensures
        agrees(w0, image0, w2, p2, fat_safety::done(w.kind, image, asked_for(outcome))),
{
    assert(fat_safety::done(w.kind, image, Seq::<Effect>::empty()) == image);
    match p.stage {
        PlaceStage::Evacuate { cluster, file, position } => {
            let target = p.target.to_set();
            if !(forall|c: u32| #[trigger] w.free.contains(c) ==> target.contains(c)) {
                let scratch = choose|scratch: u32| #[trigger]
                    cluster_set::is_lowest_outside(w.free, target, scratch)
                        && match fat_writer::relocation_error(
                        w,
                        file as int,
                        position as int,
                        scratch,
                    ) {
                        Some(error) => w2 == w && p2 == p && outcome == Err::<
                            ActionView,
                            ErrorView,
                        >(error),
                        None => w2 == fat_writer::relocated(
                            w,
                            file as int,
                            position as int,
                            scratch,
                        ) && p2 == p.moving(w.geometry.cluster_size, PlaceStage::Look) && outcome
                            == Ok::<ActionView, ErrorView>(
                            ActionView::Move(
                                fat_writer::relocation_move(
                                    w,
                                    file as int,
                                    position as int,
                                    scratch,
                                ),
                            ),
                        ),
                    };
                if fat_writer::relocation_error(w, file as int, position as int, scratch) is None {
                    assert(!target.contains(scratch));
                    lemma_evacuation_agrees(
                        w0,
                        image0,
                        w,
                        p,
                        image,
                        cluster,
                        file as int,
                        position as int,
                        scratch,
                    );
                    lemma_effects_of(
                        w,
                        fat_writer::relocation(w, file as int, position as int, scratch),
                    );
                }
            }
        },
        PlaceStage::Copy { at } => {
            let from = w.chains[p.file][at as int];
            let to = p.target[at as int];
            if w.geometry.offset_of(from) is Some && w.geometry.offset_of(to) is Some {
                lemma_copy_agrees(w0, image0, w, p, image, at, p2.stage);
                lemma_effects_of(w, seq![Effect::Copy { from, to }]);
            }
        },
        PlaceStage::Commit => {
            lemma_commit_agrees(w0, image0, w, p, image);
            lemma_effects_of(w, fat_writer::commitment(w, p.file, p.target));
        },
        _ => {},
    }
}

/// However the device is interrupted in what a step of a placement asks for,
/// every file reads as it did when the placement began.
pub proof fn lemma_placement_is_safe(
    w0: WriterView,
    image0: Image,
    w: WriterView,
    p: PlacementView,
    image: Image,
    w2: WriterView,
    p2: PlacementView,
    outcome: Result<ActionView, ErrorView>,
    kept: Set<int>,
)
    requires
        agrees(w0, image0, w, p, image),
        p.valid(w),
        fat_writer::may_advance(w, p, w2, p2, outcome),
        fat_safety::can_have_reached(asked_for(outcome), kept),
    ensures
        ({
            let effects = asked_for(outcome);
            let now = fat_safety::reached(w.kind, image, effects, kept, effects.len() as int);
            forall|g: int|
                0 <= g < w0.chains.len() && (#[trigger] w0.chains[g]).len() > 0
                    ==> fat_safety::reads(
                    w0.kind,
                    now,
                    g,
                    fat_safety::contents(image0, w0.chains[g]),
                )
        }),
{
    let effects = asked_for(outcome);
    let now = fat_safety::reached(w.kind, image, effects, kept, effects.len() as int);
    assert(fat_safety::all_read_as_before(w, image, now)) by {
        if effects.len() == 0 {
            lemma_reads_at_rest(w, image, image);
        } else {
            match p.stage {
                PlaceStage::Evacuate { cluster, file, position } => {
                    let scratch = choose|scratch: u32| #[trigger]
                        cluster_set::is_lowest_outside(w.free, p.target.to_set(), scratch)
                            && match fat_writer::relocation_error(
                            w,
                            file as int,
                            position as int,
                            scratch,
                        ) {
                            Some(error) => w2 == w && p2 == p && outcome == Err::<
                                ActionView,
                                ErrorView,
                            >(error),
                            None => w2 == fat_writer::relocated(
                                w,
                                file as int,
                                position as int,
                                scratch,
                            ) && p2 == p.moving(w.geometry.cluster_size, PlaceStage::Look)
                                && outcome == Ok::<ActionView, ErrorView>(
                                ActionView::Move(
                                    fat_writer::relocation_move(
                                        w,
                                        file as int,
                                        position as int,
                                        scratch,
                                    ),
                                ),
                            ),
                        };
                    lemma_effects_of(
                        w,
                        fat_writer::relocation(w, file as int, position as int, scratch),
                    );
                    fat_safety::lemma_relocation_is_safe(
                        w,
                        image,
                        file as int,
                        position as int,
                        scratch,
                        kept,
                    );
                },
                PlaceStage::Copy { at } => {
                    let from = w.chains[p.file][at as int];
                    let to = p.target[at as int];
                    lemma_effects_of(w, seq![Effect::Copy { from, to }]);
                    fat_safety::lemma_copy_is_harmless(w, image, from, to);
                    reveal_with_fuel(fat_safety::reached, 2);
                    lemma_reads_at_rest(w, image, now);
                },
                PlaceStage::Commit => {
                    lemma_effects_of(w, fat_writer::commitment(w, p.file, p.target));
                    lemma_clear_is_usable(w, p.target);
                    lemma_commit_is_copied(w, p, image);
                    fat_safety::lemma_commitment_is_safe(w, image, p.file, p.target, kept);
                },
                _ => {},
            }
        }
    }
    assert forall|g: int|
        0 <= g < w0.chains.len() && (#[trigger] w0.chains[g]).len() > 0 implies fat_safety::reads(
        w0.kind,
        now,
        g,
        fat_safety::contents(image0, w0.chains[g]),
    ) by {
        assert(fat_safety::contents(image, w.chains[g]) == fat_safety::contents(
            image0,
            w0.chains[g],
        ));
        assert(fat_safety::contents(image, w.chains[g]).len() == w.chains[g].len());
        assert(fat_safety::contents(image0, w0.chains[g]).len() == w0.chains[g].len());
    }
}

/// Where the device holds what the writer knows and the data stayed, every
/// file reads as before.
proof fn lemma_reads_at_rest(w: WriterView, then: Image, now: Image)
    requires
        fat_safety::represents(w, now),
        forall|g: int|
            0 <= g < w.chains.len() ==> fat_safety::contents(now, #[trigger] w.chains[g])
                == fat_safety::contents(then, w.chains[g]),
    ensures
        fat_safety::all_read_as_before(w, then, now),
{
    assert forall|g: int|
        0 <= g < w.chains.len() && (#[trigger] w.chains[g]).len() > 0 implies fat_safety::reads(
        w.kind,
        now,
        g,
        fat_safety::contents(then, w.chains[g]),
    ) by {
        assert(fat_safety::leads_to(w.kind, now, g, w.chains[g]));
    }
}

/// A placement that is done has led the file to its target; every file reads
/// as it did before, as many clusters are free as before, and whole clusters
/// were moved: at least those of the target.
pub proof fn lemma_placement_ends(
    w0: WriterView,
    image0: Image,
    w: WriterView,
    p: PlacementView,
    image: Image,
)
    requires
        agrees(w0, image0, w, p, image),
        p.stage == PlaceStage::Finished,
        p.target.len() > 0,
        0 <= p.file < w.chains.len(),
    ensures
        w.chains[p.file] == p.target,
        forall|g: int|
            0 <= g < w0.chains.len() && (#[trigger] w0.chains[g]).len() > 0 ==> fat_safety::reads(
                w0.kind,
                image,
                g,
                fat_safety::contents(image0, w0.chains[g]),
            ),
        cluster_set::size(w.free) == cluster_set::size(w0.free),
        is_whole(p.moved, w.geometry.cluster_size),
        p.moved >= clusters_bytes(p.target.len() as int, w.geometry.cluster_size),
        fat_safety::is_sound(w),
{
    lemma_reads_at_rest(w, image, image);
    assert forall|g: int|
        0 <= g < w0.chains.len() && (#[trigger] w0.chains[g]).len() > 0 implies fat_safety::reads(
        w0.kind,
        image,
        g,
        fat_safety::contents(image0, w0.chains[g]),
    ) by {
        assert(fat_safety::contents(image, w.chains[g]) == fat_safety::contents(
            image0,
            w0.chains[g],
        ));
        assert(fat_safety::contents(image, w.chains[g]).len() == w.chains[g].len());
        assert(fat_safety::contents(image0, w0.chains[g]).len() == w0.chains[g].len());
    }
}

// ---------------------------------------------------------------------
// That a placement ends
// ---------------------------------------------------------------------

/// How many of the first `n` clusters of a target belong to files.
pub open spec fn blockers_before(w: WriterView, target: Seq<u32>, n: int) -> nat
    decreases n,
{
    if n <= 0 {
        0
    } else if fat_writer::is_owned(w, target[n - 1]) {
        blockers_before(w, target, n - 1) + 1
    } else {
        blockers_before(w, target, n - 1)
    }
}

/// How many clusters of a target belong to files.
pub open spec fn blockers(w: WriterView, target: Seq<u32>) -> nat {
    blockers_before(w, target, target.len() as int)
}

/// How many free clusters lie outside a target.
pub open spec fn room(w: WriterView, target: Seq<u32>) -> nat {
    cluster_set::size(w.free.difference(target.to_set()))
}

/// Whether nothing keeps a placement from its end: every cluster has a place
/// on the device, the target is as long as the file, and there is a free
/// cluster outside the target for each cluster that is in the way.
pub open spec fn can_finish(w: WriterView, p: PlacementView) -> bool {
    &&& forall|c: u32| #[trigger]
        fat_writer::in_data_area(w, c) ==> w.geometry.offset_of(c) is Some
    &&& match p.stage {
        PlaceStage::Look | PlaceStage::Evacuate { .. } | PlaceStage::Ready => {
            &&& w.chains[p.file].len() == p.target.len()
            &&& blockers(w, p.target) <= room(w, p.target)
        },
        _ => true,
    }
}

/// How many steps a placement takes at most before it is at its end.
pub open spec fn steps_to_go(w: WriterView, p: PlacementView) -> int {
    let n = p.target.len() as int;
    match p.stage {
        PlaceStage::Look => 2 * n + 2 + 2 * blockers(w, p.target),
        PlaceStage::Evacuate { .. } => 2 * n + 1 + 2 * blockers(w, p.target),
        PlaceStage::Ready => 2 * n + 1,
        PlaceStage::Pause { at } => 2 * (n - at) + 1,
        PlaceStage::Copy { at } => 2 * (n - at),
        PlaceStage::Commit => 1,
        PlaceStage::Finished => 0,
    }
}

proof fn lemma_steps_bound(w: WriterView, p: PlacementView)
    requires
        p.valid(w),
    ensures
        steps_to_go(w, p) >= 0,
        steps_to_go(w, p) == 0 ==> p.stage == PlaceStage::Finished,
{
}

/// With one cluster of a target moved out of the way, one fewer is.
proof fn lemma_fewer_blockers(
    w: WriterView,
    w2: WriterView,
    target: Seq<u32>,
    at: int,
    n: int,
)
    requires
        0 <= at < target.len(),
        0 <= n <= target.len(),
        target.no_duplicates(),
        fat_writer::is_owned(w, target[at]),
        forall|i: int|
            0 <= i < target.len() ==> (fat_writer::is_owned(w2, #[trigger] target[i]) <==> (
            fat_writer::is_owned(w, target[i]) && target[i] != target[at])),
    ensures
        blockers_before(w2, target, n) + (if at < n {
            1nat
        } else {
            0nat
        }) == blockers_before(w, target, n),
    decreases n,
{
    if n > 0 {
        lemma_fewer_blockers(w, w2, target, at, n - 1);
        if at != n - 1 {
            assert(target[n - 1] != target[at]);
        }
        assert(fat_writer::is_owned(w2, target[n - 1]) <==> (fat_writer::is_owned(
            w,
            target[n - 1],
        ) && target[n - 1] != target[at]));
    }
}

proof fn lemma_some_blocker(w: WriterView, target: Seq<u32>, at: int, n: int)
    requires
        0 <= at < n <= target.len(),
        fat_writer::is_owned(w, target[at]),
    ensures
        blockers_before(w, target, n) >= 1,
    decreases n,
{
    if at < n - 1 {
        lemma_some_blocker(w, target, at, n - 1);
    }
}

proof fn lemma_size_of_nothing(set: Set<u32>, n: int)
    requires
        forall|c: u32| !#[trigger] set.contains(c),
    ensures
        cluster_set::members_below(set, n) == 0,
    decreases n,
{
    if n > 0 {
        lemma_size_of_nothing(set, n - 1);
    }
}

proof fn lemma_evacuation_makes_way(
    w: WriterView,
    p: PlacementView,
    cluster: u32,
    file: int,
    position: int,
    scratch: u32,
)
    requires
        fat_safety::is_sound(w),
        can_take(w, p.target),
        fat_writer::owns(w, cluster, file, position),
        p.target.contains(cluster),
        w.free.contains(scratch),
        !p.target.contains(scratch),
    ensures
        ({
            let w2 = fat_writer::relocated(w, file, position, scratch);
            &&& blockers(w2, p.target) + 1 == blockers(w, p.target)
            &&& room(w2, p.target) + 1 == room(w, p.target)
        }),
{
    let w2 = fat_writer::relocated(w, file, position, scratch);
    let target = p.target;
    let at = choose|at: int| 0 <= at < target.len() && target[at] == cluster;
    assert(fat_writer::is_owned(w, cluster));
    assert forall|i: int| 0 <= i < target.len() implies (fat_writer::is_owned(
        w2,
        #[trigger] target[i],
    ) <==> (fat_writer::is_owned(w, target[i]) && target[i] != target[at])) by {
        let c = target[i];
        assert(target.contains(c));
        if fat_writer::is_owned(w2, c) {
            let (f, q) = choose|f: int, q: int| #[trigger] fat_writer::owns(w2, c, f, q);
            if !(f == file && q == position) {
                assert(w.chains[f][q] == c);
                assert(fat_writer::owns(w, c, f, q));
                assert(w.chains[file][position] == cluster);
            }
        }
        if fat_writer::is_owned(w, c) && c != cluster {
            let (f, q) = choose|f: int, q: int| #[trigger] fat_writer::owns(w, c, f, q);
            assert(fat_writer::owns(w2, c, f, q));
        }
    }
    lemma_fewer_blockers(w, w2, target, at, target.len() as int);
    let outside = w.free.difference(target.to_set());
    assert(!target.to_set().contains(scratch));
    assert(target.to_set().contains(cluster));
    assert(w2.free.difference(target.to_set()) =~= outside.remove(scratch));
    lemma_size_insert(outside, scratch);
}

proof fn lemma_room_is_outside(w: WriterView, target: Seq<u32>)
    requires
        room(w, target) > 0,
    ensures
        !(forall|c: u32| #[trigger] w.free.contains(c) ==> target.to_set().contains(c)),
{
    let outside = w.free.difference(target.to_set());
    if forall|c: u32| #[trigger] w.free.contains(c) ==> target.to_set().contains(c) {
        assert forall|c: u32| !#[trigger] outside.contains(c) by {
            if w.free.contains(c) {
                assert(target.to_set().contains(c));
            }
        }
        lemma_size_of_nothing(outside, 0x1_0000_0000);
    }
}

proof fn lemma_look_succeeds(
    w: WriterView,
    p: PlacementView,
    w2: WriterView,
    p2: PlacementView,
    outcome: Result<ActionView, ErrorView>,
)
    requires
        fat_writer::unshared(w),
        p.stage == PlaceStage::Look,
        fat_writer::may_advance(w, p, w2, p2, outcome),
    ensures
        outcome is Ok,
        w2 == w,
        p2.target == p.target,
        p2.file == p.file,
        p2.stage is Evacuate || p2.stage == PlaceStage::Ready,
{
    if outcome is Err {
        let (f, q) = choose|f: int, q: int| #[trigger]
            fat_writer::is_first_repeat(w, f, q) && outcome == Err::<ActionView, ErrorView>(
                fat_writer::cross_link_error(w.chains[f][q]),
            );
        assert(fat_writer::occurs_before(w, f, q));
        let (g, r) = choose|g: int, r: int| #[trigger]
            fat_writer::owns(w, w.chains[f][q], g, r) && (g < f || (g == f && r < q));
        assert(w.chains[g][r] == w.chains[f][q]);
    }
}

proof fn lemma_evacuation_succeeds(
    w: WriterView,
    p: PlacementView,
    w2: WriterView,
    p2: PlacementView,
    outcome: Result<ActionView, ErrorView>,
)
    requires
        fat_safety::is_sound(w),
        can_take(w, p.target),
        p.valid(w),
        can_finish(w, p),
        p.stage is Evacuate,
        fat_writer::may_advance(w, p, w2, p2, outcome),
    ensures
        outcome is Ok,
        p2.target == p.target,
        p2.file == p.file,
        p2.stage == PlaceStage::Look,
        w2.geometry == w.geometry,
        w2.chains[p.file].len() == w.chains[p.file].len(),
        blockers(w2, p.target) + 1 == blockers(w, p.target),
        room(w2, p.target) + 1 == room(w, p.target),
{
    if let PlaceStage::Evacuate { cluster, file, position } = p.stage {
        let target = p.target.to_set();
        assert(fat_writer::is_owned(w, cluster));
        let at = choose|at: int| 0 <= at < p.target.len() && p.target[at] == cluster;
        lemma_some_blocker(w, p.target, at, p.target.len() as int);
        lemma_room_is_outside(w, p.target);
        let scratch = choose|scratch: u32| #[trigger]
            cluster_set::is_lowest_outside(w.free, target, scratch)
                && match fat_writer::relocation_error(w, file as int, position as int, scratch) {
                Some(error) => w2 == w && p2 == p && outcome == Err::<ActionView, ErrorView>(
                    error,
                ),
                None => w2 == fat_writer::relocated(w, file as int, position as int, scratch) && p2
                    == p.moving(w.geometry.cluster_size, PlaceStage::Look) && outcome == Ok::<
                    ActionView,
                    ErrorView,
                >(
                    ActionView::Move(
                        fat_writer::relocation_move(w, file as int, position as int, scratch),
                    ),
                ),
            };
        assert(w.free.contains(scratch) && !target.contains(scratch));
        assert(fat_writer::in_data_area(w, scratch));
        assert(fat_writer::in_data_area(w, w.chains[file as int][position as int]));
        lemma_evacuation_makes_way(w, p, cluster, file as int, position as int, scratch);
    }
}

proof fn lemma_copy_succeeds(
    w: WriterView,
    p: PlacementView,
    w2: WriterView,
    p2: PlacementView,
    outcome: Result<ActionView, ErrorView>,
)
    requires
        fat_safety::is_sound(w),
        can_take(w, p.target),
        p.target.len() <= usize::MAX,
        p.valid(w),
        can_finish(w, p),
        p.stage is Copy,
        fat_writer::may_advance(w, p, w2, p2, outcome),
    ensures
        outcome is Ok,
        w2 == w,
        steps_to_go(w2, p2) < steps_to_go(w, p),
        p2.stage is Pause || p2.stage == PlaceStage::Commit,
{
    if let PlaceStage::Copy { at } = p.stage {
        lemma_clear_is_usable(w, p.target);
        assert(fat_writer::in_data_area(w, w.chains[p.file][at as int]));
        assert(fat_writer::in_data_area(w, p.target[at as int]));
    }
}

proof fn lemma_places_stay(w: WriterView, w2: WriterView)
    requires
        w2.geometry == w.geometry,
        forall|c: u32| #[trigger]
            fat_writer::in_data_area(w, c) ==> w.geometry.offset_of(c) is Some,
    ensures
        forall|c: u32| #[trigger]
            fat_writer::in_data_area(w2, c) ==> w2.geometry.offset_of(c) is Some,
{
    assert forall|c: u32| #[trigger]
        fat_writer::in_data_area(w2, c) implies w2.geometry.offset_of(c) is Some by {
        assert(fat_writer::in_data_area(w, c));
    }
}

/// Where nothing keeps a placement from its end, every step succeeds and
/// brings it nearer.
pub proof fn lemma_placement_comes_nearer(
    w: WriterView,
    p: PlacementView,
    w2: WriterView,
    p2: PlacementView,
    outcome: Result<ActionView, ErrorView>,
)
    requires
        fat_safety::is_sound(w),
        can_take(w, p.target),
        p.target.len() <= usize::MAX,
        p.valid(w),
        can_finish(w, p),
        p.stage != PlaceStage::Finished,
        fat_writer::may_advance(w, p, w2, p2, outcome),
    ensures
        outcome is Ok,
        can_finish(w2, p2),
        p2.target == p.target,
        p2.file == p.file,
        steps_to_go(w2, p2) < steps_to_go(w, p),
{
    match p.stage {
        PlaceStage::Look => {
            lemma_look_succeeds(w, p, w2, p2, outcome);
        },
        PlaceStage::Evacuate { cluster, file, position } => {
            lemma_evacuation_succeeds(w, p, w2, p2, outcome);
            lemma_places_stay(w, w2);
        },
        PlaceStage::Copy { at } => {
            lemma_copy_succeeds(w, p, w2, p2, outcome);
        },
        PlaceStage::Commit => {
            lemma_places_stay(w, fat_writer::committed(w, p.file, p.target));
        },
        _ => {},
    }
}

/// A moment of a placement: the writer, the placement and the device.
pub struct Moment {
    pub w: WriterView,
    pub p: PlacementView,
    pub image: Image,
}

/// Whether the moments of a placement follow each other: between two of them
/// the placement advances, and the device does what that asks for.
pub open spec fn is_course(
    moments: Seq<Moment>,
    outcomes: Seq<Result<ActionView, ErrorView>>,
) -> bool {
    &&& moments.len() == outcomes.len() + 1
    &&& forall|i: int| 0 <= i < moments.len() ==> (#[trigger] moments[i]).p.valid(moments[i].w)
    &&& forall|i: int|
        #![trigger outcomes[i]]
        0 <= i < outcomes.len() ==> {
            let now = moments[i];
            let next = moments[i + 1];
            &&& fat_writer::may_advance(now.w, now.p, next.w, next.p, outcomes[i])
            &&& next.image == fat_safety::done(now.w.kind, now.image, asked_for(outcomes[i]))
        }
}

/// Every moment of a placement that nothing keeps from its end: it is where
/// it should be, and it is at its end or nearer to it by as many steps as it
/// took.
proof fn lemma_course(
    w0: WriterView,
    image0: Image,
    moments: Seq<Moment>,
    outcomes: Seq<Result<ActionView, ErrorView>>,
    n: int,
)
    requires
        is_course(moments, outcomes),
        agrees(w0, image0, moments[0].w, moments[0].p, moments[0].image),
        can_finish(moments[0].w, moments[0].p),
        0 <= n < moments.len(),
    ensures
        agrees(w0, image0, moments[n].w, moments[n].p, moments[n].image),
        can_finish(moments[n].w, moments[n].p),
        moments[n].p.target == moments[0].p.target,
        moments[n].p.file == moments[0].p.file,
        moments[n].p.stage == PlaceStage::Finished || steps_to_go(moments[n].w, moments[n].p) + n
            <= steps_to_go(moments[0].w, moments[0].p),
        forall|i: int| 0 <= i < n ==> #[trigger] outcomes[i] is Ok,
    decreases n,
{
    if n > 0 {
        lemma_course(w0, image0, moments, outcomes, n - 1);
        let now = moments[n - 1];
        let next = moments[n];
        let outcome = outcomes[n - 1];
        assert(now.p.valid(now.w));
        lemma_placement_goes_on(
            w0,
            image0,
            now.w,
            now.p,
            now.image,
            next.w,
            next.p,
            outcome,
        );
        if now.p.stage != PlaceStage::Finished {
            lemma_placement_comes_nearer(now.w, now.p, next.w, next.p, outcome);
        }
    }
}

/// A placement that nothing keeps from its end comes to it: no step fails, and
/// after as many steps as there were to go the file lies in its target and
/// every file reads as before.
pub proof fn lemma_placement_comes_to_its_end(
    w0: WriterView,
    image0: Image,
    moments: Seq<Moment>,
    outcomes: Seq<Result<ActionView, ErrorView>>,
)
    requires
        is_course(moments, outcomes),
        agrees(w0, image0, moments[0].w, moments[0].p, moments[0].image),
        can_finish(moments[0].w, moments[0].p),
        moments[0].p.target.len() > 0,
        0 <= moments[0].p.file < w0.chains.len(),
        outcomes.len() >= steps_to_go(moments[0].w, moments[0].p),
    ensures
        forall|i: int| 0 <= i < outcomes.len() ==> #[trigger] outcomes[i] is Ok,
        moments.last().p.stage == PlaceStage::Finished,
        moments.last().w.chains[moments[0].p.file] == moments[0].p.target,
        forall|g: int|
            0 <= g < w0.chains.len() && (#[trigger] w0.chains[g]).len() > 0 ==> fat_safety::reads(
                w0.kind,
                moments.last().image,
                g,
                fat_safety::contents(image0, w0.chains[g]),
            ),
        moments.last().p.moved >= clusters_bytes(
            moments[0].p.target.len() as int,
            w0.geometry.cluster_size,
        ),
{
    let last = moments.len() - 1;
    lemma_course(w0, image0, moments, outcomes, last);
    let end = moments[last];
    assert(end.p.valid(end.w));
    lemma_steps_bound(end.w, end.p);
    lemma_placement_ends(w0, image0, end.w, end.p, end.image);
}

} // verus!
