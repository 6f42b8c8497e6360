//! What holds of every plan: which files it takes, in which order, and what
//! it counts.

use vstd::prelude::*;

use crate::arith;
use crate::domain::{
    AnalysisReportView, DefragPolicy, FileReportView, OptimizationMode, PlanCandidateRole,
    PlanCandidateView, PlanSummaryView, RequiredMountState,
};
use crate::plan;
use crate::plan::PlanView;
use crate::sort;
use crate::sort::SortKey;

verus! {

/// The order in which a sort leaves things.
pub proof fn lemma_sort_is_an_order<K: SortKey, T>(keys: Seq<K>, items: Seq<T>) -> (order: Seq<usize>)
    requires
        keys.len() == items.len(),
        keys.len() <= usize::MAX,
    ensures
        sort::is_stable_order(keys, order),
        sort::sorted(keys, items) == Seq::new(items.len(), |i: int| items[order[i] as int]),
        forall|i: int, j: int|
            0 <= i < j < order.len() ==> #[trigger] order[i] != #[trigger] order[j],
{
    sort::lemma_sorted_is_sorted(keys, items);
    let order = choose|order: Seq<usize>| #[trigger]
        sort::is_stable_order(keys, order) && sort::sorted(keys, items) == Seq::new(
            items.len(),
            |i: int| items[order[i] as int],
        );
    sort::lemma_order_distinct(keys, order);
    order
}

/// Whether a file is one that a policy is after: it can be moved, has runs
/// too many, as many as the policy asks for, and is as large.
pub open spec fn is_wanted(file: FileReportView, policy: DefragPolicy) -> bool {
    &&& file.eligible_for_plan
    &&& file.excess_runs >= 1
    &&& file.excess_runs >= policy.minimum_excess_runs
    &&& file.logical_bytes >= policy.minimum_file_bytes
}

/// How many files are wanted.
pub open spec fn wanted_files(files: Seq<FileReportView>, policy: DefragPolicy) -> nat
    decreases files.len(),
{
    if files.len() == 0 {
        0
    } else {
        wanted_files(files.drop_last(), policy) + (if is_wanted(files.last(), policy) {
            1nat
        } else {
            0
        })
    }
}

/// How many bytes the files that are wanted have on the device.
pub open spec fn wanted_bytes(files: Seq<FileReportView>, policy: DefragPolicy) -> nat
    decreases files.len(),
{
    if files.len() == 0 {
        0
    } else {
        wanted_bytes(files.drop_last(), policy) + (if is_wanted(files.last(), policy) {
            files.last().allocated_bytes as nat
        } else {
            0
        })
    }
}

/// Whether a candidate stands for a file.
pub open spec fn stands_for(candidate: PlanCandidateView, file: FileReportView) -> bool {
    &&& candidate.path == file.path
    &&& candidate.rewrite_bytes == file.allocated_bytes
    &&& candidate.current_runs == file.physical_runs
    &&& candidate.target_runs >= 1
    &&& file.minimum_runs >= 1 ==> candidate.target_runs == file.minimum_runs
    &&& file.minimum_runs == 0 ==> candidate.target_runs == 1
    &&& candidate.role == PlanCandidateRole::FragmentationTarget
}

/// Whether a file is among the candidates.
pub open spec fn is_taken(candidates: Seq<PlanCandidateView>, file: FileReportView) -> bool {
    exists|k: int| 0 <= k < candidates.len() && stands_for(#[trigger] candidates[k], file)
}

/// Whether a candidate stands for a wanted file.
pub open spec fn is_of_wanted(
    candidate: PlanCandidateView,
    files: Seq<FileReportView>,
    policy: DefragPolicy,
) -> bool {
    exists|i: int|
        0 <= i < files.len() && is_wanted(#[trigger] files[i], policy) && stands_for(
            candidate,
            files[i],
        )
}

/// The runs that a candidate can lose.
pub open spec fn lost_runs(candidate: PlanCandidateView) -> int {
    if candidate.current_runs >= candidate.target_runs {
        candidate.current_runs - candidate.target_runs
    } else {
        0
    }
}

/// Whether a plan takes the wanted files of a list and no others, those with
/// the most runs to lose first, and counts what it takes and what it leaves.
pub open spec fn takes_wanted(
    summary: PlanSummaryView,
    files: Seq<FileReportView>,
    policy: DefragPolicy,
) -> bool {
    &&& forall|i: int|
        0 <= i < files.len() && is_wanted(files[i], policy) ==> #[trigger] is_taken(
            summary.candidates,
            files[i],
        )
    &&& forall|k: int|
        0 <= k < summary.candidates.len() ==> #[trigger] is_of_wanted(
            summary.candidates[k],
            files,
            policy,
        )
    &&& summary.candidates.len() == wanted_files(files, policy)
    &&& summary.excluded_files == files.len() - summary.candidates.len()
    &&& wanted_bytes(files, policy) <= u64::MAX ==> summary.estimated_rewrite_bytes
        == wanted_bytes(files, policy)
    &&& wanted_bytes(files, policy) > u64::MAX ==> summary.estimated_rewrite_bytes == u64::MAX
    &&& forall|j: int, k: int|
        0 <= j < k < summary.candidates.len() ==> lost_runs(#[trigger] summary.candidates[j])
            >= lost_runs(#[trigger] summary.candidates[k])
}

proof fn lemma_candidates(files: Seq<FileReportView>, policy: DefragPolicy)
    ensures
        ({
            let list = plan::candidates_in(files, policy);
            &&& list.len() == wanted_files(files, policy)
            &&& list.len() <= files.len()
            &&& plan::rewrite_bytes(list) == wanted_bytes(files, policy)
            &&& forall|i: int|
                0 <= i < files.len() && is_wanted(files[i], policy) ==> #[trigger] is_taken(
                    list,
                    files[i],
                )
            &&& forall|k: int|
                0 <= k < list.len() ==> #[trigger] is_of_wanted(list[k], files, policy)
        }),
    decreases files.len(),
{
    let list = plan::candidates_in(files, policy);
    if files.len() > 0 {
        let rest = files.drop_last();
        let before = plan::candidates_in(rest, policy);
        lemma_candidates(rest, policy);
        assert(is_wanted(files.last(), policy) == plan::is_candidate(files.last(), policy));
        if is_wanted(files.last(), policy) {
            assert(list.drop_last() =~= before);
            assert(stands_for(list.last(), files.last()));
        }
        assert forall|i: int|
            0 <= i < files.len() && is_wanted(files[i], policy) implies #[trigger] is_taken(
            list,
            files[i],
        ) by {
            if i < rest.len() {
                assert(rest[i] == files[i]);
                assert(is_taken(before, rest[i]));
                let k = choose|k: int|
                    0 <= k < before.len() && stands_for(#[trigger] before[k], rest[i]);
                assert(list[k] == before[k]);
            } else {
                assert(list[list.len() - 1] == list.last());
            }
        }
        assert forall|k: int| 0 <= k < list.len() implies #[trigger] is_of_wanted(
            list[k],
            files,
            policy,
        ) by {
            if k < before.len() {
                assert(list[k] == before[k]);
                assert(is_of_wanted(before[k], rest, policy));
                let i = choose|i: int|
                    0 <= i < rest.len() && is_wanted(#[trigger] rest[i], policy) && stands_for(
                        before[k],
                        rest[i],
                    );
                assert(files[i] == rest[i]);
            } else {
                assert(files[files.len() - 1] == files.last());
            }
        }
    }
}

proof fn lemma_ranked(
    summary: PlanSummaryView,
    files: Seq<FileReportView>,
    policy: DefragPolicy,
)
    requires
        files.len() <= usize::MAX,
        summary.candidates == plan::ranked(plan::candidates_in(files, policy)),
        summary.excluded_files == files.len() - plan::candidates_in(files, policy).len(),
        summary.estimated_rewrite_bytes == arith::sat64(
            plan::rewrite_bytes(plan::candidates_in(files, policy)) as int,
        ),
    ensures
        takes_wanted(summary, files, policy),
{
    lemma_candidates(files, policy);
    let list = plan::candidates_in(files, policy);
    let keys = plan::gain_keys(list);
    let order = lemma_sort_is_an_order(keys, list);
    let out = summary.candidates;
    assert forall|i: int|
        0 <= i < files.len() && is_wanted(files[i], policy) implies #[trigger] is_taken(
        out,
        files[i],
    ) by {
        assert(is_taken(list, files[i]));
        let k = choose|k: int| 0 <= k < list.len() && stands_for(#[trigger] list[k], files[i]);
        assert(order.contains(k as usize));
        let at = choose|at: int| 0 <= at < order.len() && order[at] == k as usize;
        assert(out[at] == list[k]);
    }
    assert forall|k: int| 0 <= k < out.len() implies #[trigger] is_of_wanted(
        out[k],
        files,
        policy,
    ) by {
        assert(out[k] == list[order[k] as int]);
        assert(is_of_wanted(list[order[k] as int], files, policy));
    }
    assert forall|j: int, k: int| 0 <= j < k < out.len() implies lost_runs(#[trigger] out[j])
        >= lost_runs(#[trigger] out[k]) by {
        assert(sort::before(keys, order[j] as int, order[k] as int));
    }
}

/// A plan takes every file that can be moved, has at least as many excess
/// runs as the policy asks for and in any case one, and is at least as long
/// as the policy asks for; and it takes no other. The files with the most runs to lose come first,
/// every file that is not taken is counted as excluded, and the estimate is
/// the bytes that the taken files have on the device. An ext4 plan needs the
/// mode that defragments and a root; a FAT plan is a preview.
pub proof fn lemma_plan_takes_the_wanted_files(report: AnalysisReportView, policy: DefragPolicy)
    requires
        report.files.len() <= usize::MAX,
    ensures
        match plan::ext4_plan(report, policy) {
            Ok(made) => {
                &&& policy.mode == OptimizationMode::Defragment
                &&& report.volume.mount_point is Some
                &&& made matches PlanView::Ext4(p) && {
                    &&& takes_wanted(p.summary, report.files, policy)
                    &&& p.summary.volume_id == report.volume.id
                    &&& p.volume == report.volume
                    &&& p.report == report
                    &&& p.relative_paths.len() == p.summary.candidates.len()
                    &&& p.summary.requirements.mount_state == RequiredMountState::MountedReadWrite
                    &&& p.summary.requirements.requires_privilege
                    &&& p.summary.requirements.available_in_this_build
                }
            },
            Err(e) => {
                ||| policy.mode != OptimizationMode::Defragment && e
                    is UnsupportedOptimizationMode
                ||| report.volume.mount_point is None
                ||| !crate::plan::all_below(
                    plan::ext4_summary(report, policy).candidates,
                    report.volume.mount_point->0,
                )
            },
        },
        ({
            let summary = plan::fat_summary(report, policy);
            &&& takes_wanted(summary, report.files, policy)
            &&& summary.volume_id == report.volume.id
            &&& summary.requirements.mount_state == RequiredMountState::Unmounted
            &&& !summary.requirements.available_in_this_build
        }),
{
    lemma_candidates(report.files, policy);
    lemma_ranked(plan::ext4_summary(report, policy), report.files, policy);
    lemma_ranked(plan::fat_summary(report, policy), report.files, policy);
}

/// A file that is more fragmented, or larger, is not left out of a plan that
/// took it: a policy that takes a file takes it with more excess runs too,
/// and a policy that asks for less takes it as well.
pub proof fn lemma_more_fragmented_files_stay(
    files: Seq<FileReportView>,
    i: int,
    worse: FileReportView,
    policy: DefragPolicy,
    laxer: DefragPolicy,
)
    requires
        0 <= i < files.len(),
        plan::is_candidate(files[i], policy),
        worse.eligible_for_plan,
        worse.excess_runs >= files[i].excess_runs,
        worse.logical_bytes >= files[i].logical_bytes,
        laxer.minimum_excess_runs <= policy.minimum_excess_runs,
        laxer.minimum_file_bytes <= policy.minimum_file_bytes,
    ensures
        plan::candidates_in(files.update(i, worse), policy).contains(plan::candidate_of(worse)),
        plan::candidates_in(files, laxer).contains(plan::candidate_of(files[i])),
        plan::candidate_of(worse).path == worse.path,
        plan::candidate_of(files[i]).path == files[i].path,
{
    assert(files.update(i, worse)[i] == worse);
    plan::lemma_candidates_are_the_fragmented_files(files.update(i, worse), policy);
    plan::lemma_candidates_are_the_fragmented_files(files, laxer);
}

} // verus!
